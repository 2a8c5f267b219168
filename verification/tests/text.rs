use component_graph::text::str_eq;

#[test]
fn equal_strings_are_equal() {
    assert!(str_eq("", ""));
    assert!(str_eq("message", "message"));
    assert!(str_eq("grüße \u{1F600}", "grüße \u{1F600}"));
}

#[test]
fn different_strings_are_different() {
    assert!(!str_eq("message", "messages"));
    assert!(!str_eq("message", "massage"));
    assert!(!str_eq("", "a"));
    assert!(!str_eq("a", ""));
    assert!(!str_eq("é", "e"));
    assert!(!str_eq("A", "a"));
}
