use component_graph::components::chat_message::ChatMessage;
use component_graph::components::{Attribute, AttributeType, Component, Error, Value};
use component_graph::types::messages::Message;

fn message(content: Option<&str>) -> Message {
    Message { content: content.map(|text| text.to_string()) }
}

fn input(value: Option<Value>) -> Vec<Attribute> {
    vec![Attribute {
        _type: AttributeType::Message,
        name: "message".to_string(),
        value,
        is_required: true,
    }]
}

fn output(value: Option<Value>) -> Vec<Attribute> {
    vec![Attribute {
        _type: AttributeType::String,
        name: "text".to_string(),
        value,
        is_required: false,
    }]
}

#[test]
fn fresh_component_declares_empty_attributes() {
    let component = ChatMessage::default();
    assert_eq!(component.inputs(), input(None));
    assert_eq!(component.outputs(), output(None));
}

#[test]
fn set_attribute_binds_the_message() {
    let mut component = ChatMessage::default();
    assert_eq!(component.set_attribute("message", Value::Message(message(Some("hello")))), Ok(()));
    assert_eq!(component.inputs(), input(Some(Value::Message(message(Some("hello"))))));
    assert_eq!(component.outputs(), output(None));
}

#[test]
fn set_attribute_replaces_an_earlier_message() {
    let mut component = ChatMessage::default();
    component.set_attribute("message", Value::Message(message(Some("first")))).unwrap();
    component.set_attribute("message", Value::Message(message(Some("second")))).unwrap();
    assert_eq!(component.inputs(), input(Some(Value::Message(message(Some("second"))))));
}

#[test]
fn set_attribute_refuses_an_unknown_name() {
    let mut component = ChatMessage::default();
    let before = component.clone();
    assert_eq!(
        component.set_attribute("text", Value::Message(message(Some("hello")))),
        Err(Error::AttributeNotFound("text".to_string()))
    );
    assert_eq!(component, before);
}

#[test]
fn set_attribute_compares_the_whole_name() {
    let mut component = ChatMessage::default();
    assert_eq!(
        component.set_attribute("messages", Value::Message(message(None))),
        Err(Error::AttributeNotFound("messages".to_string()))
    );
    assert_eq!(
        component.set_attribute("", Value::Message(message(None))),
        Err(Error::AttributeNotFound("".to_string()))
    );
    assert_eq!(
        component.set_attribute("Message", Value::Message(message(None))),
        Err(Error::AttributeNotFound("Message".to_string()))
    );
}

#[test]
fn set_attribute_refuses_a_value_of_another_kind() {
    let mut component = ChatMessage::default();
    component.set_attribute("message", Value::Message(message(Some("kept")))).unwrap();
    component.execute().unwrap();
    let before = component.clone();
    assert_eq!(
        component.set_attribute("message", Value::String("other".to_string())),
        Err(Error::IncorrectValueType(AttributeType::Message))
    );
    assert_eq!(component, before);
    assert_eq!(component.inputs(), input(Some(Value::Message(message(Some("kept"))))));
    assert_eq!(component.outputs(), output(Some(Value::String("kept".to_string()))));
}

#[test]
fn unknown_name_is_reported_before_the_kind() {
    let mut component = ChatMessage::default();
    assert_eq!(
        component.set_attribute("other", Value::String("x".to_string())),
        Err(Error::AttributeNotFound("other".to_string()))
    );
}

#[test]
fn execute_copies_the_content_to_the_output() {
    let mut component = ChatMessage::default();
    component.set_attribute("message", Value::Message(message(Some("hello")))).unwrap();
    assert_eq!(component.execute(), Ok(()));
    assert_eq!(component.outputs(), output(Some(Value::String("hello".to_string()))));
    assert_eq!(component.inputs(), input(Some(Value::Message(message(Some("hello"))))));
}

#[test]
fn execute_keeps_every_character() {
    let text = "  línea uno\nline two\t\u{1F600} ";
    let mut component = ChatMessage::default();
    component.set_attribute("message", Value::Message(message(Some(text)))).unwrap();
    component.execute().unwrap();
    assert_eq!(component.outputs(), output(Some(Value::String(text.to_string()))));
}

#[test]
fn execute_without_a_message_fails() {
    let mut component = ChatMessage::default();
    assert_eq!(
        component.execute(),
        Err(Error::MissingRequiredAttribute("message".to_string()))
    );
    assert_eq!(component, ChatMessage::default());
}

#[test]
fn execute_with_a_message_without_content_fails() {
    let mut component = ChatMessage::default();
    component.set_attribute("message", Value::Message(message(None))).unwrap();
    let before = component.clone();
    assert_eq!(
        component.execute(),
        Err(Error::MissingRequiredAttribute("message".to_string()))
    );
    assert_eq!(component, before);
    assert_eq!(component.outputs(), output(None));
}

#[test]
fn execute_with_empty_content_gives_empty_text() {
    let mut component = ChatMessage::default();
    component.set_attribute("message", Value::Message(message(Some("")))).unwrap();
    assert_eq!(component.execute(), Ok(()));
    assert_eq!(component.outputs(), output(Some(Value::String(String::new()))));
}

#[test]
fn a_failed_run_keeps_the_text_of_an_earlier_run() {
    let mut component = ChatMessage::default();
    component.set_attribute("message", Value::Message(message(Some("old")))).unwrap();
    component.execute().unwrap();
    component.set_attribute("message", Value::Message(message(None))).unwrap();
    assert_eq!(
        component.execute(),
        Err(Error::MissingRequiredAttribute("message".to_string()))
    );
    assert_eq!(component.outputs(), output(Some(Value::String("old".to_string()))));
}

#[test]
fn component_forwards_to_its_variant() {
    let mut component = Component::ChatMessage(ChatMessage::default());
    assert_eq!(component.inputs(), input(None));
    assert_eq!(component.outputs(), output(None));
    assert_eq!(
        component.execute(),
        Err(Error::MissingRequiredAttribute("message".to_string()))
    );
    assert_eq!(
        component.set_attribute("nothing", Value::String("x".to_string())),
        Err(Error::AttributeNotFound("nothing".to_string()))
    );
    assert_eq!(
        component.set_attribute("message", Value::String("x".to_string())),
        Err(Error::IncorrectValueType(AttributeType::Message))
    );
    assert_eq!(component, Component::ChatMessage(ChatMessage::default()));
    assert_eq!(component.set_attribute("message", Value::Message(message(Some("hi")))), Ok(()));
    assert_eq!(component.execute(), Ok(()));
    assert_eq!(component.outputs(), output(Some(Value::String("hi".to_string()))));
    assert_eq!(component.inputs(), input(Some(Value::Message(message(Some("hi"))))));
}

#[test]
fn clones_are_equal_and_independent() {
    let mut component = Component::ChatMessage(ChatMessage::default());
    component.set_attribute("message", Value::Message(message(Some("one")))).unwrap();
    let copy = component.clone();
    assert_eq!(copy, component);
    component.set_attribute("message", Value::Message(message(Some("two")))).unwrap();
    assert_ne!(copy, component);
    let value = Value::Message(message(Some("v")));
    assert_eq!(value.clone(), value);
    let text = Value::String("t".to_string());
    assert_eq!(text.clone(), text);
}

#[test]
fn errors_describe_themselves() {
    assert_eq!(
        Error::MissingRequiredAttribute("message".to_string()).message(),
        "missing required attribute: message"
    );
    assert_eq!(
        Error::AttributeNotFound("colour".to_string()).message(),
        "attribute not found: colour"
    );
    assert_eq!(
        Error::IncorrectValueType(AttributeType::Message).message(),
        "incorrect value type, expected: Message"
    );
    assert_eq!(
        Error::IncorrectValueType(AttributeType::String).message(),
        "incorrect value type, expected: String"
    );
    assert_eq!(Error::AttributeNotFound(String::new()).message(), "attribute not found: ");
}
