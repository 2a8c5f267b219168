use component_graph::components::chat_message::ChatMessage;
use component_graph::components::{
    Attribute, AttributeType, Component, Edge, Error, Graph, Node, Value,
};
use component_graph::types::messages::Message;

fn message(content: Option<&str>) -> Value {
    Value::Message(Message { content: content.map(|text| text.to_string()) })
}

fn text(content: &str) -> Value {
    Value::String(content.to_string())
}

/// A node whose component has the given message bound, if any.
fn node<'a>(id: &'a str, bound: Option<Value>) -> Node<'a> {
    let mut component = Component::ChatMessage(ChatMessage::default());
    if let Some(value) = bound {
        component.set_attribute("message", value).unwrap();
    }
    Node { id, component, executed: false }
}

fn edge<'a>(
    from: &'a str,
    from_attribute: &'a str,
    to: &'a str,
    to_attribute: &'a str,
) -> Edge<'a> {
    Edge { from, from_attribute, to, to_attribute, value: None }
}

fn text_output(value: Option<Value>) -> Vec<Attribute> {
    vec![Attribute {
        _type: AttributeType::String,
        name: "text".to_string(),
        value,
        is_required: false,
    }]
}

fn marks(graph: &Graph) -> Vec<bool> {
    graph.nodes.iter().map(|node| node.executed).collect()
}

fn values(graph: &Graph) -> Vec<Option<Value>> {
    graph.edges.iter().map(|edge| edge.value.clone()).collect()
}

#[test]
fn new_keeps_nodes_and_edges() {
    let graph = Graph::new(
        vec![node("a", None), node("b", Some(message(Some("x"))))],
        vec![edge("a", "text", "b", "message")],
    );
    assert_eq!(graph.nodes.len(), 2);
    assert_eq!(graph.nodes[0].id, "a");
    assert_eq!(graph.nodes[1].id, "b");
    assert_eq!(marks(&graph), vec![false, false]);
    assert_eq!(graph.edges.len(), 1);
    assert_eq!(graph.edges[0].from, "a");
    assert_eq!(graph.edges[0].from_attribute, "text");
    assert_eq!(graph.edges[0].to, "b");
    assert_eq!(graph.edges[0].to_attribute, "message");
    assert_eq!(graph.edges[0].value, None);
}

#[test]
fn new_indexes_the_edges_by_name() {
    let graph = Graph::new(
        vec![node("a", None), node("b", None), node("c", None)],
        vec![
            edge("a", "text", "b", "message"),
            edge("b", "text", "c", "message"),
            edge("a", "text", "c", "message"),
            edge("a", "text", "nowhere", "message"),
            edge("nobody", "text", "b", "message"),
        ],
    );
    assert_eq!(
        graph.edges_from,
        vec![("a", vec![0, 2, 3]), ("b", vec![1]), ("nobody", vec![4])]
    );
    assert_eq!(
        graph.edges_to,
        vec![("b", vec![0, 4]), ("c", vec![1, 2]), ("nowhere", vec![3])]
    );
}

#[test]
fn new_indexes_edges_without_any_node() {
    let graph = Graph::new(
        vec![],
        vec![
            edge("a", "text", "b", "message"),
            edge("a", "text", "c", "message"),
            edge("b", "text", "c", "message"),
        ],
    );
    assert!(graph.nodes.is_empty());
    assert_eq!(graph.edges.len(), 3);
    assert_eq!(graph.edges_from, vec![("a", vec![0, 1]), ("b", vec![2])]);
    assert_eq!(graph.edges_to, vec![("b", vec![0]), ("c", vec![1, 2])]);
    assert_eq!(graph.edges[0].to, "b");
    assert_eq!(graph.edges[1].to, "c");
    assert_eq!(graph.edges[2].from, "b");
}

#[test]
fn new_indexes_a_dangling_edge_like_any_other() {
    let graph = Graph::new(vec![], vec![edge("a", "text", "b", "message")]);
    assert_eq!(graph.edges_from, vec![("a", vec![0])]);
    assert_eq!(graph.edges_to, vec![("b", vec![0])]);
    assert_eq!(graph.edges.len(), 1);
}

#[test]
fn every_edge_stands_once_in_each_index() {
    let graph = Graph::new(
        vec![node("a", None)],
        vec![
            edge("x", "o", "y", "i"),
            edge("a", "o", "a", "i"),
            edge("x", "o", "a", "i"),
            edge("a", "o", "y", "i"),
            edge("x", "o", "y", "i"),
            edge("", "o", "", "i"),
        ],
    );
    assert_eq!(graph.edges_from, vec![("x", vec![0, 2, 4]), ("a", vec![1, 3]), ("", vec![5])]);
    assert_eq!(graph.edges_to, vec![("y", vec![0, 3, 4]), ("a", vec![1, 2]), ("", vec![5])]);
    let from: usize = graph.edges_from.iter().map(|entry| entry.1.len()).sum();
    let to: usize = graph.edges_to.iter().map(|entry| entry.1.len()).sum();
    assert_eq!(from, graph.edges.len());
    assert_eq!(to, graph.edges.len());
}

#[test]
fn new_of_nothing_is_empty() {
    let mut graph = Graph::new(vec![], vec![]);
    assert!(graph.edges_from.is_empty());
    assert!(graph.edges_to.is_empty());
    assert!(graph.candidate_ids().is_empty());
    assert_eq!(graph.step(), Ok(false));
    assert_eq!(graph.execute(), Ok(()));
}

#[test]
fn nodes_that_share_a_name_share_their_edges() {
    let graph = Graph::new(
        vec![node("a", None), node("a", None)],
        vec![edge("a", "text", "a", "message")],
    );
    assert_eq!(graph.edges_from, vec![("a", vec![0])]);
    assert_eq!(graph.edges_to, vec![("a", vec![0])]);
}

#[test]
fn without_edges_every_pending_node_is_a_candidate() {
    let mut nodes = vec![node("a", None), node("b", None), node("c", None)];
    nodes[1].executed = true;
    let graph = Graph::new(nodes, vec![]);
    assert_eq!(graph.candidate_ids(), vec!["a", "c"]);
}

#[test]
fn a_node_waits_for_every_incoming_edge() {
    let mut edges = vec![edge("a", "text", "c", "message"), edge("b", "text", "c", "message")];
    edges[0].value = Some(message(Some("one")));
    let mut graph = Graph::new(vec![node("c", None)], edges);
    assert!(graph.candidate_ids().is_empty());
    graph.edges[1].value = Some(message(Some("two")));
    assert_eq!(graph.candidate_ids(), vec!["c"]);
    graph.nodes[0].executed = true;
    assert!(graph.candidate_ids().is_empty());
}

#[test]
fn fullfill_child_edges_fills_every_matching_edge() {
    let mut graph = Graph::new(
        vec![node("a", None), node("b", None), node("c", None)],
        vec![
            edge("a", "text", "b", "message"),
            edge("a", "other", "b", "message"),
            edge("b", "text", "c", "message"),
            edge("a", "text", "c", "message"),
        ],
    );
    graph.fullfill_child_edges("a", "text", text("hello"));
    assert_eq!(values(&graph), vec![Some(text("hello")), None, None, Some(text("hello"))]);
    assert_eq!(marks(&graph), vec![false, false, false]);
    assert_eq!(graph.edges_from, vec![("a", vec![0, 1, 3]), ("b", vec![2])]);
    assert_eq!(graph.edges_to, vec![("b", vec![0, 1]), ("c", vec![2, 3])]);
}

#[test]
fn fullfill_child_edges_without_a_match_changes_nothing() {
    let mut graph =
        Graph::new(vec![node("a", None)], vec![edge("a", "text", "b", "message")]);
    graph.fullfill_child_edges("a", "tex", text("x"));
    graph.fullfill_child_edges("b", "text", text("x"));
    graph.fullfill_child_edges("", "", text("x"));
    assert_eq!(values(&graph), vec![None]);
}

#[test]
fn an_edge_keeps_the_value_it_has() {
    let mut graph =
        Graph::new(vec![node("a", None)], vec![edge("a", "text", "b", "message")]);
    graph.fullfill_child_edges("a", "text", text("first"));
    graph.fullfill_child_edges("a", "text", text("second"));
    assert_eq!(values(&graph), vec![Some(text("first"))]);
}

#[test]
fn without_edges_every_node_runs_once() {
    let mut graph = Graph::new(
        vec![
            node("a", Some(message(Some("one")))),
            node("b", Some(message(Some("two")))),
            node("c", Some(message(Some("three")))),
        ],
        vec![],
    );
    assert_eq!(graph.candidate_ids(), vec!["a", "b", "c"]);
    assert_eq!(graph.execute(), Ok(()));
    assert_eq!(marks(&graph), vec![true, true, true]);
    assert_eq!(graph.nodes[0].component.outputs(), text_output(Some(text("one"))));
    assert_eq!(graph.nodes[1].component.outputs(), text_output(Some(text("two"))));
    assert_eq!(graph.nodes[2].component.outputs(), text_output(Some(text("three"))));
    assert!(graph.candidate_ids().is_empty());
}

#[test]
fn without_edges_the_order_of_the_nodes_does_not_matter() {
    let mut graph = Graph::new(
        vec![
            node("c", Some(message(Some("three")))),
            node("a", Some(message(Some("one")))),
            node("b", Some(message(Some("two")))),
        ],
        vec![],
    );
    assert_eq!(graph.step(), Ok(true));
    assert_eq!(marks(&graph), vec![true, true, true]);
    assert_eq!(graph.nodes[0].component.outputs(), text_output(Some(text("three"))));
    assert_eq!(graph.nodes[1].component.outputs(), text_output(Some(text("one"))));
    assert_eq!(graph.nodes[2].component.outputs(), text_output(Some(text("two"))));
    assert_eq!(graph.step(), Ok(false));
}

#[test]
fn one_node_with_hello() {
    let mut graph = Graph::new(vec![node("chat", Some(message(Some("hello"))))], vec![]);
    assert_eq!(graph.execute(), Ok(()));
    assert_eq!(
        graph.nodes[0].component.outputs(),
        vec![Attribute {
            _type: AttributeType::String,
            name: "text".to_string(),
            value: Some(Value::String("hello".to_string())),
            is_required: false,
        }]
    );
    assert!(graph.nodes[0].executed);
}

#[test]
fn one_node_without_content_fails() {
    let mut graph = Graph::new(vec![node("chat", Some(message(None)))], vec![]);
    assert_eq!(graph.execute(), Err(Error::MissingRequiredAttribute("message".to_string())));
    assert!(!graph.nodes[0].executed);
    assert_eq!(graph.nodes[0].component.outputs(), text_output(None));
}

#[test]
fn second_node_without_content_fails_after_the_first_ran() {
    let mut graph = Graph::new(
        vec![node("first", Some(message(Some("hello")))), node("second", Some(message(None)))],
        vec![],
    );
    assert_eq!(graph.execute(), Err(Error::MissingRequiredAttribute("message".to_string())));
    assert_eq!(marks(&graph), vec![true, false]);
    assert_eq!(graph.nodes[0].component.outputs(), text_output(Some(text("hello"))));
    assert_eq!(graph.nodes[1].component.outputs(), text_output(None));
}

#[test]
fn an_unconnected_node_without_input_aborts_the_run() {
    let mut graph = Graph::new(
        vec![
            node("lonely", None),
            node("ready", Some(message(Some("never runs")))),
            node("also ready", Some(message(Some("never runs")))),
        ],
        vec![edge("ready", "text", "sink", "message")],
    );
    assert_eq!(graph.execute(), Err(Error::MissingRequiredAttribute("message".to_string())));
    assert_eq!(marks(&graph), vec![false, false, false]);
    assert_eq!(values(&graph), vec![None]);
    assert_eq!(graph.nodes[1].component.outputs(), text_output(None));
    assert_eq!(graph.nodes[2].component.outputs(), text_output(None));
}

#[test]
fn a_failure_keeps_the_outputs_of_the_pass_off_the_edges() {
    let mut graph = Graph::new(
        vec![node("a", Some(message(Some("made")))), node("b", None), node("c", None)],
        vec![edge("a", "text", "c", "message")],
    );
    assert_eq!(graph.step(), Err(Error::MissingRequiredAttribute("message".to_string())));
    assert_eq!(marks(&graph), vec![true, false, false]);
    assert_eq!(graph.nodes[0].component.outputs(), text_output(Some(text("made"))));
    assert_eq!(values(&graph), vec![None]);
}

#[test]
fn a_chain_runs_one_node_per_pass() {
    let mut graph = Graph::new(
        vec![node("b", None), node("a", Some(message(Some("exactly this \u{2713} "))))],
        vec![edge("a", "text", "b", "message")],
    );
    assert_eq!(graph.candidate_ids(), vec!["a"]);
    assert_eq!(graph.step(), Ok(true));
    assert_eq!(marks(&graph), vec![false, true]);
    assert_eq!(values(&graph), vec![Some(text("exactly this \u{2713} "))]);
    assert_eq!(graph.candidate_ids(), vec!["b"]);
    // The only kind of component takes a message, and this edge brings a string.
    assert_eq!(graph.step(), Err(Error::IncorrectValueType(AttributeType::Message)));
    assert_eq!(marks(&graph), vec![false, true]);
    assert_eq!(graph.nodes[0].component, Component::ChatMessage(ChatMessage::default()));
}

#[test]
fn a_chain_hands_the_value_of_the_edge_to_the_consumer() {
    let mut edges = vec![edge("a", "message", "b", "message")];
    edges[0].value = Some(message(Some("from the edge")));
    let mut graph = Graph::new(vec![node("b", None)], edges);
    assert_eq!(graph.execute(), Ok(()));
    assert_eq!(marks(&graph), vec![true]);
    assert_eq!(graph.nodes[0].component.outputs(), text_output(Some(text("from the edge"))));
    assert_eq!(values(&graph), vec![Some(message(Some("from the edge")))]);
}

#[test]
fn the_later_edge_wins_on_the_same_input() {
    let mut edges = vec![
        edge("p", "out", "c", "message"),
        edge("q", "out", "c", "message"),
    ];
    edges[0].value = Some(message(Some("earlier")));
    edges[1].value = Some(message(Some("later")));
    let mut graph = Graph::new(vec![node("c", Some(message(Some("bound by hand"))))], edges);
    assert_eq!(graph.execute(), Ok(()));
    assert_eq!(graph.nodes[0].component.outputs(), text_output(Some(text("later"))));
}

#[test]
fn an_edge_to_an_unknown_input_fails_the_node() {
    let mut edges = vec![edge("p", "out", "c", "colour")];
    edges[0].value = Some(message(Some("x")));
    let mut graph = Graph::new(vec![node("c", Some(message(Some("bound"))))], edges);
    assert_eq!(graph.execute(), Err(Error::AttributeNotFound("colour".to_string())));
    assert_eq!(marks(&graph), vec![false]);
    assert_eq!(graph.nodes[0].component.outputs(), text_output(None));
}

#[test]
fn a_failing_node_is_left_as_it_was() {
    let mut edges = vec![
        edge("p", "out", "c", "message"),
        edge("q", "out", "c", "message"),
    ];
    edges[0].value = Some(message(Some("would be bound")));
    edges[1].value = Some(text("wrong kind"));
    let mut graph = Graph::new(vec![node("c", None)], edges);
    assert_eq!(graph.execute(), Err(Error::IncorrectValueType(AttributeType::Message)));
    assert_eq!(graph.nodes[0].component, Component::ChatMessage(ChatMessage::default()));
    assert!(!graph.nodes[0].executed);
}

#[test]
fn a_blocked_node_is_left_alone_and_the_run_succeeds() {
    let mut graph = Graph::new(
        vec![node("a", Some(message(Some("runs")))), node("b", Some(message(Some("waits"))))],
        vec![edge("missing", "text", "b", "message")],
    );
    assert_eq!(graph.execute(), Ok(()));
    assert_eq!(marks(&graph), vec![true, false]);
    assert_eq!(graph.nodes[1].component.outputs(), text_output(None));
}

#[test]
fn a_cycle_is_left_alone_and_the_run_succeeds() {
    let mut graph = Graph::new(
        vec![node("a", Some(message(Some("x")))), node("b", Some(message(Some("y"))))],
        vec![edge("a", "text", "b", "message"), edge("b", "text", "a", "message")],
    );
    assert!(graph.candidate_ids().is_empty());
    assert_eq!(graph.execute(), Ok(()));
    assert_eq!(marks(&graph), vec![false, false]);
    assert_eq!(values(&graph), vec![None, None]);
}

#[test]
fn running_a_finished_graph_again_changes_nothing() {
    let mut graph = Graph::new(
        vec![node("a", Some(message(Some("one")))), node("b", Some(message(Some("two"))))],
        vec![edge("a", "text", "sink", "message")],
    );
    assert_eq!(graph.execute(), Ok(()));
    let nodes_before: Vec<Component> =
        graph.nodes.iter().map(|node| node.component.clone()).collect();
    let values_before = values(&graph);
    assert_eq!(marks(&graph), vec![true, true]);
    assert_eq!(graph.execute(), Ok(()));
    assert_eq!(graph.step(), Ok(false));
    assert_eq!(marks(&graph), vec![true, true]);
    assert_eq!(values(&graph), values_before);
    assert_eq!(values_before, vec![Some(text("one"))]);
    let nodes_after: Vec<Component> =
        graph.nodes.iter().map(|node| node.component.clone()).collect();
    assert_eq!(nodes_after, nodes_before);
}

#[test]
fn a_graph_of_executed_nodes_is_not_run() {
    let mut nodes = vec![node("a", None), node("b", None)];
    nodes[0].executed = true;
    nodes[1].executed = true;
    let mut graph = Graph::new(nodes, vec![edge("a", "text", "b", "message")]);
    assert!(graph.candidate_ids().is_empty());
    assert_eq!(graph.execute(), Ok(()));
    assert_eq!(marks(&graph), vec![true, true]);
    assert_eq!(values(&graph), vec![None]);
    assert_eq!(graph.nodes[0].component, Component::ChatMessage(ChatMessage::default()));
}

#[test]
fn outputs_fan_out_to_every_edge_of_the_producer() {
    let mut graph = Graph::new(
        vec![node("a", Some(message(Some("shared"))))],
        vec![
            edge("a", "text", "x", "message"),
            edge("a", "text", "y", "message"),
            edge("a", "nothing", "z", "message"),
        ],
    );
    assert_eq!(graph.execute(), Ok(()));
    assert_eq!(values(&graph), vec![Some(text("shared")), Some(text("shared")), None]);
}

#[test]
fn nodes_with_the_same_name_both_run() {
    let mut graph = Graph::new(
        vec![
            node("twin", Some(message(Some("first")))),
            node("twin", Some(message(Some("second")))),
        ],
        vec![edge("twin", "text", "sink", "message")],
    );
    assert_eq!(graph.candidate_ids(), vec!["twin", "twin"]);
    assert_eq!(graph.execute(), Ok(()));
    assert_eq!(marks(&graph), vec![true, true]);
    assert_eq!(values(&graph), vec![Some(text("first"))]);
}

#[test]
fn first_dangling_edge_finds_an_unknown_end() {
    let graph = Graph::new(
        vec![node("a", None), node("b", None)],
        vec![
            edge("a", "text", "b", "message"),
            edge("b", "text", "a", "message"),
            edge("a", "text", "c", "message"),
            edge("d", "text", "a", "message"),
        ],
    );
    assert_eq!(graph.first_dangling_edge(), Some(2));
    let other = Graph::new(
        vec![node("a", None)],
        vec![edge("x", "text", "a", "message"), edge("a", "text", "y", "message")],
    );
    assert_eq!(other.first_dangling_edge(), Some(0));
}

#[test]
fn first_dangling_edge_of_a_sound_graph_is_none() {
    let graph = Graph::new(
        vec![node("a", None), node("b", None)],
        vec![edge("a", "text", "b", "message"), edge("a", "other", "a", "message")],
    );
    assert_eq!(graph.first_dangling_edge(), None);
    assert_eq!(Graph::new(vec![], vec![]).first_dangling_edge(), None);
    assert_eq!(
        Graph::new(vec![], vec![edge("a", "text", "b", "message")]).first_dangling_edge(),
        Some(0)
    );
}

#[test]
fn a_sound_graph_without_cycle_runs_every_node() {
    let mut source = node("source", Some(message(Some("earlier run"))));
    source.executed = true;
    let mut edges = vec![
        edge("source", "text", "left", "message"),
        edge("source", "text", "right", "message"),
    ];
    edges[0].value = Some(message(Some("for the left")));
    edges[1].value = Some(message(Some("for the right")));
    let mut graph = Graph::new(vec![node("right", None), source, node("left", None)], edges);
    assert_eq!(graph.first_dangling_edge(), None);
    assert_eq!(graph.candidate_ids(), vec!["right", "left"]);
    assert_eq!(graph.execute(), Ok(()));
    assert_eq!(marks(&graph), vec![true, true, true]);
    assert_eq!(graph.nodes[0].component.outputs(), text_output(Some(text("for the right"))));
    assert_eq!(graph.nodes[1].component.outputs(), text_output(None));
    assert_eq!(graph.nodes[2].component.outputs(), text_output(Some(text("for the left"))));
}

#[test]
fn an_edge_to_an_unknown_input_is_reported_before_the_missing_one() {
    let mut edges = vec![edge("p", "out", "c", "colour")];
    edges[0].value = Some(message(Some("x")));
    let mut graph = Graph::new(vec![node("c", None), node("d", Some(message(Some("y"))))], edges);
    assert_eq!(graph.execute(), Err(Error::AttributeNotFound("colour".to_string())));
    assert_eq!(marks(&graph), vec![false, false]);
    assert_eq!(values(&graph), vec![Some(message(Some("x")))]);
}
