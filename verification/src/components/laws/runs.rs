//! What a whole run does, and what it never does.

use vstd::prelude::*;

use super::super::model::{
    fed, lemma_candidates_among, lemma_first_failure, lemma_idle, lemma_pass_makes_progress,
    lemma_unfailing_pass, EdgeView, GraphView, NodeView, Outcome,
};
use super::super::{ComponentView, ErrorView, ValueView};
use super::bindings::{
    lemma_set_attribute_goes_by_the_inputs, lemma_unset_required_input_is_missing,
};
use super::edges::offers;
use super::passes::{
    lemma_failing_pass, lemma_fed_without_edges, lemma_idle_pass, lemma_pass_node_by_node,
    lemma_runs_next,
};

verus! {

/// Whether `after` can have come from `before` by running: the wiring and the
/// indices are the same, a node that had run is the same, and an edge that
/// carried a value is the same.
pub open spec fn evolved(before: GraphView, after: GraphView) -> bool {
    &&& after.nodes.len() == before.nodes.len()
    &&& after.edges.len() == before.edges.len()
    &&& after.edges_from == before.edges_from
    &&& after.edges_to == before.edges_to
    &&& forall|n: int|
        0 <= n < before.nodes.len() ==> (#[trigger] after.nodes[n]).id == before.nodes[n].id
    &&& forall|n: int|
        0 <= n < before.nodes.len() && before.nodes[n].executed ==> (#[trigger] after.nodes[n])
            == before.nodes[n]
    &&& forall|e: int|
        0 <= e < before.edges.len() ==> {
            &&& (#[trigger] after.edges[e]).from == before.edges[e].from
            &&& after.edges[e].from_attribute == before.edges[e].from_attribute
            &&& after.edges[e].to == before.edges[e].to
            &&& after.edges[e].to_attribute == before.edges[e].to_attribute
        }
    &&& forall|e: int|
        0 <= e < before.edges.len() && before.edges[e].value is Some ==> (#[trigger] after.edges[e])
            == before.edges[e]
}

/// What a graph can become, it can become in steps.
pub proof fn lemma_evolved_in_steps(first: GraphView, second: GraphView, third: GraphView)
    requires
        evolved(first, second),
        evolved(second, third),
    ensures
        evolved(first, third),
{
    assert forall|n: int| 0 <= n < first.nodes.len() implies (#[trigger] third.nodes[n]).id
        == first.nodes[n].id by {
        assert(second.nodes[n].id == first.nodes[n].id);
    }
    assert forall|n: int| 0 <= n < first.nodes.len() && first.nodes[n].executed implies (
    #[trigger] third.nodes[n]) == first.nodes[n] by {
        assert(second.nodes[n] == first.nodes[n]);
    }
    assert forall|e: int| 0 <= e < first.edges.len() implies {
        &&& (#[trigger] third.edges[e]).from == first.edges[e].from
        &&& third.edges[e].from_attribute == first.edges[e].from_attribute
        &&& third.edges[e].to == first.edges[e].to
        &&& third.edges[e].to_attribute == first.edges[e].to_attribute
    } by {
        assert(second.edges[e].from == first.edges[e].from);
    }
    assert forall|e: int| 0 <= e < first.edges.len() && first.edges[e].value is Some implies (
    #[trigger] third.edges[e]) == first.edges[e] by {
        assert(second.edges[e] == first.edges[e]);
    }
}

/// A pass changes neither the wiring nor the indices, leaves every node that
/// had run as it was (so no component runs twice), and overwrites no value
/// on an edge.
pub proof fn lemma_pass_evolves(graph: GraphView)
    ensures
        evolved(graph, graph.pass().graph),
{
    let after = graph.pass().graph;
    lemma_pass_node_by_node(graph);
    assert forall|n: int| 0 <= n < graph.nodes.len() implies (#[trigger] after.nodes[n]).id
        == graph.nodes[n].id && (graph.nodes[n].executed ==> after.nodes[n] == graph.nodes[n]) by {
        if graph.runs_next(n) {
            lemma_runs_next(graph, n);
        }
    }
}

/// A run changes neither the wiring nor the indices, leaves every node that
/// had run as it was (so no component runs twice), and overwrites no value
/// on an edge.
pub proof fn lemma_run_evolves(graph: GraphView)
    ensures
        evolved(graph, graph.run().graph),
    decreases graph.pending(),
{
    if !graph.idle() {
        lemma_pass_evolves(graph);
        let once = graph.pass();
        if once.failure is None {
            lemma_pass_makes_progress(graph);
            lemma_run_evolves(once.graph);
            lemma_evolved_in_steps(graph, once.graph, once.graph.run().graph);
        }
    }
}

/// A run never takes back that a node has run, and never runs it again.
pub proof fn lemma_run_keeps_marks(graph: GraphView, n: int)
    requires
        0 <= n < graph.nodes.len(),
        graph.nodes[n].executed,
    ensures
        graph.run().graph.nodes[n] == graph.nodes[n],
{
    lemma_run_evolves(graph);
}

/// Running a graph in which every node has run changes nothing and succeeds:
/// no node is eligible, so the run ends before its first pass.
pub proof fn lemma_run_of_finished_graph(graph: GraphView)
    requires
        forall|n: int| 0 <= n < graph.nodes.len() ==> graph.nodes[n].executed,
    ensures
        graph.idle(),
        graph.candidates().len() == 0,
        graph.run() == (Outcome { graph, failure: None }),
{
    lemma_idle(graph);
}

/// A run that succeeds ends where no node is eligible, and running again
/// from there changes nothing and succeeds.
pub proof fn lemma_run_settles(graph: GraphView)
    requires
        graph.run().failure is None,
    ensures
        graph.run().graph.idle(),
        graph.run().graph.candidates().len() == 0,
        graph.run().graph.run() == graph.run(),
    decreases graph.pending(),
{
    if !graph.idle() {
        lemma_pass_makes_progress(graph);
        lemma_run_settles(graph.pass().graph);
    }
    lemma_idle(graph.run().graph);
}

/// A run that succeeds leaves a node pending only if the node is blocked:
/// an edge that ends at it carries no value.
pub proof fn lemma_run_leaves_only_blocked_nodes(graph: GraphView, n: int)
    requires
        graph.run().failure is None,
        0 <= n < graph.nodes.len(),
        !graph.run().graph.nodes[n].executed,
    ensures
        exists|e: int|
            0 <= e < graph.run().graph.edges.len() && (#[trigger] graph.run().graph.edges[e]).to
                == graph.nodes[n].id && graph.run().graph.edges[e].value is None,
{
    let last = graph.run().graph;
    lemma_run_settles(graph);
    lemma_run_evolves(graph);
    assert(last.nodes[n].id == graph.nodes[n].id);
    assert(!last.eligible(n));
}

/// Without edges, the nodes that are eligible are those that have not run,
/// and one pass does the whole run. The run succeeds exactly if each of those
/// nodes can run on what is bound to it. It then leaves every node as having
/// run: a node that had run before as it was, every other node as running it
/// once makes it.
pub proof fn lemma_run_without_edges(graph: GraphView)
    requires
        graph.edges.len() == 0,
    ensures
        forall|n: int| 0 <= n < graph.nodes.len() ==> graph.eligible(n) == !graph.nodes[n].executed,
        graph.run() == graph.pass(),
        graph.run().failure is None <==> forall|n: int|
            0 <= n < graph.nodes.len() && !(#[trigger] graph.nodes[n]).executed
                ==> graph.nodes[n].fired(graph.edges) is Ok,
        graph.run().failure is None ==> forall|n: int|
            0 <= n < graph.nodes.len() ==> (#[trigger] graph.run().graph.nodes[n]).executed
                && graph.run().graph.nodes[n] == (if graph.nodes[n].executed {
                graph.nodes[n]
            } else {
                graph.nodes[n].fired(graph.edges)->Ok_0
            }),
{
    lemma_pass_node_by_node(graph);
    if graph.pass().failure is None {
        lemma_unfailing_pass(graph);
        assert forall|n: int|
            0 <= n < graph.nodes.len() && !(#[trigger] graph.nodes[n]).executed implies
            graph.nodes[n].fired(graph.edges) is Ok by {
            assert(graph.eligible(n));
        }
        assert forall|n: int| 0 <= n < graph.nodes.len() implies
            graph.pass().graph.nodes[n].executed by {
            assert(graph.runs_next(n) == graph.eligible(n));
        }
        lemma_run_of_finished_graph(graph.pass().graph);
        if graph.idle() {
            lemma_idle_pass(graph);
        } else {
            lemma_pass_makes_progress(graph);
        }
    } else {
        let m = lemma_first_failure(graph, graph.nodes.len() as int);
        assert(!graph.nodes[m].executed && graph.nodes[m].fired(graph.edges) is Err);
    }
}

/// Without edges, the order of the nodes does not matter to a run that
/// succeeds: a node comes out of it the same, whatever graph without edges
/// it stands in and at whatever position.
pub proof fn lemma_order_does_not_matter_without_edges(
    one: GraphView,
    n: int,
    other: GraphView,
    m: int,
)
    requires
        one.edges.len() == 0,
        other.edges.len() == 0,
        0 <= n < one.nodes.len(),
        0 <= m < other.nodes.len(),
        one.nodes[n] == other.nodes[m],
        one.run().failure is None,
        other.run().failure is None,
    ensures
        one.run().graph.nodes[n] == other.run().graph.nodes[m],
{
    lemma_run_without_edges(one);
    lemma_run_without_edges(other);
    assert(one.edges =~= other.edges);
}

/// When an eligible node fails and no eligible node before it does, the run
/// ends in its first pass with the error of that node. The failing node and
/// all nodes after it are as they were, and so are all edges.
pub proof fn lemma_run_stops_at_first_failure(graph: GraphView, m: int)
    requires
        graph.fails(m),
        !graph.fails_before(m),
    ensures
        graph.run() == graph.pass(),
        graph.run().failure == Some(graph.nodes[m].fired(graph.edges)->Err_0),
        graph.run().graph.edges == graph.edges,
        forall|n: int| m <= n < graph.nodes.len() ==> graph.run().graph.nodes[n] == graph.nodes[n],
{
    lemma_failing_pass(graph, m);
}

/// A node that has not run, that no edge ends at, and whose component cannot
/// run on what is bound to it, makes the run fail in its first pass: with
/// the error of that component if no eligible node before it fails, and in
/// any case without a change to this node, to any node after it, or to any
/// edge.
pub proof fn lemma_unconnected_node_without_input_fails_the_run(graph: GraphView, n: int)
    requires
        0 <= n < graph.nodes.len(),
        !graph.nodes[n].executed,
        forall|e: int| 0 <= e < graph.edges.len() ==> graph.edges[e].to != graph.nodes[n].id,
        graph.nodes[n].component.execute() is Err,
    ensures
        graph.eligible(n),
        graph.run() == graph.pass(),
        graph.run().failure is Some,
        !graph.fails_before(n) ==> graph.run().failure == Some(
            graph.nodes[n].component.execute()->Err_0,
        ),
        graph.run().graph.edges == graph.edges,
        forall|k: int| n <= k < graph.nodes.len() ==> graph.run().graph.nodes[k] == graph.nodes[k],
{
    lemma_fed_without_edges(graph.nodes[n], graph.edges, graph.edges.len());
    assert(graph.fails(n));
    if graph.fails_before(n) {
        let m = lemma_first_failure(graph, n);
        lemma_run_stops_at_first_failure(graph, m);
    } else {
        lemma_run_stops_at_first_failure(graph, n);
    }
}

/// A node that has not run, that no edge ends at, and that has a required
/// input without a value, makes the run fail in its first pass: with that
/// input reported as missing if no eligible node before it fails, and in any
/// case without a change to this node, to any node after it, or to any edge.
pub proof fn lemma_unset_required_input_fails_the_run(graph: GraphView, n: int, i: int)
    requires
        0 <= n < graph.nodes.len(),
        !graph.nodes[n].executed,
        forall|e: int| 0 <= e < graph.edges.len() ==> graph.edges[e].to != graph.nodes[n].id,
        0 <= i < graph.nodes[n].component.inputs().len(),
        graph.nodes[n].component.inputs()[i].is_required,
        graph.nodes[n].component.inputs()[i].value is None,
    ensures
        graph.run() == graph.pass(),
        graph.run().failure is Some,
        !graph.fails_before(n) ==> graph.run().failure == Some(
            ErrorView::MissingRequiredAttribute(graph.nodes[n].component.inputs()[i].name),
        ),
        graph.run().graph.edges == graph.edges,
        forall|k: int| n <= k < graph.nodes.len() ==> graph.run().graph.nodes[k] == graph.nodes[k],
{
    lemma_unset_required_input_is_missing(graph.nodes[n].component, i);
    lemma_unconnected_node_without_input_fails_the_run(graph, n);
}

/// Binding the values of edges that end at other inputs leaves an input as
/// it is.
proof fn lemma_fed_keeps_other_inputs(
    component: ComponentView,
    id: Seq<char>,
    edges: Seq<EdgeView>,
    k: nat,
    i: int,
)
    requires
        k <= edges.len(),
        0 <= i < component.inputs().len(),
        forall|e: int|
            0 <= e < edges.len() && (#[trigger] edges[e]).to == id ==> edges[e].to_attribute
                != component.inputs()[i].name,
        fed(component, id, edges, k) is Ok,
    ensures
        fed(component, id, edges, k)->Ok_0.inputs().len() == component.inputs().len(),
        fed(component, id, edges, k)->Ok_0.inputs()[i] == component.inputs()[i],
    decreases k,
{
    if k > 0 {
        let earlier = fed(component, id, edges, (k - 1) as nat);
        lemma_fed_keeps_other_inputs(component, id, edges, (k - 1) as nat, i);
        let edge = edges[k - 1];
        if edge.value is Some && edge.to == id {
            lemma_set_attribute_goes_by_the_inputs(
                earlier->Ok_0,
                edge.to_attribute,
                edge.value->0,
            );
        }
    }
}

/// An eligible node with a required input that has no value, and that no
/// edge brings a value for, makes the run fail in its first pass, without a
/// change to this node, to any node after it, or to any edge. If no eligible
/// node before it fails, the run fails with the error of this node: that of
/// the first edge whose value the node does not take, if there is such an
/// edge, and else the required input reported as missing.
pub proof fn lemma_unconnected_required_input_fails_the_run(graph: GraphView, n: int, i: int)
    requires
        graph.eligible(n),
        0 <= i < graph.nodes[n].component.inputs().len(),
        graph.nodes[n].component.inputs()[i].is_required,
        graph.nodes[n].component.inputs()[i].value is None,
        forall|e: int|
            0 <= e < graph.edges.len() && (#[trigger] graph.edges[e]).to == graph.nodes[n].id
                ==> graph.edges[e].to_attribute != graph.nodes[n].component.inputs()[i].name,
    ensures
        graph.run() == graph.pass(),
        graph.run().failure is Some,
        !graph.fails_before(n) ==> graph.run().failure == (match fed(
            graph.nodes[n].component,
            graph.nodes[n].id,
            graph.edges,
            graph.edges.len(),
        ) {
            Ok(_) => Some(
                ErrorView::MissingRequiredAttribute(graph.nodes[n].component.inputs()[i].name),
            ),
            Err(error) => Some(error),
        }),
        graph.run().graph.edges == graph.edges,
        forall|k: int| n <= k < graph.nodes.len() ==> graph.run().graph.nodes[k] == graph.nodes[k],
{
    let node = graph.nodes[n];
    let bound = fed(node.component, node.id, graph.edges, graph.edges.len());
    if bound is Ok {
        lemma_fed_keeps_other_inputs(node.component, node.id, graph.edges, graph.edges.len(), i);
        lemma_unset_required_input_is_missing(bound->Ok_0, i);
    }
    assert(graph.fails(n));
    if graph.fails_before(n) {
        let m = lemma_first_failure(graph, n);
        lemma_run_stops_at_first_failure(graph, m);
    } else {
        lemma_run_stops_at_first_failure(graph, n);
    }
}

/// Whether the graph is a chain of two: nodes `a` and `b` are all its nodes,
/// neither has run, they have different names, and its one edge, which is
/// empty, leads from `a` to `b`.
pub open spec fn is_chain(graph: GraphView, a: int, b: int) -> bool {
    &&& graph.nodes.len() == 2
    &&& 0 <= a < 2 && 0 <= b < 2 && a != b
    &&& !graph.nodes[a].executed
    &&& !graph.nodes[b].executed
    &&& graph.nodes[a].id != graph.nodes[b].id
    &&& graph.edges.len() == 1
    &&& graph.edges[0].from == graph.nodes[a].id
    &&& graph.edges[0].to == graph.nodes[b].id
    &&& graph.edges[0].value is None
}

/// The node after `value` was bound to its input `attribute` and it ran, or
/// the error of the step that failed.
pub open spec fn given(node: NodeView, attribute: Seq<char>, value: ValueView) -> Result<
    NodeView,
    ErrorView,
> {
    match node.component.set_attribute(attribute, value) {
        Err(error) => Err(error),
        Ok(bound) => match bound.execute() {
            Err(error) => Err(error),
            Ok(ran) => Ok(NodeView { id: node.id, component: ran, executed: true }),
        },
    }
}

/// In a chain from `a` to `b`, where running `a` succeeds and produces
/// `value` on the output that the edge starts at: the first pass runs `a` and
/// only `a`, and puts exactly `value` on the edge; the second pass runs `b`
/// and only `b`, which binds exactly `value` to the input that the edge ends
/// at and then runs; and with the second pass the run is over.
pub proof fn lemma_chain_runs_in_two_passes(graph: GraphView, a: int, b: int, value: ValueView)
    requires
        is_chain(graph, a, b),
        graph.nodes[a].fired(graph.edges) is Ok,
        offers(graph.nodes[a].fired(graph.edges)->Ok_0, graph.edges[0].from_attribute) == Some(
            value,
        ),
    ensures
        graph.candidates() == seq![a],
        graph.pass().failure is None,
        graph.pass().graph.nodes[a] == graph.nodes[a].fired(graph.edges)->Ok_0,
        graph.pass().graph.nodes[b] == graph.nodes[b],
        graph.pass().graph.edges == seq![EdgeView { value: Some(value), ..graph.edges[0] }],
        graph.pass().graph.candidates() == seq![b],
        graph.pass().graph.nodes[b].fired(graph.pass().graph.edges) == given(
            graph.nodes[b],
            graph.edges[0].to_attribute,
            value,
        ),
        graph.run() == graph.pass().graph.pass(),
        graph.run().graph.nodes[a] == graph.nodes[a].fired(graph.edges)->Ok_0,
        match given(graph.nodes[b], graph.edges[0].to_attribute, value) {
            Ok(ran) => graph.run().failure is None && graph.run().graph.nodes[b] == ran,
            Err(error) => graph.run().failure == Some(error) && graph.run().graph.nodes[b]
                == graph.nodes[b],
        },
{
    let ran_a = graph.nodes[a].fired(graph.edges)->Ok_0;
    let first = graph.pass().graph;
    // The first pass: `a` is eligible and `b` is not.
    assert(graph.eligible(a));
    assert(!graph.eligible(b)) by {
        assert(graph.edges[0].to == graph.nodes[b].id);
    }
    lemma_only_candidate(graph, a);
    if graph.fails_before(2) {
        let m = lemma_first_failure(graph, 2);
    }
    assert(graph.runs_next(a) && !graph.runs_next(b));
    reveal_with_fuel(GraphView::produced, 3);
    assert(graph.produced(2) =~= ran_a.emissions());
    assert(first.edges =~= seq![EdgeView { value: Some(value), ..graph.edges[0] }]);
    // The second pass: `b` is eligible and `a` is not.
    assert(first.eligible(b));
    assert(!first.eligible(a));
    lemma_only_candidate(first, b);
    reveal_with_fuel(fed, 2);
    lemma_pass_node_by_node(first);
    if first.fails_before(b) {
        let m = lemma_first_failure(first, b);
    }
    lemma_pass_makes_progress(graph);
    assert(graph.run() == first.run());
    if first.fails(b) {
        lemma_run_stops_at_first_failure(first, b);
    } else {
        if first.fails_before(2) {
            let m = lemma_first_failure(first, 2);
        }
        lemma_unfailing_pass(first);
        let last = first.pass().graph;
        assert forall|n: int| 0 <= n < last.nodes.len() implies last.nodes[n].executed by {
            assert(n == a || n == b);
        }
        lemma_run_of_finished_graph(last);
        assert(first.run() == last.run());
    }
}

/// Where one node is eligible and no other, it is the one candidate.
proof fn lemma_only_candidate(graph: GraphView, n: int)
    requires
        graph.eligible(n),
        forall|m: int| graph.eligible(m) ==> m == n,
    ensures
        graph.candidates() == seq![n],
{
    let chosen = graph.candidates();
    lemma_candidates_among(graph, graph.nodes.len());
    assert(chosen.contains(n));
    if chosen.len() >= 2 {
        assert(graph.eligible(chosen[0]) && graph.eligible(chosen[1]));
        assert(chosen[0] < chosen[1]);
    }
    assert(chosen =~= seq![n]);
}

} // verus!
