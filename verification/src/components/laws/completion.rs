//! Why a run reaches every node of a graph that is wired soundly and has no
//! cycle, as long as no component fails.

use vstd::prelude::*;

use super::super::model::{
    emitted, fed, first_offer, lemma_pass_makes_progress, lemma_unfailing_pass, EdgeView,
    EmissionView, GraphView, NodeView,
};
use super::super::{AttributeView, ComponentView};
use super::bindings::{lemma_execute_goes_by_the_inputs, lemma_set_attribute_goes_by_the_inputs};
use super::edges::{distinct_names, lemma_pass_edge_by_edge, offers};
use super::passes::{lemma_pass_node_by_node, lemma_runs_next};
use super::runs::{lemma_pass_evolves, lemma_run_evolves, lemma_run_settles};

verus! {

/// Whether `attributes` hold one called `name`.
pub open spec fn declares(attributes: Seq<AttributeView>, name: Seq<char>) -> bool {
    exists|o: int| 0 <= o < attributes.len() && (#[trigger] attributes[o]).name == name
}

/// Whether each of `attributes` holds a value.
pub open spec fn filled(attributes: Seq<AttributeView>) -> bool {
    forall|o: int| 0 <= o < attributes.len() ==> (#[trigger] attributes[o]).value is Some
}

/// Whether edge `e` starts at node `n`, at an output that the node declares.
pub open spec fn starts_at(graph: GraphView, e: int, n: int) -> bool {
    &&& 0 <= n < graph.nodes.len()
    &&& graph.edges[e].from == graph.nodes[n].id
    &&& declares(graph.nodes[n].component.outputs(), graph.edges[e].from_attribute)
}

/// Whether edge `e` starts at a node, at an output that the node declares.
pub open spec fn has_source(graph: GraphView, e: int) -> bool {
    exists|n: int| #[trigger] starts_at(graph, e, n)
}

/// Whether every edge starts at a node, at an output that the node declares.
pub open spec fn soundly_wired(graph: GraphView) -> bool {
    forall|e: int| 0 <= e < graph.edges.len() ==> #[trigger] has_source(graph, e)
}

/// Whether what has run has been published: every edge that starts at a node
/// that has run carries a value.
pub open spec fn published_so_far(graph: GraphView) -> bool {
    forall|e: int, n: int|
        0 <= e < graph.edges.len() && 0 <= n < graph.nodes.len() && (#[trigger] graph.edges[e]).from
            == (#[trigger] graph.nodes[n]).id && graph.nodes[n].executed
            ==> graph.edges[e].value is Some
}

/// Whether `rank` rises along every edge: the node at the end of an edge has
/// a higher rank than the node at its start. A graph that has such ranks has
/// no cycle.
pub open spec fn ranked(graph: GraphView, rank: Seq<nat>) -> bool {
    &&& rank.len() == graph.nodes.len()
    &&& forall|e: int, n: int, m: int|
        0 <= e < graph.edges.len() && 0 <= n < graph.nodes.len() && 0 <= m < graph.nodes.len()
            && (#[trigger] graph.edges[e]).from == (#[trigger] graph.nodes[n]).id
            && graph.edges[e].to == (#[trigger] graph.nodes[m]).id ==> rank[n] < rank[m]
}

/// Whether the graph is in order: no two nodes have the same name, the edges
/// are wired soundly, what has run has been published, and `rank` rises along
/// every edge.
pub open spec fn in_order(graph: GraphView, rank: Seq<nat>) -> bool {
    &&& distinct_names(graph)
    &&& soundly_wired(graph)
    &&& published_so_far(graph)
    &&& ranked(graph, rank)
}

/// Taking values from edges leaves the outputs of a component as they are.
proof fn lemma_fed_keeps_outputs(
    component: ComponentView,
    id: Seq<char>,
    edges: Seq<EdgeView>,
    k: nat,
)
    requires
        fed(component, id, edges, k) is Ok,
    ensures
        fed(component, id, edges, k)->Ok_0.outputs() == component.outputs(),
    decreases k,
{
    if k > 0 {
        let earlier = fed(component, id, edges, (k - 1) as nat);
        lemma_fed_keeps_outputs(component, id, edges, (k - 1) as nat);
        let edge = edges[k - 1];
        if edge.value is Some && edge.to == id {
            lemma_set_attribute_goes_by_the_inputs(
                earlier->Ok_0,
                edge.to_attribute,
                edge.value->0,
            );
        }
    }
}

/// A node that ran declares the outputs that it declared before, and each of
/// them holds a value.
proof fn lemma_fired_fills_outputs(node: NodeView, edges: Seq<EdgeView>)
    requires
        node.fired(edges) is Ok,
    ensures
        filled(node.fired(edges)->Ok_0.component.outputs()),
        forall|name: Seq<char>|
            declares(node.component.outputs(), name) ==> #[trigger] declares(
                node.fired(edges)->Ok_0.component.outputs(),
                name,
            ),
{
    let bound = fed(node.component, node.id, edges, edges.len());
    let ran = node.fired(edges)->Ok_0.component;
    lemma_fed_keeps_outputs(node.component, node.id, edges, edges.len());
    lemma_execute_goes_by_the_inputs(bound->Ok_0);
    assert forall|name: Seq<char>| declares(node.component.outputs(), name) implies
        #[trigger] declares(ran.outputs(), name) by {
        let o = choose|o: int|
            0 <= o < node.component.outputs().len() && (#[trigger] node.component.outputs()[o]).name
                == name;
        assert(ran.outputs()[o].name == name);
    }
}

/// Where each of the first `k` outputs holds a value, each of them is
/// emitted, in their order.
proof fn lemma_emitted_of_filled_outputs(id: Seq<char>, outputs: Seq<AttributeView>, k: nat)
    requires
        k <= outputs.len(),
        filled(outputs),
    ensures
        emitted(id, outputs, k).len() == k,
        forall|o: int|
            0 <= o < k ==> (#[trigger] emitted(id, outputs, k)[o]).node == id && emitted(
                id,
                outputs,
                k,
            )[o].attribute == outputs[o].name,
    decreases k,
{
    if k > 0 {
        lemma_emitted_of_filled_outputs(id, outputs, (k - 1) as nat);
        assert(outputs[k - 1].value is Some);
    }
}

/// Where one of the first `k` emissions is made for an edge, there is a
/// first offer for that edge among them.
proof fn lemma_offer_is_found(
    emissions: Seq<EmissionView>,
    id: Seq<char>,
    attribute: Seq<char>,
    k: nat,
    i: int,
)
    requires
        0 <= i < k <= emissions.len(),
        emissions[i].node == id,
        emissions[i].attribute == attribute,
    ensures
        first_offer(emissions, id, attribute, k) is Some,
    decreases k,
{
    if i < k - 1 {
        lemma_offer_is_found(emissions, id, attribute, (k - 1) as nat, i);
    }
}

/// A node whose outputs all hold values offers a value on each output that
/// it declares.
proof fn lemma_filled_outputs_are_offered(node: NodeView, attribute: Seq<char>)
    requires
        declares(node.component.outputs(), attribute),
        filled(node.component.outputs()),
    ensures
        offers(node, attribute) is Some,
{
    let outputs = node.component.outputs();
    let o = choose|o: int| 0 <= o < outputs.len() && (#[trigger] outputs[o]).name == attribute;
    lemma_emitted_of_filled_outputs(node.id, outputs, outputs.len());
    lemma_offer_is_found(node.emissions(), node.id, attribute, node.emissions().len(), o);
}

/// A pass that does not fail keeps order: a graph that was in order before
/// the pass is in order after it.
pub proof fn lemma_pass_keeps_order(graph: GraphView, rank: Seq<nat>)
    requires
        in_order(graph, rank),
        graph.pass().failure is None,
    ensures
        in_order(graph.pass().graph, rank),
{
    let after = graph.pass().graph;
    lemma_pass_evolves(graph);
    lemma_pass_node_by_node(graph);
    lemma_unfailing_pass(graph);
    assert(distinct_names(after)) by {
        assert forall|i: int, j: int| 0 <= i < j < after.nodes.len() implies (
        #[trigger] after.nodes[i]).id != (#[trigger] after.nodes[j]).id by {
            assert(graph.nodes[i].id != graph.nodes[j].id);
        }
    }
    assert(ranked(after, rank)) by {
        assert forall|e: int, n: int, m: int|
            0 <= e < after.edges.len() && 0 <= n < after.nodes.len() && 0 <= m < after.nodes.len()
                && (#[trigger] after.edges[e]).from == (#[trigger] after.nodes[n]).id
                && after.edges[e].to == (#[trigger] after.nodes[m]).id implies
            rank[n] < rank[m] by {
            assert(graph.edges[e].from == graph.nodes[n].id);
            assert(graph.edges[e].to == graph.nodes[m].id);
        }
    }
    assert(soundly_wired(after)) by {
        assert forall|e: int| 0 <= e < after.edges.len() implies #[trigger] has_source(
            after,
            e,
        ) by {
            assert(has_source(graph, e));
            let n = choose|n: int| #[trigger] starts_at(graph, e, n);
            assert(after.nodes[n].id == graph.nodes[n].id);
            assert(after.edges[e].from == graph.edges[e].from);
            if graph.runs_next(n) {
                lemma_runs_next(graph, n);
                lemma_fired_fills_outputs(graph.nodes[n], graph.edges);
            }
            assert(starts_at(after, e, n));
        }
    }
    assert(published_so_far(after)) by {
        assert forall|e: int, n: int|
            0 <= e < after.edges.len() && 0 <= n < after.nodes.len() && (
            #[trigger] after.edges[e]).from == (#[trigger] after.nodes[n]).id
                && after.nodes[n].executed implies after.edges[e].value is Some by {
            assert(graph.edges[e].from == graph.nodes[n].id);
            if graph.nodes[n].executed {
                assert(graph.edges[e].value is Some);
            } else {
                // The node ran in this pass, so it is the one the edge starts at.
                assert(graph.runs_next(n));
                lemma_runs_next(graph, n);
                lemma_fired_fills_outputs(graph.nodes[n], graph.edges);
                lemma_pass_edge_by_edge(graph, e, n);
                assert(has_source(graph, e));
                let s = choose|s: int| #[trigger] starts_at(graph, e, s);
                assert(s == n) by {
                    if s < n {
                        assert(graph.nodes[s].id != graph.nodes[n].id);
                    } else if n < s {
                        assert(graph.nodes[n].id != graph.nodes[s].id);
                    }
                }
                lemma_filled_outputs_are_offered(after.nodes[n], graph.edges[e].from_attribute);
            }
        }
    }
}

/// A run that succeeds keeps order: a graph that was in order before the run
/// is in order after it.
pub proof fn lemma_run_keeps_order(graph: GraphView, rank: Seq<nat>)
    requires
        in_order(graph, rank),
        graph.run().failure is None,
    ensures
        in_order(graph.run().graph, rank),
    decreases graph.pending(),
{
    if !graph.idle() {
        lemma_pass_keeps_order(graph, rank);
        lemma_pass_makes_progress(graph);
        lemma_run_keeps_order(graph.pass().graph, rank);
    }
}

/// In a graph that is in order and in which no node is eligible, every node
/// has run.
proof fn lemma_settled_node_has_run(graph: GraphView, rank: Seq<nat>, n: int)
    requires
        in_order(graph, rank),
        graph.idle(),
        0 <= n < graph.nodes.len(),
    ensures
        graph.nodes[n].executed,
    decreases rank[n],
{
    if !graph.nodes[n].executed {
        assert(!graph.eligible(n));
        // The node is blocked by an empty edge, which starts at a node of lower rank.
        let e = choose|e: int|
            0 <= e < graph.edges.len() && (#[trigger] graph.edges[e]).to == graph.nodes[n].id
                && !(graph.edges[e].value is Some);
        assert(has_source(graph, e));
        let s = choose|s: int| #[trigger] starts_at(graph, e, s);
        assert(graph.edges[e].from == graph.nodes[s].id);
        assert(rank[s] < rank[n]);
        lemma_settled_node_has_run(graph, rank, s);
    }
}

/// A run that succeeds reaches every node, in a graph that is in order: no
/// two nodes have the same name, every edge starts at a declared output of a
/// node, every edge from a node that has run carries a value, and the edges
/// form no cycle.
pub proof fn lemma_run_reaches_every_node(graph: GraphView, rank: Seq<nat>)
    requires
        in_order(graph, rank),
        graph.run().failure is None,
    ensures
        forall|n: int| 0 <= n < graph.nodes.len() ==> graph.run().graph.nodes[n].executed,
{
    let last = graph.run().graph;
    lemma_run_keeps_order(graph, rank);
    lemma_run_settles(graph);
    lemma_run_evolves(graph);
    assert forall|n: int| 0 <= n < graph.nodes.len() implies last.nodes[n].executed by {
        lemma_settled_node_has_run(last, rank, n);
    }
}

} // verus!
