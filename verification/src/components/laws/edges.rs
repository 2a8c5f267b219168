//! What one pass does to the edges.

use vstd::prelude::*;

use super::super::model::{
    emitted, first_offer, lemma_unfailing_pass, EmissionView, GraphView, NodeView,
};
use super::super::{AttributeView, ValueView};
use super::passes::lemma_runs_next;

verus! {

/// The value that the outputs of `node` hold for an edge that starts at its
/// output `attribute`, if they hold one.
pub open spec fn offers(node: NodeView, attribute: Seq<char>) -> Option<ValueView> {
    first_offer(node.emissions(), node.id, attribute, node.emissions().len())
}

/// Whether no two nodes have the same name.
pub open spec fn distinct_names(graph: GraphView) -> bool {
    forall|i: int, j: int|
        0 <= i < j < graph.nodes.len() ==> (#[trigger] graph.nodes[i]).id != (
        #[trigger] graph.nodes[j]).id
}

/// What a pass that does not fail does to an edge that starts at node `n`,
/// where no two nodes have the same name. If the node ran in this pass, the
/// edge is offered exactly what the node then holds on the output that the
/// edge starts at, if it holds anything there. If the node did not run in
/// this pass, the edge is as it was.
pub proof fn lemma_pass_edge_by_edge(graph: GraphView, e: int, n: int)
    requires
        distinct_names(graph),
        0 <= e < graph.edges.len(),
        0 <= n < graph.nodes.len(),
        graph.edges[e].from == graph.nodes[n].id,
        graph.pass().failure is None,
    ensures
        graph.pass().graph.edges.len() == graph.edges.len(),
        graph.pass().graph.edges[e] == (if graph.eligible(n) {
            match offers(graph.pass().graph.nodes[n], graph.edges[e].from_attribute) {
                Some(value) => graph.edges[e].offered(value),
                None => graph.edges[e],
            }
        } else {
            graph.edges[e]
        }),
{
    lemma_produced_offers(graph, graph.nodes.len(), n, graph.edges[e].from_attribute);
    lemma_unfailing_pass(graph);
}

/// A pass leaves alone every edge that starts at no node.
pub proof fn lemma_pass_leaves_edges_from_nowhere(graph: GraphView, e: int)
    requires
        0 <= e < graph.edges.len(),
        !graph.names(graph.edges[e].from),
    ensures
        graph.pass().graph.edges.len() == graph.edges.len(),
        graph.pass().graph.edges[e] == graph.edges[e],
{
    let all = graph.produced(graph.nodes.len());
    lemma_produced_under_names(graph, graph.nodes.len());
    lemma_no_offer_without_name(
        all,
        graph.edges[e].from,
        graph.edges[e].from_attribute,
        all.len(),
    );
}

/// A pass leaves alone every edge that carries a value.
pub proof fn lemma_pass_keeps_values(graph: GraphView, e: int)
    requires
        0 <= e < graph.edges.len(),
        graph.edges[e].value is Some,
    ensures
        graph.pass().graph.edges.len() == graph.edges.len(),
        graph.pass().graph.edges[e] == graph.edges[e],
{
}

/// Among emissions put one behind the other, the first offer is the first
/// offer of the front part, or, where that has none, of the back part.
proof fn lemma_first_offer_of_two(
    front: Seq<EmissionView>,
    back: Seq<EmissionView>,
    id: Seq<char>,
    attribute: Seq<char>,
    k: nat,
)
    requires
        k <= back.len(),
    ensures
        first_offer(front + back, id, attribute, front.len() + k) == (match first_offer(
            front,
            id,
            attribute,
            front.len(),
        ) {
            Some(value) => Some(value),
            None => first_offer(back, id, attribute, k),
        }),
    decreases k,
{
    if k == 0 {
        lemma_first_offer_of_prefix(front, back, id, attribute, front.len());
    } else {
        lemma_first_offer_of_two(front, back, id, attribute, (k - 1) as nat);
        assert((front + back)[front.len() + k - 1] == back[k - 1]);
    }
}

/// The first offer among the first `k` emissions does not depend on what
/// comes behind them.
proof fn lemma_first_offer_of_prefix(
    front: Seq<EmissionView>,
    back: Seq<EmissionView>,
    id: Seq<char>,
    attribute: Seq<char>,
    k: nat,
)
    requires
        k <= front.len(),
    ensures
        first_offer(front + back, id, attribute, k) == first_offer(front, id, attribute, k),
    decreases k,
{
    if k > 0 {
        lemma_first_offer_of_prefix(front, back, id, attribute, (k - 1) as nat);
        assert((front + back)[k - 1] == front[k - 1]);
    }
}

/// What a node emits, it emits under its own name.
proof fn lemma_emitted_under_own_name(id: Seq<char>, outputs: Seq<AttributeView>, k: nat)
    requires
        k <= outputs.len(),
    ensures
        forall|i: int|
            0 <= i < emitted(id, outputs, k).len() ==> (#[trigger] emitted(id, outputs, k)[i]).node
                == id,
    decreases k,
{
    if k > 0 {
        lemma_emitted_under_own_name(id, outputs, (k - 1) as nat);
    }
}

/// Emissions that carry other names hold no offer for an edge that starts at
/// `id`.
proof fn lemma_no_offer_without_name(
    emissions: Seq<EmissionView>,
    id: Seq<char>,
    attribute: Seq<char>,
    k: nat,
)
    requires
        k <= emissions.len(),
        forall|i: int| 0 <= i < emissions.len() ==> (#[trigger] emissions[i]).node != id,
    ensures
        first_offer(emissions, id, attribute, k) is None,
    decreases k,
{
    if k > 0 {
        lemma_no_offer_without_name(emissions, id, attribute, (k - 1) as nat);
    }
}

/// What the first `k` nodes produce for an edge that starts at node `n`,
/// where no two nodes have the same name: what node `n` offers after its
/// run, if it is among them and runs in the pass, and nothing otherwise.
proof fn lemma_produced_offers(graph: GraphView, k: nat, n: int, attribute: Seq<char>)
    requires
        distinct_names(graph),
        k <= graph.nodes.len(),
        0 <= n < graph.nodes.len(),
    ensures
        first_offer(graph.produced(k), graph.nodes[n].id, attribute, graph.produced(k).len()) == (
        if graph.runs_next(n) && n < k {
            offers(graph.node_after_pass(n), attribute)
        } else {
            None
        }),
    decreases k,
{
    let id = graph.nodes[n].id;
    if k > 0 {
        let here = k - 1;
        lemma_produced_offers(graph, (k - 1) as nat, n, attribute);
        if graph.runs_next(here) {
            lemma_runs_next(graph, here);
            let ran = graph.node_after_pass(here);
            lemma_first_offer_of_two(
                graph.produced((k - 1) as nat),
                ran.emissions(),
                id,
                attribute,
                ran.emissions().len(),
            );
            if here != n {
                assert(ran.id != id) by {
                    if here < n {
                        assert(graph.nodes[here].id != graph.nodes[n].id);
                    } else {
                        assert(graph.nodes[n].id != graph.nodes[here].id);
                    }
                }
                let outputs = ran.component.outputs();
                lemma_emitted_under_own_name(ran.id, outputs, outputs.len());
                lemma_no_offer_without_name(ran.emissions(), id, attribute, ran.emissions().len());
            }
        }
    }
}

/// Everything that the first `k` nodes produce carries the name of a node.
proof fn lemma_produced_under_names(graph: GraphView, k: nat)
    requires
        k <= graph.nodes.len(),
    ensures
        forall|i: int|
            0 <= i < graph.produced(k).len() ==> graph.names(
                (#[trigger] graph.produced(k)[i]).node,
            ),
    decreases k,
{
    if k > 0 {
        let here = k - 1;
        let earlier = graph.produced((k - 1) as nat);
        lemma_produced_under_names(graph, (k - 1) as nat);
        if graph.runs_next(here) {
            lemma_runs_next(graph, here);
            let ran = graph.node_after_pass(here);
            let outputs = ran.component.outputs();
            lemma_emitted_under_own_name(ran.id, outputs, outputs.len());
            assert(graph.nodes[here].id == ran.id);
            assert(graph.names(ran.id));
            assert forall|i: int| 0 <= i < graph.produced(k).len() implies graph.names(
                (#[trigger] graph.produced(k)[i]).node,
            ) by {
                if i >= earlier.len() {
                    assert(graph.produced(k)[i] == ran.emissions()[i - earlier.len()]);
                }
            }
        }
    }
}

} // verus!
