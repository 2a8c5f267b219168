//! What one pass does to the nodes.

use vstd::prelude::*;

use super::super::model::{
    fed, lemma_first_failure, lemma_the_first_failure, EdgeView, EmissionView, GraphView,
    NodeView, Outcome,
};
use super::super::ErrorView;

verus! {

/// A node that runs in the next pass can run: it is no node that fails.
pub proof fn lemma_runs_next(graph: GraphView, n: int)
    requires
        graph.runs_next(n),
    ensures
        0 <= n < graph.nodes.len(),
        !graph.nodes[n].executed,
        graph.nodes[n].fired(graph.edges) is Ok,
{
    assert(!graph.fails(n));
}

/// What one pass does to the nodes. A node runs in the pass when it is
/// eligible and no eligible node before it, nor the node itself, fails; every
/// other node is left as it was. The pass fails when an eligible node fails,
/// and then with the error of the first such node.
pub proof fn lemma_pass_node_by_node(graph: GraphView)
    ensures
        graph.pass().graph.nodes.len() == graph.nodes.len(),
        forall|n: int|
            (#[trigger] graph.runs_next(n)) ==> graph.nodes[n].fired(graph.edges) is Ok,
        forall|n: int|
            0 <= n < graph.nodes.len() ==> (#[trigger] graph.pass().graph.nodes[n]) == (
            if graph.runs_next(n) {
                graph.nodes[n].fired(graph.edges)->Ok_0
            } else {
                graph.nodes[n]
            }),
        graph.pass().failure is Some <==> graph.fails_before(graph.nodes.len() as int),
        forall|m: int|
            (#[trigger] graph.fails(m)) && !graph.fails_before(m) ==> graph.pass().failure == Some(
                graph.nodes[m].fired(graph.edges)->Err_0,
            ),
{
    assert forall|n: int| (#[trigger] graph.runs_next(n)) implies graph.nodes[n].fired(
        graph.edges,
    ) is Ok by {
        lemma_runs_next(graph, n);
    }
    assert forall|m: int| (#[trigger] graph.fails(m)) && !graph.fails_before(m) implies
        graph.pass().failure == Some(graph.nodes[m].fired(graph.edges)->Err_0) by {
        lemma_the_first_failure(graph, m);
    }
}

/// A pass that fails changes no node from the failing node on, and no edge.
pub proof fn lemma_failing_pass(graph: GraphView, m: int)
    requires
        graph.fails(m),
        !graph.fails_before(m),
    ensures
        graph.pass().failure == Some(graph.nodes[m].fired(graph.edges)->Err_0),
        graph.pass().graph.edges == graph.edges,
        forall|n: int| m <= n < graph.nodes.len() ==> graph.pass().graph.nodes[n] == graph.nodes[n],
{
    lemma_the_first_failure(graph, m);
    assert forall|n: int| m <= n < graph.nodes.len() implies graph.pass().graph.nodes[n]
        == graph.nodes[n] by {
        assert(graph.fails_before(n + 1));
    }
}

/// Where no node runs among the first `k`, nothing is produced by them.
proof fn lemma_nothing_produced(graph: GraphView, k: nat)
    requires
        forall|n: int| 0 <= n < k ==> !graph.runs_next(n),
    ensures
        graph.produced(k) == Seq::<EmissionView>::empty(),
    decreases k,
{
    if k > 0 {
        lemma_nothing_produced(graph, (k - 1) as nat);
    }
}

/// A pass that finds no eligible node changes nothing.
pub proof fn lemma_idle_pass(graph: GraphView)
    requires
        graph.idle(),
    ensures
        graph.pass() == (Outcome { graph, failure: None }),
{
    if graph.fails_before(graph.nodes.len() as int) {
        let m = lemma_first_failure(graph, graph.nodes.len() as int);
    }
    lemma_nothing_produced(graph, graph.nodes.len());
    assert(graph.pass().graph.nodes =~= graph.nodes);
    assert(graph.pass().graph.edges =~= graph.edges);
}

/// A node that none of the first `k` edges ends at takes nothing from them.
pub proof fn lemma_fed_without_edges(node: NodeView, edges: Seq<EdgeView>, k: nat)
    requires
        k <= edges.len(),
        forall|e: int| 0 <= e < edges.len() ==> edges[e].to != node.id,
    ensures
        fed(node.component, node.id, edges, k) == Ok::<_, ErrorView>(node.component),
    decreases k,
{
    if k > 0 {
        lemma_fed_without_edges(node, edges, (k - 1) as nat);
    }
}

} // verus!
