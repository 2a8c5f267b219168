//! A pass as it is carried out: the candidates are visited one after the
//! other, and then what they produced is offered to the edges, one emission
//! after the other. The proofs show that this gives what the model says a
//! pass makes of each node and of each edge.

use vstd::prelude::*;

use super::model::{
    fed, first_offer, fulfilled, lemma_candidates_among, lemma_fails_before_later,
    lemma_first_failure, lemma_the_first_failure, EdgeView, EmissionView, GraphView, NodeView,
};
use super::{ComponentView, ErrorView};

verus! {

/// Where the walk over the candidates stands: the nodes as they are now, what
/// the nodes that ran have produced, and the error that stopped the walk, if
/// one did.
pub struct WalkView {
    pub nodes: Seq<NodeView>,
    pub emissions: Seq<EmissionView>,
    pub failure: Option<ErrorView>,
}

impl GraphView {
    /// The walk over the first `k` of `chosen`: each node in turn takes the
    /// values of its incoming edges, runs, and hands over what its outputs
    /// hold. The first node that fails stops the walk and is left as it was.
    pub open spec fn walked(self, chosen: Seq<int>, k: nat) -> WalkView
        decreases k,
    {
        if k == 0 {
            WalkView { nodes: self.nodes, emissions: Seq::empty(), failure: None }
        } else {
            let before = self.walked(chosen, (k - 1) as nat);
            let n = chosen[k - 1];
            if before.failure is Some {
                before
            } else {
                match before.nodes[n].fired(self.edges) {
                    Ok(node) => WalkView {
                        nodes: before.nodes.update(n, node),
                        emissions: before.emissions + node.emissions(),
                        failure: None,
                    },
                    Err(error) => WalkView {
                        nodes: before.nodes,
                        emissions: before.emissions,
                        failure: Some(error),
                    },
                }
            }
        }
    }

    /// The position up to which the walk over the candidates has come after
    /// `k` of them: that of the next candidate, or the number of nodes when
    /// none is left.
    pub open spec fn reached(self, k: nat) -> int {
        if k < self.candidates().len() {
            self.candidates()[k as int]
        } else {
            self.nodes.len() as int
        }
    }
}

/// The edges after the first `k` of `emissions` were offered to them, one
/// after the other.
pub open spec fn published(edges: Seq<EdgeView>, emissions: Seq<EmissionView>, k: nat) -> Seq<
    EdgeView,
>
    decreases k,
{
    if k == 0 {
        edges
    } else {
        let emission = emissions[k - 1];
        fulfilled(
            published(edges, emissions, (k - 1) as nat),
            emission.node,
            emission.attribute,
            emission.value,
        )
    }
}

/// Once a binding has failed, the later edges change nothing.
pub proof fn lemma_fed_stays_failed(
    component: ComponentView,
    id: Seq<char>,
    edges: Seq<EdgeView>,
    k: nat,
    m: nat,
)
    requires
        k <= m,
        fed(component, id, edges, k) is Err,
    ensures
        fed(component, id, edges, m) == fed(component, id, edges, k),
    decreases m,
{
    if k < m {
        lemma_fed_stays_failed(component, id, edges, k, (m - 1) as nat);
    }
}

/// Once a walk has failed, it stays where it failed.
pub proof fn lemma_walked_stays_failed(graph: GraphView, chosen: Seq<int>, k: nat, m: nat)
    requires
        k <= m,
        graph.walked(chosen, k).failure is Some,
    ensures
        graph.walked(chosen, m) == graph.walked(chosen, k),
    decreases m,
{
    if k < m {
        lemma_walked_stays_failed(graph, chosen, k, (m - 1) as nat);
    }
}

/// There is no eligible node before the first candidate, and none between
/// one candidate and the next.
proof fn lemma_reached(graph: GraphView, k: nat)
    requires
        k <= graph.candidates().len(),
    ensures
        0 <= graph.reached(k) <= graph.nodes.len(),
        k == 0 ==> forall|n: int| 0 <= n < graph.reached(0) ==> !graph.eligible(n),
        k > 0 ==> graph.reached((k - 1) as nat) < graph.reached(k),
        k > 0 ==> forall|n: int|
            graph.reached((k - 1) as nat) < n < graph.reached(k) ==> !graph.eligible(n),
{
    let chosen = graph.candidates();
    lemma_candidates_among(graph, graph.nodes.len());
    if k == 0 {
        assert forall|n: int| 0 <= n < graph.reached(0) implies !graph.eligible(n) by {
            if graph.eligible(n) {
                let j = choose|j: int| 0 <= j < chosen.len() && chosen[j] == n;
                assert(chosen[0] <= chosen[j]);
            }
        }
    } else {
        assert forall|n: int|
            graph.reached((k - 1) as nat) < n < graph.reached(k) implies !graph.eligible(n) by {
            if graph.eligible(n) {
                let j = choose|j: int| 0 <= j < chosen.len() && chosen[j] == n;
                if j < k - 1 {
                    assert(chosen[j] < chosen[k - 1]);
                } else if j > k {
                    assert(chosen[k as int] < chosen[j]);
                }
            }
        }
    }
}

/// What is produced up to a position does not change over a stretch of
/// nodes of which none runs in the pass.
proof fn lemma_produced_over_idle_stretch(graph: GraphView, from: nat, to: nat)
    requires
        from <= to,
        forall|n: int| from <= n < to ==> !graph.runs_next(n),
    ensures
        graph.produced(to) == graph.produced(from),
    decreases to,
{
    if from < to {
        lemma_produced_over_idle_stretch(graph, from, (to - 1) as nat);
    }
}

/// What the walk over the first `k` candidates has done is what the model
/// says of the nodes before the position that the walk has reached.
proof fn lemma_walked(graph: GraphView, k: nat)
    requires
        k <= graph.candidates().len(),
    ensures
        graph.walked(graph.candidates(), k).nodes.len() == graph.nodes.len(),
        forall|n: int|
            0 <= n < graph.nodes.len() ==> (#[trigger] graph.walked(graph.candidates(), k).nodes[n])
                == (if n < graph.reached(k) {
                graph.node_after_pass(n)
            } else {
                graph.nodes[n]
            }),
        graph.walked(graph.candidates(), k).emissions == graph.produced(graph.reached(k) as nat),
        graph.walked(graph.candidates(), k).failure is Some <==> graph.fails_before(
            graph.reached(k),
        ),
        graph.walked(graph.candidates(), k).failure is Some ==> graph.walked(
            graph.candidates(),
            k,
        ).failure == graph.pass().failure,
    decreases k,
{
    let chosen = graph.candidates();
    lemma_candidates_among(graph, graph.nodes.len());
    lemma_reached(graph, k);
    let next = graph.reached(k);
    let after = graph.walked(chosen, k);
    if k == 0 {
        if graph.fails_before(next) {
            let m = lemma_first_failure(graph, next);
        }
        assert forall|n: int| 0 <= n < next implies !graph.runs_next(n) by {
            assert(!graph.eligible(n));
        }
        lemma_produced_over_idle_stretch(graph, 0, next as nat);
    } else {
        lemma_walked(graph, (k - 1) as nat);
        lemma_reached(graph, (k - 1) as nat);
        let before = graph.walked(chosen, (k - 1) as nat);
        let here = chosen[k - 1];
        assert(graph.reached((k - 1) as nat) == here);
        assert(graph.eligible(here));
        assert(before.nodes[here] == graph.nodes[here]);
        // Whether a node fails before `next` is decided at `here`.
        if graph.fails_before(here) {
            lemma_fails_before_later(graph, here, here + 1);
            lemma_fails_before_later(graph, here, next);
        } else if graph.fails(here) {
            assert(graph.fails_before(here + 1));
            lemma_fails_before_later(graph, here + 1, next);
            lemma_the_first_failure(graph, here);
        } else {
            if graph.fails_before(next) {
                let m = lemma_first_failure(graph, next);
                assert(m <= here);
                assert(graph.fails_before(here + 1));
            }
            if graph.fails_before(here + 1) {
                let m = lemma_first_failure(graph, here + 1);
                assert(graph.fails_before(here));
            }
        }
        assert forall|n: int| 0 <= n < graph.nodes.len() implies (#[trigger] after.nodes[n]) == (
        if n < next {
            graph.node_after_pass(n)
        } else {
            graph.nodes[n]
        }) by {
            if here < n < next {
                assert(!graph.eligible(n));
            }
        }
        assert forall|n: int| here < n < next implies !graph.runs_next(n) by {
            assert(!graph.eligible(n));
        }
        lemma_produced_over_idle_stretch(graph, (here + 1) as nat, next as nat);
    }
}

/// What offering one emission after the other does to the edges, edge by
/// edge: an edge that carries a value keeps it; an empty edge takes the
/// first value that is made for it, and stays empty if none is.
proof fn lemma_published(edges: Seq<EdgeView>, emissions: Seq<EmissionView>, k: nat)
    ensures
        published(edges, emissions, k).len() == edges.len(),
        forall|e: int|
            0 <= e < edges.len() ==> (#[trigger] published(edges, emissions, k)[e]) == (
            match first_offer(emissions, edges[e].from, edges[e].from_attribute, k) {
                Some(value) => edges[e].offered(value),
                None => edges[e],
            }),
    decreases k,
{
    if k > 0 {
        lemma_published(edges, emissions, (k - 1) as nat);
    }
}

/// Whether the pass is what the walk over all candidates gives: its nodes
/// and its failure, and, if it did not fail, the edges after what it
/// produced was offered to them.
pub open spec fn walk_gives_the_pass(graph: GraphView) -> bool {
    let walk = graph.walked(graph.candidates(), graph.candidates().len());
    &&& graph.pass().failure == walk.failure
    &&& graph.pass().graph == (GraphView {
        nodes: walk.nodes,
        edges: if walk.failure is Some {
            graph.edges
        } else {
            published(graph.edges, walk.emissions, walk.emissions.len())
        },
        ..graph
    })
}

/// The pass is what the walk over all candidates gives.
pub proof fn lemma_walk_gives_the_pass(graph: GraphView)
    ensures
        walk_gives_the_pass(graph),
{
    let walk = graph.walked(graph.candidates(), graph.candidates().len());
    lemma_walked(graph, graph.candidates().len());
    lemma_published(graph.edges, walk.emissions, walk.emissions.len());
    assert(graph.pass().graph.nodes =~= walk.nodes);
    if graph.pass().failure is None {
        assert(graph.pass().graph.edges =~= published(
            graph.edges,
            walk.emissions,
            walk.emissions.len(),
        ));
    }
}

} // verus!
