//! The graph as a mathematical value, and what running it means: sequences
//! of nodes and edges, the rule that makes a node eligible, what one pass
//! makes of each node and of each edge, and the repetition of passes until no
//! node is eligible. The proofs at the end show that this repetition comes to
//! an end.

use vstd::prelude::*;

use super::{AttributeView, ComponentView, ErrorView, ValueView};

verus! {

/// A directed wire from the output `from_attribute` of the node called `from`
/// to the input `to_attribute` of the node called `to`, with the value it
/// carries, if any.
pub struct EdgeView {
    pub from: Seq<char>,
    pub from_attribute: Seq<char>,
    pub to: Seq<char>,
    pub to_attribute: Seq<char>,
    pub value: Option<ValueView>,
}

/// A component under a name, and whether it has run.
pub struct NodeView {
    pub id: Seq<char>,
    pub component: ComponentView,
    pub executed: bool,
}

/// A value that the node called `node` produced on its output `attribute`.
pub struct EmissionView {
    pub node: Seq<char>,
    pub attribute: Seq<char>,
    pub value: ValueView,
}

/// Nodes, edges, and two indices over the edges: for each name that an edge
/// starts at, the positions of the edges that start there, and for each name
/// that an edge ends at, the positions of the edges that end there.
pub struct GraphView {
    pub nodes: Seq<NodeView>,
    pub edges: Seq<EdgeView>,
    pub edges_from: Seq<(Seq<char>, Seq<usize>)>,
    pub edges_to: Seq<(Seq<char>, Seq<usize>)>,
}

/// A graph after some work on it, and the error that ended the work, if one did.
pub struct Outcome {
    pub graph: GraphView,
    pub failure: Option<ErrorView>,
}

impl EdgeView {
    /// Whether the edge starts at the output `attribute` of a node called `id`.
    pub open spec fn leaves(self, id: Seq<char>, attribute: Seq<char>) -> bool {
        self.from == id && self.from_attribute == attribute
    }

    /// The edge after `value` was offered to it: an empty edge takes the
    /// value, an edge that carries one keeps it.
    pub open spec fn offered(self, value: ValueView) -> EdgeView {
        if self.value is None {
            EdgeView {
                from: self.from,
                from_attribute: self.from_attribute,
                to: self.to,
                to_attribute: self.to_attribute,
                value: Some(value),
            }
        } else {
            self
        }
    }
}

/// The edges after `value` was offered to each that starts at the output
/// `attribute` of a node called `id`.
pub open spec fn fulfilled(
    edges: Seq<EdgeView>,
    id: Seq<char>,
    attribute: Seq<char>,
    value: ValueView,
) -> Seq<EdgeView> {
    Seq::new(
        edges.len(),
        |e: int|
            if edges[e].leaves(id, attribute) {
                edges[e].offered(value)
            } else {
                edges[e]
            },
    )
}

/// The component after the values on those of the first `k` edges that end at
/// `id` were bound to it, in the order of the edges, so that a later edge
/// wins over an earlier one on the same input. The first binding that fails
/// ends it with that error. An edge without a value binds nothing.
pub open spec fn fed(
    component: ComponentView,
    id: Seq<char>,
    edges: Seq<EdgeView>,
    k: nat,
) -> Result<ComponentView, ErrorView>
    decreases k,
{
    if k == 0 {
        Ok(component)
    } else {
        match fed(component, id, edges, (k - 1) as nat) {
            Err(error) => Err(error),
            Ok(bound) => {
                let edge = edges[k - 1];
                match edge.value {
                    Some(value) if edge.to == id => bound.set_attribute(edge.to_attribute, value),
                    _ => Ok(bound),
                }
            },
        }
    }
}

/// What the first `k` of `outputs` give to the edges: one emission for each
/// output that carries a value, in the order of the outputs.
pub open spec fn emitted(id: Seq<char>, outputs: Seq<AttributeView>, k: nat) -> Seq<EmissionView>
    decreases k,
{
    if k == 0 {
        Seq::empty()
    } else {
        let earlier = emitted(id, outputs, (k - 1) as nat);
        match outputs[k - 1].value {
            Some(value) => earlier.push(
                EmissionView { node: id, attribute: outputs[k - 1].name, value },
            ),
            None => earlier,
        }
    }
}

/// The value that the first `k` of `emissions` hold for an edge that starts
/// at the output `attribute` of a node called `id`: that of the first among
/// them that is made for such an edge.
pub open spec fn first_offer(
    emissions: Seq<EmissionView>,
    id: Seq<char>,
    attribute: Seq<char>,
    k: nat,
) -> Option<ValueView>
    decreases k,
{
    if k == 0 {
        None
    } else {
        match first_offer(emissions, id, attribute, (k - 1) as nat) {
            Some(value) => Some(value),
            None => {
                let emission = emissions[k - 1];
                if emission.node == id && emission.attribute == attribute {
                    Some(emission.value)
                } else {
                    None
                }
            },
        }
    }
}

impl NodeView {
    /// The node after it took the values of its incoming edges and ran, or the
    /// error that the first failing step gave.
    pub open spec fn fired(self, edges: Seq<EdgeView>) -> Result<NodeView, ErrorView> {
        match fed(self.component, self.id, edges, edges.len()) {
            Err(error) => Err(error),
            Ok(bound) => match bound.execute() {
                Err(error) => Err(error),
                Ok(ran) => Ok(NodeView { id: self.id, component: ran, executed: true }),
            },
        }
    }

    /// The values on the outputs of this node, each under the node's name.
    pub open spec fn emissions(self) -> Seq<EmissionView> {
        let outputs = self.component.outputs();
        emitted(self.id, outputs, outputs.len())
    }
}

/// How many of the first `k` nodes have not run.
pub open spec fn pending_among(nodes: Seq<NodeView>, k: nat) -> nat
    decreases k,
{
    if k == 0 {
        0
    } else if nodes[k - 1].executed {
        pending_among(nodes, (k - 1) as nat)
    } else {
        pending_among(nodes, (k - 1) as nat) + 1
    }
}

/// The positions held in `list`, as integers.
pub open spec fn positions(list: Seq<usize>) -> Seq<int> {
    Seq::new(list.len(), |i: int| list[i] as int)
}

/// The names that the edges start at, edge by edge.
pub open spec fn starts(edges: Seq<EdgeView>) -> Seq<Seq<char>> {
    Seq::new(edges.len(), |e: int| edges[e].from)
}

/// The names that the edges end at, edge by edge.
pub open spec fn ends(edges: Seq<EdgeView>) -> Seq<Seq<char>> {
    Seq::new(edges.len(), |e: int| edges[e].to)
}

/// The positions, ascending, of those of the first `k` of `names` that are
/// `name`.
pub open spec fn occurrences(names: Seq<Seq<char>>, name: Seq<char>, k: nat) -> Seq<int>
    decreases k,
{
    if k == 0 {
        Seq::empty()
    } else if names[k - 1] == name {
        occurrences(names, name, (k - 1) as nat).push(k - 1)
    } else {
        occurrences(names, name, (k - 1) as nat)
    }
}

/// The first `k` of `names`, each once, in the order in which they first
/// appear.
pub open spec fn firsts(names: Seq<Seq<char>>, k: nat) -> Seq<Seq<char>>
    decreases k,
{
    if k == 0 {
        Seq::empty()
    } else {
        let earlier = firsts(names, (k - 1) as nat);
        if earlier.contains(names[k - 1]) {
            earlier
        } else {
            earlier.push(names[k - 1])
        }
    }
}

/// Whether `index` is the index of `names`: it has one entry for each name,
/// in the order in which the names first appear, and the entry of a name
/// lists the positions at which the name stands, ascending, all of them.
pub open spec fn indexes(index: Seq<(Seq<char>, Seq<usize>)>, names: Seq<Seq<char>>) -> bool {
    &&& index.len() == firsts(names, names.len()).len()
    &&& forall|i: int|
        0 <= i < index.len() ==> (#[trigger] index[i]).0 == firsts(names, names.len())[i]
            && positions(index[i].1) == occurrences(names, index[i].0, names.len())
}

/// The positions, ascending, of the edges that start at a node called `id`,
/// whether or not there is such a node.
pub open spec fn leaving(edges: Seq<EdgeView>, id: Seq<char>) -> Seq<int> {
    occurrences(starts(edges), id, edges.len())
}

/// The positions, ascending, of the edges that end at a node called `id`,
/// whether or not there is such a node.
pub open spec fn entering(edges: Seq<EdgeView>, id: Seq<char>) -> Seq<int> {
    occurrences(ends(edges), id, edges.len())
}

impl GraphView {
    /// Whether the two indices are what the wiring says. `edges_from` has one
    /// entry for each name that an edge starts at, whether or not a node has
    /// that name, in the order in which the names first appear among the
    /// edges; the entry lists the positions of the edges that start at the
    /// name, in the order of the edges. `edges_to` is the same for the names
    /// that edges end at. So every edge stands in each index exactly once,
    /// under the name of its start and under the name of its end.
    pub open spec fn indexed(self) -> bool {
        &&& indexes(self.edges_from, starts(self.edges))
        &&& indexes(self.edges_to, ends(self.edges))
    }

    /// Whether a node is called `id`.
    pub open spec fn names(self, id: Seq<char>) -> bool {
        exists|n: int| 0 <= n < self.nodes.len() && (#[trigger] self.nodes[n]).id == id
    }

    /// Whether edge `e` dangles: one of its ends names no node.
    pub open spec fn dangling(self, e: int) -> bool {
        !self.names(self.edges[e].from) || !self.names(self.edges[e].to)
    }

    /// Whether every edge that ends at a node called `id` carries a value.
    pub open spec fn supplied(self, id: Seq<char>) -> bool {
        forall|e: int|
            0 <= e < self.edges.len() && (#[trigger] self.edges[e]).to == id
                ==> self.edges[e].value is Some
    }

    /// The eligibility rule: node `n` has not run, and every edge that ends at
    /// it carries a value. A node that no edge ends at is eligible until it ran.
    pub open spec fn eligible(self, n: int) -> bool {
        &&& 0 <= n < self.nodes.len()
        &&& !self.nodes[n].executed
        &&& self.supplied(self.nodes[n].id)
    }

    /// Whether no node is eligible.
    pub open spec fn idle(self) -> bool {
        forall|n: int| !self.eligible(n)
    }

    /// The positions of the eligible nodes among the first `k`, ascending.
    pub open spec fn candidates_among(self, k: nat) -> Seq<int>
        decreases k,
    {
        if k == 0 {
            Seq::empty()
        } else {
            let earlier = self.candidates_among((k - 1) as nat);
            if self.eligible(k - 1) {
                earlier.push(k - 1)
            } else {
                earlier
            }
        }
    }

    /// The positions of all eligible nodes, in the order in which the nodes
    /// were declared.
    pub open spec fn candidates(self) -> Seq<int> {
        self.candidates_among(self.nodes.len())
    }

    /// The names of all eligible nodes, in the order in which the nodes were
    /// declared.
    pub open spec fn candidate_ids(self) -> Seq<Seq<char>> {
        Seq::new(self.candidates().len(), |i: int| self.nodes[self.candidates()[i]].id)
    }

    /// Whether node `n` is eligible and fails when it is run.
    pub open spec fn fails(self, n: int) -> bool {
        self.eligible(n) && self.nodes[n].fired(self.edges) is Err
    }

    /// Whether an eligible node before position `n` fails when it is run.
    pub open spec fn fails_before(self, n: int) -> bool {
        exists|m: int| 0 <= m < n && #[trigger] self.fails(m)
    }

    /// The eligible node that fails with no eligible node before it failing,
    /// if an eligible node fails at all.
    pub open spec fn first_failure(self) -> Option<int> {
        if self.fails_before(self.nodes.len() as int) {
            Some(choose|m: int| #[trigger] self.fails(m) && !self.fails_before(m))
        } else {
            None
        }
    }

    /// Whether node `n` runs in the next pass: it is eligible, and neither it
    /// nor an eligible node before it fails.
    pub open spec fn runs_next(self, n: int) -> bool {
        self.eligible(n) && !self.fails_before(n + 1)
    }

    /// Node `n` after the next pass: as its run makes it, if it runs in that
    /// pass, and as it is, if not.
    pub open spec fn node_after_pass(self, n: int) -> NodeView {
        if self.runs_next(n) {
            self.nodes[n].fired(self.edges)->Ok_0
        } else {
            self.nodes[n]
        }
    }

    /// What those of the first `k` nodes that run in the next pass produce,
    /// in the order of the nodes, and for each node in the order of its
    /// outputs.
    pub open spec fn produced(self, k: nat) -> Seq<EmissionView>
        decreases k,
    {
        if k == 0 {
            Seq::empty()
        } else if self.runs_next(k - 1) {
            self.produced((k - 1) as nat) + self.node_after_pass(k - 1).emissions()
        } else {
            self.produced((k - 1) as nat)
        }
    }

    /// Edge `e` after a pass that does not fail: it is offered the first
    /// value that the pass produces for it, if the pass produces one.
    pub open spec fn edge_after_pass(self, e: int) -> EdgeView {
        let all = self.produced(self.nodes.len());
        match first_offer(all, self.edges[e].from, self.edges[e].from_attribute, all.len()) {
            Some(value) => self.edges[e].offered(value),
            None => self.edges[e],
        }
    }

    /// One pass. The eligible nodes run, each on the values of the edges
    /// that end at it, and then what they produced is offered to the edges.
    /// If an eligible node fails, the pass fails with the error of the first
    /// such node: only the eligible nodes before that node have run, and the
    /// edges are as they were.
    pub open spec fn pass(self) -> Outcome {
        let failure = match self.first_failure() {
            Some(m) => Some(self.nodes[m].fired(self.edges)->Err_0),
            None => None,
        };
        Outcome {
            graph: GraphView {
                nodes: Seq::new(self.nodes.len(), |n: int| self.node_after_pass(n)),
                edges: if failure is Some {
                    self.edges
                } else {
                    Seq::new(self.edges.len(), |e: int| self.edge_after_pass(e))
                },
                edges_from: self.edges_from,
                edges_to: self.edges_to,
            },
            failure,
        }
    }

    /// How many nodes have not run.
    pub open spec fn pending(self) -> nat {
        pending_among(self.nodes, self.nodes.len())
    }

    /// Passes, one after the other, until no node is eligible or a pass
    /// fails. Each pass that does not fail runs at least one node that had
    /// not run, so there are at most as many passes as nodes.
    pub open spec fn run(self) -> Outcome
        decreases self.pending(),
        via Self::run_makes_progress
    {
        if self.idle() {
            Outcome { graph: self, failure: None }
        } else {
            let once = self.pass();
            if once.failure is Some {
                once
            } else {
                once.graph.run()
            }
        }
    }

    #[via_fn]
    proof fn run_makes_progress(self) {
        if !self.idle() && self.pass().failure is None {
            lemma_pass_makes_progress(self);
        }
    }
}

/// If a node before position `n` fails, then also one before any later
/// position.
pub proof fn lemma_fails_before_later(graph: GraphView, n: int, later: int)
    requires
        graph.fails_before(n),
        n <= later,
    ensures
        graph.fails_before(later),
{
    let m = choose|m: int| 0 <= m < n && #[trigger] graph.fails(m);
    assert(graph.fails(m));
}

/// If an eligible node before position `n` fails, there is a first such node.
pub proof fn lemma_first_failure(graph: GraphView, n: int) -> (m: int)
    requires
        graph.fails_before(n),
    ensures
        0 <= m < n,
        graph.fails(m),
        !graph.fails_before(m),
    decreases n,
{
    let some = choose|m: int| 0 <= m < n && #[trigger] graph.fails(m);
    if graph.fails_before(some) {
        lemma_first_failure(graph, some)
    } else {
        some
    }
}

/// The first failure is the one eligible node that fails with none failing
/// before it, and the pass fails with the error of that node.
pub proof fn lemma_the_first_failure(graph: GraphView, m: int)
    requires
        graph.fails(m),
        !graph.fails_before(m),
    ensures
        graph.first_failure() == Some(m),
        graph.pass().failure == Some(graph.nodes[m].fired(graph.edges)->Err_0),
{
    assert(graph.fails_before(graph.nodes.len() as int));
    let chosen = choose|c: int| #[trigger] graph.fails(c) && !graph.fails_before(c);
    if chosen < m {
        assert(graph.fails_before(m));
    } else if m < chosen {
        assert(graph.fails_before(chosen));
    }
}

/// A pass that does not fail runs every eligible node.
pub proof fn lemma_unfailing_pass(graph: GraphView)
    requires
        graph.pass().failure is None,
    ensures
        !graph.fails_before(graph.nodes.len() as int),
        forall|n: int| (#[trigger] graph.runs_next(n)) == graph.eligible(n),
        forall|n: int|
            (#[trigger] graph.eligible(n)) ==> graph.nodes[n].fired(graph.edges) is Ok,
{
    assert forall|n: int| (#[trigger] graph.eligible(n)) implies graph.runs_next(n)
        && graph.nodes[n].fired(graph.edges) is Ok by {
        if graph.fails_before(n + 1) {
            lemma_fails_before_later(graph, n + 1, graph.nodes.len() as int);
        }
        if graph.fails(n) {
            assert(graph.fails_before(graph.nodes.len() as int));
        }
    }
}

/// Where no node went back from having run to not having run, no more nodes
/// are pending than before; and fewer, if one of them has run since.
proof fn lemma_pending_shrinks(before: Seq<NodeView>, after: Seq<NodeView>, k: nat)
    requires
        k <= before.len(),
        before.len() == after.len(),
        forall|n: int| 0 <= n < before.len() && before[n].executed ==> after[n].executed,
    ensures
        pending_among(after, k) <= pending_among(before, k),
        (exists|n: int| 0 <= n < k && !before[n].executed && after[n].executed) ==> pending_among(
            after,
            k,
        ) < pending_among(before, k),
    decreases k,
{
    if k > 0 {
        lemma_pending_shrinks(before, after, (k - 1) as nat);
    }
}

/// A pass that finds an eligible node and does not fail leaves fewer nodes
/// pending than it found.
pub proof fn lemma_pass_makes_progress(graph: GraphView)
    requires
        !graph.idle(),
        graph.pass().failure is None,
    ensures
        graph.pass().graph.pending() < graph.pending(),
{
    let after = graph.pass().graph.nodes;
    let n = choose|n: int| graph.eligible(n);
    lemma_unfailing_pass(graph);
    assert(graph.runs_next(n));
    assert(!graph.nodes[n].executed && after[n].executed);
    assert forall|m: int| 0 <= m < graph.nodes.len() && graph.nodes[m].executed implies
        after[m].executed by {
        assert(!graph.eligible(m));
    }
    lemma_pending_shrinks(graph.nodes, after, graph.nodes.len());
}

/// The candidates among the first `k` nodes are eligible nodes among those,
/// each listed once and in ascending order, and no eligible node is left out.
pub proof fn lemma_candidates_among(graph: GraphView, k: nat)
    requires
        k <= graph.nodes.len(),
    ensures
        graph.candidates_among(k).len() <= k,
        forall|i: int|
            0 <= i < graph.candidates_among(k).len() ==> 0 <= (#[trigger] graph.candidates_among(
                k,
            )[i]) < k && graph.eligible(graph.candidates_among(k)[i]),
        forall|i: int, j: int|
            0 <= i < j < graph.candidates_among(k).len() ==> graph.candidates_among(k)[i]
                < graph.candidates_among(k)[j],
        forall|n: int|
            0 <= n < k && graph.eligible(n) ==> graph.candidates_among(k).contains(n),
    decreases k,
{
    if k > 0 {
        let earlier = graph.candidates_among((k - 1) as nat);
        lemma_candidates_among(graph, (k - 1) as nat);
        let all = graph.candidates_among(k);
        assert forall|n: int| 0 <= n < k && graph.eligible(n) implies all.contains(n) by {
            if n < k - 1 {
                let i = choose|i: int| 0 <= i < earlier.len() && earlier[i] == n;
                assert(all[i] == n);
            } else {
                assert(all[all.len() - 1] == n);
            }
        }
    }
}

/// No node is eligible exactly if there is no candidate.
pub proof fn lemma_idle(graph: GraphView)
    ensures
        graph.idle() <==> graph.candidates().len() == 0,
{
    lemma_candidates_among(graph, graph.nodes.len());
    if graph.candidates().len() != 0 {
        assert(graph.eligible(graph.candidates()[0]));
    }
    if !graph.idle() {
        let n = choose|n: int| graph.eligible(n);
        assert(graph.candidates().contains(n));
    }
}

} // verus!
