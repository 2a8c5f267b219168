//! Nodes, edges, and the graph that runs them.

use vstd::prelude::*;

use super::laws::indices::{
    lemma_fulfilling_keeps_the_index, lemma_indices_hold_every_edge, lemma_run_keeps_the_index,
    listed,
};
use super::laws::passes::lemma_idle_pass;
use super::laws::runs::{
    evolved, lemma_run_evolves, lemma_run_of_finished_graph, lemma_run_settles,
};
use super::model::{
    emitted, ends, fed, firsts, fulfilled, indexes, lemma_candidates_among, lemma_idle,
    lemma_pass_makes_progress, occurrences, positions, starts, EdgeView, EmissionView, GraphView,
    NodeView, Outcome,
};
use super::walk::{
    lemma_fed_stays_failed, lemma_walk_gives_the_pass, lemma_walked_stays_failed, published,
};
use super::{Component, ComponentView, Error, ErrorView, Value};
use crate::text::str_eq;

verus! {

/// A directed wire from one node's output attribute to another node's input
/// attribute. It starts empty and takes the value that its source produced.
#[derive(Debug)]
pub struct Edge<'a> {
    pub from: &'a str,
    pub from_attribute: &'a str,
    pub to: &'a str,
    pub to_attribute: &'a str,
    pub value: Option<Value>,
}

impl<'a> View for Edge<'a> {
    type V = EdgeView;

    open spec fn view(&self) -> EdgeView {
        EdgeView {
            from: self.from@,
            from_attribute: self.from_attribute@,
            to: self.to@,
            to_attribute: self.to_attribute@,
            value: match self.value {
                Some(value) => Some(value@),
                None => None,
            },
        }
    }
}

impl<'a> DeepView for Edge<'a> {
    type V = EdgeView;

    open spec fn deep_view(&self) -> EdgeView {
        self@
    }
}

impl<'a> Clone for Edge<'a> {
    fn clone(&self) -> (copy: Self)
        ensures
            copy == *self,
    {
        Edge {
            from: self.from,
            from_attribute: self.from_attribute,
            to: self.to,
            to_attribute: self.to_attribute,
            value: match &self.value {
                Some(value) => Some(value.clone()),
                None => None,
            },
        }
    }
}

/// A component under a stable name, with the mark that it has run.
#[derive(Debug)]
pub struct Node<'a> {
    pub id: &'a str,
    pub component: Component,
    pub executed: bool,
}

impl<'a> View for Node<'a> {
    type V = NodeView;

    open spec fn view(&self) -> NodeView {
        NodeView { id: self.id@, component: self.component@, executed: self.executed }
    }
}

impl<'a> DeepView for Node<'a> {
    type V = NodeView;

    open spec fn deep_view(&self) -> NodeView {
        self@
    }
}

/// A value that a node produced on one of its outputs, on its way to the edges.
struct Emission<'a> {
    node: &'a str,
    attribute: String,
    value: Value,
}

impl<'a> View for Emission<'a> {
    type V = EmissionView;

    closed spec fn view(&self) -> EmissionView {
        EmissionView { node: self.node@, attribute: self.attribute@, value: self.value@ }
    }
}

impl<'a> DeepView for Emission<'a> {
    type V = EmissionView;

    open spec fn deep_view(&self) -> EmissionView {
        self@
    }
}

/// The nodes and edges of one run, with two indices over the edges.
///
/// `edges_from` has one entry for each name that an edge starts at, whether
/// or not a node has that name: the name, and the positions in `edges` of the
/// edges that start there, ascending. The entries stand in the order in which
/// the names first appear among the edges. `edges_to` is the same for the
/// names that edges end at. Both are built once and describe the wiring only,
/// which no run changes.
#[derive(Debug)]
pub struct Graph<'a> {
    pub nodes: Vec<Node<'a>>,
    pub edges: Vec<Edge<'a>>,
    pub edges_from: Vec<(&'a str, Vec<usize>)>,
    pub edges_to: Vec<(&'a str, Vec<usize>)>,
}

impl<'a> View for Graph<'a> {
    type V = GraphView;

    open spec fn view(&self) -> GraphView {
        GraphView {
            nodes: self.nodes.deep_view(),
            edges: self.edges.deep_view(),
            edges_from: self.edges_from.deep_view(),
            edges_to: self.edges_to.deep_view(),
        }
    }
}

/// The positions at which `name` stands among `names`, ascending.
fn occurrences_of(names: &Vec<&str>, name: &str) -> (list: Vec<usize>)
    ensures
        positions(list@) == occurrences(names.deep_view(), name@, names.len() as nat),
{
    let mut list: Vec<usize> = Vec::new();
    let mut e: usize = 0;
    while e < names.len()
        invariant
            e <= names.len(),
            positions(list@) == occurrences(names.deep_view(), name@, e as nat),
        decreases names.len() - e,
    {
        assert(names.deep_view()[e as int] == names[e as int]@);
        if str_eq(names[e], name) {
            list.push(e);
            assert(positions(list@) =~= occurrences(names.deep_view(), name@, e as nat).push(
                e as int,
            ));
        }
        e += 1;
    }
    list
}

/// Whether `index` has an entry under `name`.
fn has_entry(index: &Vec<(&str, Vec<usize>)>, name: &str) -> (found: bool)
    ensures
        found == exists|i: int| 0 <= i < index.len() && (#[trigger] index[i]).0@ == name@,
{
    let mut i: usize = 0;
    while i < index.len()
        invariant
            i <= index.len(),
            forall|j: int| 0 <= j < i ==> (#[trigger] index[j]).0@ != name@,
        decreases index.len() - i,
    {
        if str_eq(index[i].0, name) {
            return true;
        }
        i += 1;
    }
    false
}

/// The index of `names`: one entry for each name, in the order in which the
/// names first appear, with the positions at which the name stands.
fn index_of<'a>(names: &Vec<&'a str>) -> (index: Vec<(&'a str, Vec<usize>)>)
    ensures
        indexes(index.deep_view(), names.deep_view()),
{
    let ghost all = names.deep_view();
    let mut index: Vec<(&'a str, Vec<usize>)> = Vec::new();
    let mut e: usize = 0;
    while e < names.len()
        invariant
            e <= names.len(),
            all == names.deep_view(),
            all.len() == names.len(),
            index.len() == firsts(all, e as nat).len(),
            forall|i: int|
                0 <= i < index.len() ==> (#[trigger] index[i]).0@ == firsts(all, e as nat)[i]
                    && positions(index[i].1@) == occurrences(all, index[i].0@, all.len()),
        decreases names.len() - e,
    {
        let name = names[e];
        assert(all[e as int] == name@);
        let found = has_entry(&index, name);
        proof {
            let earlier = firsts(all, e as nat);
            if found {
                let i = choose|i: int| 0 <= i < index.len() && (#[trigger] index[i]).0@ == name@;
                assert(earlier[i] == name@);
            }
            if earlier.contains(name@) {
                let i = choose|i: int| 0 <= i < earlier.len() && earlier[i] == name@;
                assert(index[i].0@ == name@);
            }
        }
        if !found {
            let list = occurrences_of(names, name);
            index.push((name, list));
        }
        e += 1;
    }
    proof {
        assert forall|i: int| 0 <= i < index.deep_view().len() implies (
        #[trigger] index.deep_view()[i]).0 == firsts(all, all.len())[i] && positions(
            index.deep_view()[i].1,
        ) == occurrences(all, index.deep_view()[i].0, all.len()) by {
            assert(index.deep_view()[i].0 == index[i].0@);
            assert(index.deep_view()[i].1 =~= index[i].1@);
        }
    }
    index
}

impl<'a> Graph<'a> {
    /// Takes the nodes and edges as they are and builds the two indices over
    /// the edges. No end of an edge is held against the nodes: an edge whose
    /// start or end names no node is kept and indexed like any other. Every
    /// edge stands in each index once, under the name of its start and under
    /// the name of its end, so the lists of each index add up to the number
    /// of edges.
    pub fn new(nodes: Vec<Node<'a>>, edges: Vec<Edge<'a>>) -> (graph: Graph<'a>)
        ensures
            graph.nodes == nodes,
            graph.edges == edges,
            graph@.indexed(),
            forall|e: int|
                0 <= e < graph@.edges.len() ==> exists|i: int|
                    0 <= i < graph@.edges_from.len() && (#[trigger] graph@.edges_from[i]).0 == (
                    #[trigger] graph@.edges[e]).from && positions(graph@.edges_from[i].1).contains(
                        e,
                    ),
            forall|e: int|
                0 <= e < graph@.edges.len() ==> exists|i: int|
                    0 <= i < graph@.edges_to.len() && (#[trigger] graph@.edges_to[i]).0 == (
                    #[trigger] graph@.edges[e]).to && positions(graph@.edges_to[i].1).contains(e),
            listed(graph@.edges_from, graph@.edges_from.len()) == graph@.edges.len(),
            listed(graph@.edges_to, graph@.edges_to.len()) == graph@.edges.len(),
    {
        let mut from: Vec<&'a str> = Vec::new();
        let mut to: Vec<&'a str> = Vec::new();
        let mut e: usize = 0;
        while e < edges.len()
            invariant
                e <= edges.len(),
                from.len() == e,
                to.len() == e,
                forall|i: int| 0 <= i < e ==> (#[trigger] from[i])@ == edges[i]@.from,
                forall|i: int| 0 <= i < e ==> (#[trigger] to[i])@ == edges[i]@.to,
            decreases edges.len() - e,
        {
            from.push(edges[e].from);
            to.push(edges[e].to);
            e += 1;
        }
        assert(from.deep_view() =~= starts(edges.deep_view()));
        assert(to.deep_view() =~= ends(edges.deep_view()));
        let edges_from = index_of(&from);
        let edges_to = index_of(&to);
        let graph = Graph { nodes, edges, edges_from, edges_to };
        proof {
            lemma_indices_hold_every_edge(graph@);
        }
        graph
    }

    /// Offers `value` to every edge that starts at the output `attribute` of a
    /// node called `node_id`. An edge that already carries a value keeps it.
    /// Nodes and indices are not touched, so indices that were true stay true.
    pub fn fullfill_child_edges(&mut self, node_id: &str, attribute: &str, value: Value)
        ensures
            final(self)@ == (GraphView {
                edges: fulfilled(old(self)@.edges, node_id@, attribute@, value@),
                ..old(self)@
            }),
            old(self)@.indexed() ==> final(self)@.indexed(),
    {
        proof {
            if self@.indexed() {
                lemma_fulfilling_keeps_the_index(self@, node_id@, attribute@, value@);
            }
        }
        let mut e: usize = 0;
        while e < self.edges.len()
            invariant
                e <= self.edges.len(),
                self.edges.len() == old(self).edges.len(),
                self.nodes == old(self).nodes,
                self.edges_from == old(self).edges_from,
                self.edges_to == old(self).edges_to,
                forall|i: int|
                    0 <= i < e ==> (#[trigger] self.edges[i])@ == fulfilled(
                        old(self)@.edges,
                        node_id@,
                        attribute@,
                        value@,
                    )[i],
                forall|i: int| e <= i < self.edges.len() ==> self.edges[i] == old(self).edges[i],
            decreases self.edges.len() - e,
        {
            let edge = &self.edges[e];
            if edge.value.is_none() && str_eq(edge.from, node_id) && str_eq(
                edge.from_attribute,
                attribute,
            ) {
                let filled = Edge {
                    from: edge.from,
                    from_attribute: edge.from_attribute,
                    to: edge.to,
                    to_attribute: edge.to_attribute,
                    value: Some(value.clone()),
                };
                self.edges.set(e, filled);
            }
            e += 1;
        }
        assert(self@.edges =~= fulfilled(old(self)@.edges, node_id@, attribute@, value@));
    }

    /// Whether a node is called `id`.
    fn has_node(&self, id: &str) -> (found: bool)
        ensures
            found == self@.names(id@),
    {
        let mut n: usize = 0;
        while n < self.nodes.len()
            invariant
                n <= self.nodes.len(),
                forall|i: int| 0 <= i < n ==> (#[trigger] self@.nodes[i]).id != id@,
            decreases self.nodes.len() - n,
        {
            if str_eq(self.nodes[n].id, id) {
                assert(self@.nodes[n as int].id == id@);
                return true;
            }
            n += 1;
        }
        false
    }

    /// The position of the first edge that dangles, that is, whose start or
    /// end names no node. `Graph::new` and the run accept such edges: one
    /// that starts nowhere never carries a value, so the node at its end
    /// never runs. A caller that wants to refuse them asks here first.
    pub fn first_dangling_edge(&self) -> (found: Option<usize>)
        ensures
            match found {
                Some(e) => e < self@.edges.len() && self@.dangling(e as int) && forall|i: int|
                    0 <= i < e ==> !self@.dangling(i),
                None => forall|i: int| 0 <= i < self@.edges.len() ==> !self@.dangling(i),
            },
    {
        let mut e: usize = 0;
        while e < self.edges.len()
            invariant
                e <= self.edges.len(),
                forall|i: int| 0 <= i < e ==> !self@.dangling(i),
            decreases self.edges.len() - e,
        {
            let edge = &self.edges[e];
            assert(self@.edges[e as int] == edge@);
            if !self.has_node(edge.from) || !self.has_node(edge.to) {
                return Some(e);
            }
            e += 1;
        }
        None
    }

    /// Whether every edge that ends at a node called `id` carries a value.
    fn is_supplied(&self, id: &str) -> (ready: bool)
        ensures
            ready == self@.supplied(id@),
    {
        let mut e: usize = 0;
        while e < self.edges.len()
            invariant
                e <= self.edges.len(),
                forall|i: int|
                    0 <= i < e && (#[trigger] self@.edges[i]).to == id@
                        ==> self@.edges[i].value is Some,
            decreases self.edges.len() - e,
        {
            let edge = &self.edges[e];
            if edge.value.is_none() && str_eq(edge.to, id) {
                assert(self@.edges[e as int].to == id@ && self@.edges[e as int].value is None);
                return false;
            }
            e += 1;
        }
        true
    }

    /// The positions of the eligible nodes, ascending.
    fn candidates(&self) -> (chosen: Vec<usize>)
        ensures
            positions(chosen@) == self@.candidates(),
    {
        let mut chosen: Vec<usize> = Vec::new();
        let mut n: usize = 0;
        while n < self.nodes.len()
            invariant
                n <= self.nodes.len(),
                positions(chosen@) == self@.candidates_among(n as nat),
            decreases self.nodes.len() - n,
        {
            let node = &self.nodes[n];
            if !node.executed && self.is_supplied(node.id) {
                chosen.push(n);
                assert(positions(chosen@) =~= self@.candidates_among(n as nat).push(n as int));
            }
            n += 1;
        }
        chosen
    }

    /// The names of the nodes that the next pass will run, in the order in
    /// which the nodes were declared: each has not run yet, and every edge
    /// that ends at it carries a value.
    pub fn candidate_ids(&self) -> (ids: Vec<&'a str>)
        ensures
            ids.deep_view() == self@.candidate_ids(),
    {
        let chosen = self.candidates();
        proof {
            lemma_candidates_among(self@, self.nodes.len() as nat);
        }
        let mut ids: Vec<&'a str> = Vec::new();
        let mut k: usize = 0;
        while k < chosen.len()
            invariant
                k <= chosen.len(),
                positions(chosen@) == self@.candidates(),
                forall|i: int|
                    0 <= i < chosen.len() ==> 0 <= (#[trigger] self@.candidates()[i])
                        < self.nodes.len(),
                ids.len() == k,
                forall|i: int| 0 <= i < k ==> (#[trigger] ids[i])@ == self@.candidate_ids()[i],
            decreases chosen.len() - k,
        {
            assert(self@.candidates()[k as int] == chosen[k as int]);
            ids.push(self.nodes[chosen[k]].id);
            k += 1;
        }
        assert(ids.deep_view() =~= self@.candidate_ids());
        ids
    }

    /// Runs node `n`: a copy of its component takes the values of the edges
    /// that end at the node, in the order of the edges, and runs. If all of
    /// that succeeds, the copy replaces the component, the node is marked, and
    /// what its outputs hold is added to `emissions`. If a step fails, nothing
    /// is changed.
    fn fire(&mut self, n: usize, emissions: &mut Vec<Emission<'a>>) -> (done: Result<(), Error>)
        requires
            n < old(self).nodes.len(),
        ensures
            old(self)@.nodes[n as int].fired(old(self)@.edges) == (match done {
                Ok(()) => Ok(final(self)@.nodes[n as int]),
                Err(error) => Err(error@),
            }),
            done is Ok ==> final(self)@ == (GraphView {
                nodes: old(self)@.nodes.update(n as int, final(self)@.nodes[n as int]),
                ..old(self)@
            }),
            done is Ok ==> final(emissions).deep_view() == old(emissions).deep_view()
                + final(self)@.nodes[n as int].emissions(),
            done is Err ==> *final(self) == *old(self) && *final(emissions) == *old(emissions),
    {
        let id = self.nodes[n].id;
        let mut component = self.nodes[n].component.clone();
        let mut e: usize = 0;
        while e < self.edges.len()
            invariant
                e <= self.edges.len(),
                n < self.nodes.len(),
                *self == *old(self),
                *emissions == *old(emissions),
                id@ == self@.nodes[n as int].id,
                fed(self@.nodes[n as int].component, id@, self@.edges, e as nat) == Ok::<
                    ComponentView,
                    ErrorView,
                >(component@),
            decreases self.edges.len() - e,
        {
            let edge = &self.edges[e];
            assert(self@.edges[e as int] == edge@);
            if str_eq(edge.to, id) {
                match &edge.value {
                    Some(value) => {
                        match component.set_attribute(edge.to_attribute, value.clone()) {
                            Ok(()) => {},
                            Err(error) => {
                                proof {
                                    lemma_fed_stays_failed(
                                        self@.nodes[n as int].component,
                                        id@,
                                        self@.edges,
                                        (e + 1) as nat,
                                        self@.edges.len(),
                                    );
                                }
                                return Err(error);
                            },
                        }
                    },
                    None => {},
                }
            }
            e += 1;
        }
        match component.execute() {
            Ok(()) => {},
            Err(error) => {
                return Err(error);
            },
        }
        let outputs = component.outputs();
        let ghost before = emissions.deep_view();
        let mut o: usize = 0;
        while o < outputs.len()
            invariant
                o <= outputs.len(),
                emissions.deep_view() == before + emitted(id@, outputs.deep_view(), o as nat),
            decreases outputs.len() - o,
        {
            let output = &outputs[o];
            assert(outputs.deep_view()[o as int] == output@);
            match &output.value {
                Some(value) => {
                    let ghost earlier = emissions.deep_view();
                    let emission = Emission {
                        node: id,
                        attribute: output.name.clone(),
                        value: value.clone(),
                    };
                    let ghost added = emission@;
                    emissions.push(emission);
                    assert(emissions.deep_view() =~= earlier.push(added));
                    assert(earlier.push(added) =~= before + emitted(
                        id@,
                        outputs.deep_view(),
                        (o + 1) as nat,
                    ));
                },
                None => {},
            }
            o += 1;
        }
        self.nodes.set(n, Node { id, component, executed: true });
        assert(self@.nodes =~= old(self)@.nodes.update(n as int, self@.nodes[n as int]));
        assert(self@.edges_from == old(self)@.edges_from);
        Ok(())
    }

    /// Runs the nodes at the positions `chosen`, one after the other, and
    /// gives what they produced. The first node that fails ends the walk with
    /// its error and is left as it was.
    fn walk(&mut self, chosen: &Vec<usize>) -> (done: Result<Vec<Emission<'a>>, Error>)
        requires
            forall|i: int| 0 <= i < chosen.len() ==> (#[trigger] chosen[i]) < old(self).nodes.len(),
        ensures
            final(self)@ == (GraphView {
                nodes: old(self)@.walked(positions(chosen@), chosen.len() as nat).nodes,
                ..old(self)@
            }),
            old(self)@.walked(positions(chosen@), chosen.len() as nat).failure == (match done {
                Ok(_) => None,
                Err(error) => Some(error@),
            }),
            done is Ok ==> done->Ok_0.deep_view() == old(self)@.walked(
                positions(chosen@),
                chosen.len() as nat,
            ).emissions,
    {
        let ghost start = self@;
        let ghost all = positions(chosen@);
        let mut emissions: Vec<Emission<'a>> = Vec::new();
        let mut k: usize = 0;
        while k < chosen.len()
            invariant
                k <= chosen.len(),
                start == old(self)@,
                all == positions(chosen@),
                forall|i: int| 0 <= i < chosen.len() ==> (#[trigger] chosen[i]) < self.nodes.len(),
                self@ == (GraphView { nodes: start.walked(all, k as nat).nodes, ..start }),
                emissions.deep_view() == start.walked(all, k as nat).emissions,
                start.walked(all, k as nat).failure is None,
            decreases chosen.len() - k,
        {
            assert(all[k as int] == chosen[k as int]);
            let ghost before = self.nodes.len();
            match self.fire(chosen[k], &mut emissions) {
                Ok(()) => {
                    assert(self.nodes.len() == before) by {
                        assert(self@.nodes.len() == self.nodes.len());
                    }
                },
                Err(error) => {
                    proof {
                        lemma_walked_stays_failed(start, all, (k + 1) as nat, all.len());
                    }
                    return Err(error);
                },
            }
            k += 1;
        }
        Ok(emissions)
    }

    /// Offers each of `emissions` to the edges, one after the other.
    fn publish(&mut self, emissions: &Vec<Emission<'a>>)
        ensures
            final(self)@ == (GraphView {
                edges: published(
                    old(self)@.edges,
                    emissions.deep_view(),
                    emissions.len() as nat,
                ),
                ..old(self)@
            }),
    {
        let mut j: usize = 0;
        while j < emissions.len()
            invariant
                j <= emissions.len(),
                self@ == (GraphView {
                    edges: published(old(self)@.edges, emissions.deep_view(), j as nat),
                    ..old(self)@
                }),
            decreases emissions.len() - j,
        {
            let emission = &emissions[j];
            assert(emissions.deep_view()[j as int] == emission@);
            self.fullfill_child_edges(
                emission.node,
                emission.attribute.as_str(),
                emission.value.clone(),
            );
            j += 1;
        }
    }

    /// Runs one pass: every eligible node runs, in the order in which the
    /// nodes were declared, and then what they produced is offered to the
    /// edges. Returns whether any node was eligible. The first node that fails
    /// ends the pass with its error: the nodes that ran before it keep their
    /// marks, the failing node is left as it was, and no edge is touched.
    /// Indices that were true stay true.
    pub fn step(&mut self) -> (done: Result<bool, Error>)
        ensures
            final(self)@ == old(self)@.pass().graph,
            old(self)@.pass().failure == (match done {
                Ok(_) => None,
                Err(error) => Some(error@),
            }),
            done is Ok ==> done->Ok_0 == !old(self)@.idle(),
            old(self)@.indexed() ==> final(self)@.indexed(),
    {
        let chosen = self.candidates();
        proof {
            if self@.indexed() {
                lemma_run_keeps_the_index(self@);
            }
            lemma_candidates_among(self@, self@.nodes.len());
            lemma_idle(self@);
            lemma_walk_gives_the_pass(self@);
            assert(self.nodes.len() == self@.nodes.len());
            assert forall|i: int| 0 <= i < chosen.len() implies (#[trigger] chosen[i])
                < self.nodes.len() by {
                assert(positions(chosen@)[i] == chosen[i] as int);
            }
        }
        match self.walk(&chosen) {
            Ok(emissions) => {
                self.publish(&emissions);
                Ok(chosen.len() > 0)
            },
            Err(error) => Err(error),
        }
    }

    /// Runs passes until no node is eligible or a node fails, and returns the
    /// error of the node that failed, if one did. Nodes that can never become
    /// eligible are left as they are, and the run still succeeds.
    ///
    /// Whatever the outcome, the wiring and the indices are as before, so that
    /// indices that were true stay true; a node that had run is as before,
    /// and an edge that carried a value is as before. After a success no node
    /// is eligible. On a graph whose nodes have all run, nothing is changed
    /// and the run succeeds.
    pub fn execute(&mut self) -> (done: Result<(), Error>)
        ensures
            final(self)@ == old(self)@.run().graph,
            old(self)@.run().failure == (match done {
                Ok(()) => None,
                Err(error) => Some(error@),
            }),
            evolved(old(self)@, final(self)@),
            old(self)@.indexed() ==> final(self)@.indexed(),
            done is Ok ==> final(self)@.idle(),
            (forall|n: int| 0 <= n < old(self)@.nodes.len() ==> old(self)@.nodes[n].executed)
                ==> done is Ok && final(self)@ == old(self)@,
    {
        proof {
            lemma_run_evolves(self@);
            if self@.indexed() {
                lemma_run_keeps_the_index(self@);
            }
            if self@.run().failure is None {
                lemma_run_settles(self@);
            }
            if forall|n: int| 0 <= n < self@.nodes.len() ==> self@.nodes[n].executed {
                lemma_run_of_finished_graph(self@);
            }
        }
        loop
            invariant
                self@.run() == old(self)@.run(),
                evolved(old(self)@, old(self)@.run().graph),
                old(self)@.indexed() ==> old(self)@.run().graph.indexed(),
                old(self)@.run().failure is None ==> old(self)@.run().graph.idle(),
                (forall|n: int| 0 <= n < old(self)@.nodes.len() ==> old(self)@.nodes[n].executed)
                    ==> old(self)@.run() == (Outcome { graph: old(self)@, failure: None }),
            decreases self@.pending(),
        {
            let ghost before = self@;
            match self.step() {
                Ok(true) => {
                    proof {
                        lemma_pass_makes_progress(before);
                    }
                },
                Ok(false) => {
                    proof {
                        lemma_idle_pass(before);
                    }
                    return Ok(());
                },
                Err(error) => {
                    return Err(error);
                },
            }
        }
    }
}

} // verus!
