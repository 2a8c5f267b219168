//! The two indices over the edges, and why running keeps them true.

use vstd::prelude::*;

use super::super::model::{
    ends, entering, firsts, fulfilled, indexes, leaving, occurrences, positions, starts, EdgeView,
    GraphView,
};
use super::super::ValueView;
use super::runs::{evolved, lemma_pass_evolves, lemma_run_evolves};

verus! {

/// The occurrences of a name are positions at which the name stands, in
/// ascending order, and none is left out.
pub proof fn lemma_occurrences(names: Seq<Seq<char>>, name: Seq<char>, k: nat)
    requires
        k <= names.len(),
    ensures
        occurrences(names, name, k).len() <= k,
        forall|i: int|
            0 <= i < occurrences(names, name, k).len() ==> 0 <= (#[trigger] occurrences(
                names,
                name,
                k,
            )[i]) < k && names[occurrences(names, name, k)[i]] == name,
        forall|i: int, j: int|
            0 <= i < j < occurrences(names, name, k).len() ==> occurrences(names, name, k)[i]
                < occurrences(names, name, k)[j],
        forall|e: int|
            0 <= e < k && (#[trigger] names[e]) == name ==> occurrences(names, name, k).contains(e),
    decreases k,
{
    if k > 0 {
        let earlier = occurrences(names, name, (k - 1) as nat);
        let all = occurrences(names, name, k);
        lemma_occurrences(names, name, (k - 1) as nat);
        assert forall|e: int| 0 <= e < k && (#[trigger] names[e]) == name implies all.contains(
            e,
        ) by {
            if e < k - 1 {
                let i = choose|i: int| 0 <= i < earlier.len() && earlier[i] == e;
                assert(all[i] == e);
            } else {
                assert(all[all.len() - 1] == e);
            }
        }
    }
}

/// The first appearances hold each of the names once: no two of them are the
/// same, each of them is one of the names, and each name is among them.
pub proof fn lemma_firsts(names: Seq<Seq<char>>, k: nat)
    requires
        k <= names.len(),
    ensures
        firsts(names, k).len() <= k,
        forall|i: int, j: int|
            0 <= i < j < firsts(names, k).len() ==> firsts(names, k)[i] != firsts(names, k)[j],
        forall|i: int|
            0 <= i < firsts(names, k).len() ==> exists|e: int|
                0 <= e < k && #[trigger] names[e] == #[trigger] firsts(names, k)[i],
        forall|e: int| 0 <= e < k ==> firsts(names, k).contains(#[trigger] names[e]),
    decreases k,
{
    if k > 0 {
        let earlier = firsts(names, (k - 1) as nat);
        let all = firsts(names, k);
        lemma_firsts(names, (k - 1) as nat);
        assert forall|i: int| 0 <= i < all.len() implies exists|e: int|
            0 <= e < k && #[trigger] names[e] == #[trigger] all[i] by {
            if i < earlier.len() {
                let e = choose|e: int| 0 <= e < k - 1 && #[trigger] names[e] == earlier[i];
                assert(names[e] == all[i]);
            } else {
                assert(names[k - 1] == all[i]);
            }
        }
        assert forall|e: int| 0 <= e < k implies all.contains(#[trigger] names[e]) by {
            if e < k - 1 {
                let i = choose|i: int| 0 <= i < earlier.len() && earlier[i] == names[e];
                assert(all[i] == names[e]);
            } else if earlier.contains(names[e]) {
                let i = choose|i: int| 0 <= i < earlier.len() && earlier[i] == names[e];
                assert(all[i] == names[e]);
            } else {
                assert(all[all.len() - 1] == names[e]);
            }
        }
        assert forall|i: int, j: int| 0 <= i < j < all.len() implies all[i] != all[j] by {
            if j == earlier.len() {
                if all[i] == all[j] {
                    assert(earlier[i] == names[k - 1]);
                }
            }
        }
    }
}

/// In an index of names, no two entries have the same name, every entry
/// lists at least one position, and every position stands in an entry:
/// under the name that stands at this position, and under no other.
pub proof fn lemma_index_holds_each_position_once(
    index: Seq<(Seq<char>, Seq<usize>)>,
    names: Seq<Seq<char>>,
)
    requires
        indexes(index, names),
    ensures
        forall|i: int, j: int|
            0 <= i < j < index.len() ==> (#[trigger] index[i]).0 != (#[trigger] index[j]).0,
        forall|i: int| 0 <= i < index.len() ==> (#[trigger] index[i]).1.len() > 0,
        forall|e: int|
            0 <= e < names.len() ==> exists|i: int|
                0 <= i < index.len() && (#[trigger] index[i]).0 == #[trigger] names[e]
                    && positions(index[i].1).contains(e),
        forall|i: int, p: int|
            0 <= i < index.len() && 0 <= p < index[i].1.len() ==> 0 <= (
            #[trigger] index[i].1[p]) < names.len() && names[index[i].1[p] as int] == index[i].0,
{
    let keys = firsts(names, names.len());
    lemma_firsts(names, names.len());
    assert forall|i: int| 0 <= i < index.len() implies (#[trigger] index[i]).1.len() > 0 by {
        let e = choose|e: int| 0 <= e < names.len() && #[trigger] names[e] == keys[i];
        lemma_occurrences(names, index[i].0, names.len());
        assert(occurrences(names, index[i].0, names.len()).contains(e));
        assert(positions(index[i].1).len() == index[i].1.len());
    }
    assert forall|e: int| 0 <= e < names.len() implies exists|i: int|
        0 <= i < index.len() && (#[trigger] index[i]).0 == #[trigger] names[e] && positions(
            index[i].1,
        ).contains(e) by {
        assert(keys.contains(names[e]));
        let i = choose|i: int| 0 <= i < keys.len() && keys[i] == names[e];
        lemma_occurrences(names, names[e], names.len());
        assert(index[i].0 == names[e]);
    }
    assert forall|i: int, p: int| 0 <= i < index.len() && 0 <= p < index[i].1.len() implies 0 <= (
    #[trigger] index[i].1[p]) < names.len() && names[index[i].1[p] as int] == index[i].0 by {
        lemma_occurrences(names, index[i].0, names.len());
        assert(positions(index[i].1)[p] == index[i].1[p] as int);
    }
    assert forall|i: int, j: int| 0 <= i < j < index.len() implies (#[trigger] index[i]).0 != (
    #[trigger] index[j]).0 by {
        assert(keys[i] != keys[j]);
    }
}

/// How many positions the first `i` entries of an index list, taken
/// together.
pub open spec fn listed(index: Seq<(Seq<char>, Seq<usize>)>, i: nat) -> nat
    decreases i,
{
    if i == 0 {
        0
    } else {
        listed(index, (i - 1) as nat) + index[i - 1].1.len()
    }
}

/// How often the first `i` of `keys` stand among the first `k` of `names`,
/// taken together.
spec fn counted(names: Seq<Seq<char>>, keys: Seq<Seq<char>>, k: nat, i: nat) -> nat
    decreases i,
{
    if i == 0 {
        0
    } else {
        counted(names, keys, k, (i - 1) as nat) + occurrences(names, keys[i - 1], k).len()
    }
}

/// One more name counts once, under the key that it is, where no two keys are
/// the same.
proof fn lemma_counted_step(names: Seq<Seq<char>>, keys: Seq<Seq<char>>, k: nat, i: nat, at: int)
    requires
        k < names.len(),
        i <= keys.len(),
        0 <= at < keys.len(),
        keys[at] == names[k as int],
        forall|a: int, b: int| 0 <= a < b < keys.len() ==> keys[a] != keys[b],
    ensures
        counted(names, keys, (k + 1) as nat, i) == counted(names, keys, k, i) + (if at < i {
            1nat
        } else {
            0nat
        }),
    decreases i,
{
    if i > 0 {
        lemma_counted_step(names, keys, k, (i - 1) as nat, at);
        if i - 1 != at {
            if i - 1 < at {
                assert(keys[i - 1] != keys[at]);
            } else {
                assert(keys[at] != keys[i - 1]);
            }
        }
    }
}

/// The keys of an index, taken together, stand among the first `k` names as
/// often as there are names among the first `k`.
proof fn lemma_counted(names: Seq<Seq<char>>, k: nat)
    requires
        k <= names.len(),
    ensures
        counted(names, firsts(names, names.len()), k, firsts(names, names.len()).len()) == k,
    decreases k,
{
    let keys = firsts(names, names.len());
    if k == 0 {
        lemma_counted_of_nothing(names, keys, keys.len());
    } else {
        lemma_counted(names, (k - 1) as nat);
        lemma_firsts(names, names.len());
        assert(keys.contains(names[k - 1]));
        let at = choose|at: int| 0 <= at < keys.len() && keys[at] == names[k - 1];
        lemma_counted_step(names, keys, (k - 1) as nat, keys.len(), at);
    }
}

/// Among no names nothing is counted.
proof fn lemma_counted_of_nothing(names: Seq<Seq<char>>, keys: Seq<Seq<char>>, i: nat)
    ensures
        counted(names, keys, 0, i) == 0,
    decreases i,
{
    if i > 0 {
        lemma_counted_of_nothing(names, keys, (i - 1) as nat);
    }
}

/// What an index lists is what is counted under its keys.
proof fn lemma_listed_is_counted(
    index: Seq<(Seq<char>, Seq<usize>)>,
    names: Seq<Seq<char>>,
    i: nat,
)
    requires
        indexes(index, names),
        i <= index.len(),
    ensures
        listed(index, i) == counted(names, firsts(names, names.len()), names.len(), i),
    decreases i,
{
    if i > 0 {
        lemma_listed_is_counted(index, names, (i - 1) as nat);
        assert(positions(index[i - 1].1).len() == index[i - 1].1.len());
    }
}

/// An index lists as many positions as there are names: the lengths of its
/// lists add up to the number of names.
pub proof fn lemma_index_lists_every_position(
    index: Seq<(Seq<char>, Seq<usize>)>,
    names: Seq<Seq<char>>,
)
    requires
        indexes(index, names),
    ensures
        listed(index, index.len()) == names.len(),
{
    lemma_listed_is_counted(index, names, index.len());
    lemma_counted(names, names.len());
}

/// What the indices of a graph hold, where they are true. Every edge stands
/// in `edges_from` once, under the name that it starts at, and in `edges_to`
/// once, under the name that it ends at, whether or not a node has that
/// name. The entry of a name lists the edges that start (end) at the name, in
/// the order of the edges. The lists of each index add up to the number of
/// edges.
pub proof fn lemma_indices_hold_every_edge(graph: GraphView)
    requires
        graph.indexed(),
    ensures
        forall|i: int|
            0 <= i < graph.edges_from.len() ==> positions((#[trigger] graph.edges_from[i]).1)
                == leaving(graph.edges, graph.edges_from[i].0) && graph.edges_from[i].1.len() > 0,
        forall|i: int|
            0 <= i < graph.edges_to.len() ==> positions((#[trigger] graph.edges_to[i]).1)
                == entering(graph.edges, graph.edges_to[i].0) && graph.edges_to[i].1.len() > 0,
        forall|e: int|
            0 <= e < graph.edges.len() ==> exists|i: int|
                0 <= i < graph.edges_from.len() && (#[trigger] graph.edges_from[i]).0 == (
                #[trigger] graph.edges[e]).from && positions(graph.edges_from[i].1).contains(e),
        forall|e: int|
            0 <= e < graph.edges.len() ==> exists|i: int|
                0 <= i < graph.edges_to.len() && (#[trigger] graph.edges_to[i]).0 == (
                #[trigger] graph.edges[e]).to && positions(graph.edges_to[i].1).contains(e),
        forall|i: int, j: int|
            0 <= i < j < graph.edges_from.len() ==> (#[trigger] graph.edges_from[i]).0 != (
            #[trigger] graph.edges_from[j]).0,
        forall|i: int, j: int|
            0 <= i < j < graph.edges_to.len() ==> (#[trigger] graph.edges_to[i]).0 != (
            #[trigger] graph.edges_to[j]).0,
        listed(graph.edges_from, graph.edges_from.len()) == graph.edges.len(),
        listed(graph.edges_to, graph.edges_to.len()) == graph.edges.len(),
{
    let from = starts(graph.edges);
    let to = ends(graph.edges);
    lemma_index_holds_each_position_once(graph.edges_from, from);
    lemma_index_holds_each_position_once(graph.edges_to, to);
    lemma_index_lists_every_position(graph.edges_from, from);
    lemma_index_lists_every_position(graph.edges_to, to);
    assert forall|e: int| 0 <= e < graph.edges.len() implies exists|i: int|
        0 <= i < graph.edges_from.len() && (#[trigger] graph.edges_from[i]).0 == (
        #[trigger] graph.edges[e]).from && positions(graph.edges_from[i].1).contains(e) by {
        assert(from[e] == graph.edges[e].from);
        let i = choose|i: int|
            0 <= i < graph.edges_from.len() && (#[trigger] graph.edges_from[i]).0 == from[e]
                && positions(graph.edges_from[i].1).contains(e);
        assert(graph.edges_from[i].0 == graph.edges[e].from);
    }
    assert forall|e: int| 0 <= e < graph.edges.len() implies exists|i: int|
        0 <= i < graph.edges_to.len() && (#[trigger] graph.edges_to[i]).0 == (
        #[trigger] graph.edges[e]).to && positions(graph.edges_to[i].1).contains(e) by {
        assert(to[e] == graph.edges[e].to);
        let i = choose|i: int|
            0 <= i < graph.edges_to.len() && (#[trigger] graph.edges_to[i]).0 == to[e]
                && positions(graph.edges_to[i].1).contains(e);
        assert(graph.edges_to[i].0 == graph.edges[e].to);
    }
}

/// The indices depend on the wiring alone: edges with the same ends have the
/// same indices, whatever values they carry.
pub proof fn lemma_index_ignores_values(before: Seq<EdgeView>, after: Seq<EdgeView>)
    requires
        before.len() == after.len(),
        forall|e: int|
            0 <= e < before.len() ==> (#[trigger] after[e]).from == before[e].from && after[e].to
                == before[e].to,
    ensures
        starts(after) == starts(before),
        ends(after) == ends(before),
{
    assert(starts(after) =~= starts(before));
    assert(ends(after) =~= ends(before));
}

/// Indices that describe the wiring of a graph describe the wiring of every
/// graph that it can become.
pub proof fn lemma_evolved_keeps_the_index(before: GraphView, after: GraphView)
    requires
        before.indexed(),
        evolved(before, after),
    ensures
        after.indexed(),
{
    lemma_index_ignores_values(before.edges, after.edges);
}

/// Offering a value to edges keeps the indices true.
pub proof fn lemma_fulfilling_keeps_the_index(
    graph: GraphView,
    id: Seq<char>,
    attribute: Seq<char>,
    value: ValueView,
)
    requires
        graph.indexed(),
    ensures
        (GraphView { edges: fulfilled(graph.edges, id, attribute, value), ..graph }).indexed(),
{
    lemma_index_ignores_values(graph.edges, fulfilled(graph.edges, id, attribute, value));
}

/// Running keeps the indices true: if they describe the wiring before a run,
/// they describe it after the run.
pub proof fn lemma_run_keeps_the_index(graph: GraphView)
    requires
        graph.indexed(),
    ensures
        graph.run().graph.indexed(),
        graph.pass().graph.indexed(),
{
    lemma_run_evolves(graph);
    lemma_pass_evolves(graph);
    lemma_evolved_keeps_the_index(graph, graph.run().graph);
    lemma_evolved_keeps_the_index(graph, graph.pass().graph);
}

/// The rule of eligibility, read off the index. For a name that has an entry
/// in `edges_to`, every edge that ends at the name carries a value exactly
/// if every edge that the entry lists does. For a name without an entry no
/// edge ends at the name, so that nothing is missing.
pub proof fn lemma_supplied_by_the_index(graph: GraphView, id: Seq<char>)
    requires
        graph.indexed(),
    ensures
        forall|i: int|
            0 <= i < graph.edges_to.len() && (#[trigger] graph.edges_to[i]).0 == id ==> (
            graph.supplied(id) <==> forall|p: int|
                0 <= p < graph.edges_to[i].1.len() ==> graph.edges[(
                #[trigger] graph.edges_to[i].1[p]) as int].value is Some),
        (forall|i: int| 0 <= i < graph.edges_to.len() ==> (#[trigger] graph.edges_to[i]).0 != id)
            ==> graph.supplied(id),
{
    let to = ends(graph.edges);
    lemma_index_holds_each_position_once(graph.edges_to, to);
    lemma_occurrences(to, id, to.len());
    assert forall|i: int|
        0 <= i < graph.edges_to.len() && (#[trigger] graph.edges_to[i]).0 == id implies (
    graph.supplied(id) <==> forall|p: int|
        0 <= p < graph.edges_to[i].1.len() ==> graph.edges[(
        #[trigger] graph.edges_to[i].1[p]) as int].value is Some) by {
        let listed = graph.edges_to[i].1;
        let found = occurrences(to, id, to.len());
        assert(positions(listed) == found);
        if graph.supplied(id) {
            assert forall|p: int| 0 <= p < listed.len() implies graph.edges[(
            #[trigger] listed[p]) as int].value is Some by {
                assert(found[p] == listed[p] as int);
                assert(to[found[p]] == id);
            }
        }
        if forall|p: int|
            0 <= p < listed.len() ==> graph.edges[(#[trigger] listed[p]) as int].value is Some {
            assert forall|e: int|
                0 <= e < graph.edges.len() && (#[trigger] graph.edges[e]).to == id implies
                graph.edges[e].value is Some by {
                assert(to[e] == id);
                let p = choose|p: int| 0 <= p < found.len() && found[p] == e;
                assert(found[p] == listed[p] as int);
            }
        }
    }
    if forall|i: int| 0 <= i < graph.edges_to.len() ==> (#[trigger] graph.edges_to[i]).0 != id {
        assert forall|e: int|
            0 <= e < graph.edges.len() && (#[trigger] graph.edges[e]).to == id implies
            graph.edges[e].value is Some by {
            assert(to[e] == id);
            let i = choose|i: int|
                0 <= i < graph.edges_to.len() && (#[trigger] graph.edges_to[i]).0 == to[e]
                    && positions(graph.edges_to[i].1).contains(e);
        }
    }
}

} // verus!
