//! What a relation offers to those that only read it, and the search that
//! lists the nodes that are reached from a node.

use crate::fx::{set_insert, set_new};
use crate::graph::{
    below, lemma_bounded_set, lemma_reach_via_least, lemma_reach_via_start, lemma_reach_via_step,
    reach_via,
};
use crate::idx::Idx;
use fxhash::FxHashSet;
use vstd::prelude::*;

verus! {

/// The nodes that are reached from `start` by a walk along the edges;
/// `start` itself is among them.
pub open spec fn reachable(edges: Set<(nat, nat)>, start: nat) -> Set<nat> {
    reach_via(edges, Set::full(), start)
}

/// A directed graph on the nodes `0 .. node_count` of which the successors
/// of a node can be listed.
pub trait Graph<R: Idx> {
    /// The number of nodes.
    spec fn node_count(&self) -> nat;

    /// The edges of the graph.
    spec fn edge_pairs(&self) -> Set<(nat, nat)>;

    /// Whether the graph is consistent.
    spec fn consistent(&self) -> bool;

    /// The successors of `node`, each once.
    fn successors_of(&self, node: R) -> (r: Vec<R>)
        requires
            self.consistent(),
            node.index_spec() < self.node_count(),
        ensures
            forall|i: int| 0 <= i < r.len() ==> (#[trigger] r[i]).index_spec() < self.node_count(),
            forall|i: int|
                0 <= i < r.len() ==> self.edge_pairs().contains(
                    (node.index_spec() as nat, (#[trigger] r[i]).index_spec() as nat),
                ),
            forall|b: nat|
                self.edge_pairs().contains((node.index_spec() as nat, b)) ==> exists|i: int|
                    0 <= i < r.len() && (#[trigger] r[i]).index_spec() == b,
    ;
}

/// Whether `v` names each node of `s` once and no other node.
pub open spec fn names_each_once<R: Idx>(v: Seq<R>, s: Set<nat>) -> bool {
    &&& forall|i: int, j: int|
        0 <= i < j < v.len() ==> (#[trigger] v[i]).index_spec() != (#[trigger] v[j]).index_spec()
    &&& forall|i: int| 0 <= i < v.len() ==> s.contains((#[trigger] v[i]).index_spec() as nat)
    &&& forall|m: nat| #[trigger]
        s.contains(m) ==> exists|i: int| 0 <= i < v.len() && (#[trigger] v[i]).index_spec() == m
}

/// The nodes that are reached from `start`, each once, `start` first: the
/// order in which a search that goes into depth first comes to them.
pub fn reachable_from<R: Idx, G: Graph<R>>(graph: &G, start: R) -> (found: Vec<R>)
    requires
        graph.consistent(),
        start.index_spec() < graph.node_count(),
    ensures
        names_each_once(found@, reachable(graph.edge_pairs(), start.index_spec() as nat)),
        found.len() > 0,
        found[0].index_spec() == start.index_spec(),
{
    let ghost n = graph.node_count();
    let ghost edges = graph.edge_pairs();
    let ghost first = start.index_spec() as nat;
    let ghost goal = reachable(edges, first);
    let mut found: Vec<R> = Vec::new();
    let mut stack: Vec<R> = Vec::new();
    stack.push(start);
    let mut visited: FxHashSet<usize> = set_new();
    set_insert(&mut visited, start.index());
    let ghost seen: Set<nat> = Set::empty().insert(first);
    proof {
        lemma_reach_via_start(edges, Set::full(), first);
        lemma_bounded_set(seen, n);
        assert(stack[0].index_spec() == first);
    }
    while stack.len() > 0
        invariant
            graph.consistent(),
            n == graph.node_count(),
            edges == graph.edge_pairs(),
            goal == reachable(edges, first),
            first == start.index_spec(),
            seen.subset_of(below(n)),
            seen.subset_of(goal),
            seen.contains(first),
            forall|x: usize| visited@.contains(x) <==> seen.contains(x as nat),
            // what was found and what waits are the nodes seen, each once
            forall|i: int| 0 <= i < found.len() ==> seen.contains((#[trigger] found[i]).index_spec() as nat),
            forall|i: int| 0 <= i < stack.len() ==> seen.contains((#[trigger] stack[i]).index_spec() as nat),
            forall|i: int, j: int|
                0 <= i < j < found.len() ==> (#[trigger] found[i]).index_spec() != (
                #[trigger] found[j]).index_spec(),
            forall|i: int, j: int|
                0 <= i < j < stack.len() ==> (#[trigger] stack[i]).index_spec() != (
                #[trigger] stack[j]).index_spec(),
            forall|i: int, j: int|
                0 <= i < found.len() && 0 <= j < stack.len() ==> (#[trigger] found[i]).index_spec()
                    != (#[trigger] stack[j]).index_spec(),
            forall|m: nat| #[trigger]
                seen.contains(m) ==> (exists|i: int|
                    0 <= i < found.len() && (#[trigger] found[i]).index_spec() == m) || (exists|
                    j: int,
                | 0 <= j < stack.len() && (#[trigger] stack[j]).index_spec() == m),
            // the successors of what was found were seen
            forall|i: int, b: nat|
                0 <= i < found.len() && #[trigger] edges.contains(
                    ((#[trigger] found[i]).index_spec() as nat, b),
                ) ==> seen.contains(b),
            found.len() > 0 ==> found[0].index_spec() == first,
            found.len() == 0 ==> stack.len() == 1 && stack[0].index_spec() == first,
        decreases 2 * (n - seen.len()) + stack.len(),
    {
        proof {
            lemma_bounded_set(seen, n);
        }
        let ghost stack0 = stack@;
        let ghost found0 = found@;
        let ghost seen0 = seen;
        let p = stack.pop().unwrap();
        let ghost px = p.index_spec() as nat;
        found.push(p);
        let next = graph.successors_of(p);
        let mut k: usize = 0;
        proof {
            assert(stack@ =~= stack0.drop_last());
            assert(seen.contains(px));
            assert forall|m: nat| #[trigger] seen.contains(m) implies (exists|i: int|
                0 <= i < found.len() && (#[trigger] found[i]).index_spec() == m) || (exists|j: int|

                0 <= j < stack.len() && (#[trigger] stack[j]).index_spec() == m) by {
                if exists|i: int| 0 <= i < found0.len() && (#[trigger] found0[i]).index_spec() == m {
                    let i = choose|i: int|
                        0 <= i < found0.len() && (#[trigger] found0[i]).index_spec() == m;
                    assert(found[i].index_spec() == m);
                } else {
                    let j = choose|j: int|
                        0 <= j < stack0.len() && (#[trigger] stack0[j]).index_spec() == m;
                    if j == stack0.len() - 1 {
                        assert(found[found.len() - 1].index_spec() == m);
                    } else {
                        assert(stack[j].index_spec() == m);
                    }
                }
            }
        }
        while k < next.len()
            invariant
                k <= next.len(),
                graph.consistent(),
                n == graph.node_count(),
                edges == graph.edge_pairs(),
                goal == reachable(edges, first),
                px == p.index_spec(),
                found@ == found0.push(p),
                seen0.subset_of(seen),
                seen.subset_of(below(n)),
                seen.subset_of(goal),
                seen.contains(first),
                seen.contains(px),
                stack.len() >= stack0.len() - 1,
                stack0.len() > 0,
                seen.len() - seen0.len() == stack.len() - (stack0.len() - 1),
                seen0.finite(),
                seen.finite(),
                forall|i: int| 0 <= i < next.len() ==> (#[trigger] next[i]).index_spec() < n,
                forall|i: int|
                    0 <= i < next.len() ==> edges.contains((px, (#[trigger] next[i]).index_spec() as nat)),
                forall|b: nat|
                    edges.contains((px, b)) ==> exists|i: int|
                        0 <= i < next.len() && (#[trigger] next[i]).index_spec() == b,
                forall|x: usize| visited@.contains(x) <==> seen.contains(x as nat),
                forall|i: int|
                    0 <= i < found.len() ==> seen.contains((#[trigger] found[i]).index_spec() as nat),
                forall|i: int|
                    0 <= i < stack.len() ==> seen.contains((#[trigger] stack[i]).index_spec() as nat),
                forall|i: int, j: int|
                    0 <= i < j < found.len() ==> (#[trigger] found[i]).index_spec() != (
                    #[trigger] found[j]).index_spec(),
                forall|i: int, j: int|
                    0 <= i < j < stack.len() ==> (#[trigger] stack[i]).index_spec() != (
                    #[trigger] stack[j]).index_spec(),
                forall|i: int, j: int|
                    0 <= i < found.len() && 0 <= j < stack.len() ==> (
                    #[trigger] found[i]).index_spec() != (#[trigger] stack[j]).index_spec(),
                forall|m: nat| #[trigger]
                    seen.contains(m) ==> (exists|i: int|
                        0 <= i < found.len() && (#[trigger] found[i]).index_spec() == m) || (
                    exists|j: int| 0 <= j < stack.len() && (#[trigger] stack[j]).index_spec() == m),
                forall|i: int, b: nat|
                    0 <= i < found0.len() && #[trigger] edges.contains(
                        ((#[trigger] found0[i]).index_spec() as nat, b),
                    ) ==> seen.contains(b),
                forall|i: int|
                    0 <= i < k ==> seen.contains((#[trigger] next[i]).index_spec() as nat),
            decreases next.len() - k,
        {
            let s = next[k];
            let ghost sx = s.index_spec() as nat;
            let ghost stack1 = stack@;
            let ghost seen1 = seen;
            if set_insert(&mut visited, s.index()) {
                stack.push(s);
                proof {
                    lemma_reach_via_step(edges, Set::full(), first, px, sx);
                    seen = seen.insert(sx);
                    assert forall|m: nat| #[trigger] seen.contains(m) implies (exists|i: int|
                        0 <= i < found.len() && (#[trigger] found[i]).index_spec() == m) || (
                    exists|j: int| 0 <= j < stack.len() && (#[trigger] stack[j]).index_spec() == m) by {
                        if m == sx {
                            assert(stack[stack.len() - 1].index_spec() == m);
                        } else if !exists|i: int|
                            0 <= i < found.len() && (#[trigger] found[i]).index_spec() == m {
                            let j = choose|j: int|
                                0 <= j < stack1.len() && (#[trigger] stack1[j]).index_spec() == m;
                            assert(stack[j].index_spec() == m);
                        }
                    }
                    assert forall|i: int, j: int| 0 <= i < j < stack.len() implies (
                    #[trigger] stack[i]).index_spec() != (#[trigger] stack[j]).index_spec() by {
                        if j == stack.len() - 1 {
                            assert(stack[i] == stack1[i]);
                            assert(seen1.contains(stack1[i].index_spec() as nat));
                        } else {
                            assert(stack[i] == stack1[i] && stack[j] == stack1[j]);
                        }
                    }
                    assert forall|i: int| 0 <= i < stack.len() implies seen.contains(
                        (#[trigger] stack[i]).index_spec() as nat,
                    ) by {
                        if i < stack1.len() {
                            assert(stack[i] == stack1[i]);
                        }
                    }
                    assert forall|i: int, j: int|
                        0 <= i < found.len() && 0 <= j < stack.len() implies (
                    #[trigger] found[i]).index_spec() != (#[trigger] stack[j]).index_spec() by {
                        if j < stack1.len() {
                            assert(stack[j] == stack1[j]);
                        } else {
                            assert(seen1.contains(found[i].index_spec() as nat));
                        }
                    }
                }
            }
            k += 1;
        }
        proof {
            lemma_bounded_set(seen, n);
            assert forall|i: int, b: nat|
                0 <= i < found.len() && #[trigger] edges.contains(
                    ((#[trigger] found[i]).index_spec() as nat, b),
                ) implies seen.contains(b) by {
                if i < found0.len() {
                    assert(found[i] == found0[i]);
                    assert(edges.contains((found0[i].index_spec() as nat, b)));
                } else {
                    let a = choose|a: int| 0 <= a < next.len() && (#[trigger] next[a]).index_spec() == b;
                    assert(seen.contains(next[a].index_spec() as nat));
                }
            }
            if found0.len() > 0 {
                assert(found[0] == found0[0]);
            }
        }
    }
    proof {
        assert forall|x: nat, y: nat|
            seen.contains(x) && Set::<nat>::full().contains(x) && #[trigger] edges.contains(
                (x, y),
            ) implies seen.contains(y) by {
            let i = choose|i: int| 0 <= i < found.len() && (#[trigger] found[i]).index_spec() == x;
            assert(edges.contains((found[i].index_spec() as nat, y)));
        }
        lemma_reach_via_least(edges, Set::full(), first, seen);
        assert(seen =~= goal);
    }
    found
}

} // verus!
