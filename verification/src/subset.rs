//! The two relations behind one set of operations, as a consumer that
//! tracks which regions are subsets of which uses them: make an empty
//! relation, add an edge, add the edges that another relation has at chosen
//! nodes, delete nodes, and list what is reached from a node.

use crate::bitvec::SparseBitSet;
use crate::graph::{below, without_node};
use crate::idx::{ids, Idx};
use crate::list;
use crate::matrix;
use crate::matrix::{after_removal, restricted};
use crate::reach::{names_each_once, reachable, reachable_from, Graph};
use crate::vec_family::StdVec;
use vstd::prelude::*;

verus! {

/// The relation that is stored as linked lists of edges.
pub struct EdgeSubsetRelation<R: Idx> {
    data: list::Relation<StdVec<R>>,
}

impl<R: Idx> Clone for EdgeSubsetRelation<R> {
    fn clone(&self) -> (r: Self)
        ensures
            r.wf() == self.wf(),
            r.num_regions() == self.num_regions(),
            r.edge_set() == self.edge_set(),
    {
        Self { data: self.data.clone() }
    }
}

impl<R: Idx> EdgeSubsetRelation<R> {
    /// Whether the relation is consistent.
    pub closed spec fn wf(self) -> bool {
        self.data.wf()
    }

    /// The number of nodes.
    pub closed spec fn num_regions(self) -> nat {
        self.data.num_nodes()
    }

    /// The edges of the relation.
    pub closed spec fn edge_set(self) -> Set<(nat, nat)> {
        self.data.edge_set()
    }

    /// A relation on `num_regions` nodes without edges.
    pub fn empty(num_regions: usize) -> (r: Self)
        requires
            forall|v: usize| v < num_regions ==> R::valid(v),
        ensures
            r.wf(),
            r.num_regions() == num_regions,
            r.edge_set() == Set::<(nat, nat)>::empty(),
    {
        Self { data: list::Relation::new(num_regions) }
    }

    /// Deletes the node `r1` and keeps the other nodes connected.
    pub fn kill_region(&mut self, r1: R)
        requires
            old(self).wf(),
            r1.index_spec() < old(self).num_regions(),
        ensures
            final(self).wf(),
            final(self).num_regions() == old(self).num_regions(),
            final(self).edge_set() == without_node(old(self).edge_set(), r1.index_spec() as nat),
    {
        self.data.remove_edges(r1)
    }

    /// Adds the edge from `r1` to `r2`, and says whether it was absent.
    pub fn insert_one(&mut self, r1: R, r2: R) -> (changed: bool)
        requires
            old(self).wf(),
            r1.index_spec() < old(self).num_regions(),
            r2.index_spec() < old(self).num_regions(),
        ensures
            final(self).wf(),
            final(self).num_regions() == old(self).num_regions(),
            final(self).edge_set() == old(self).edge_set().insert(
                (r1.index_spec() as nat, r2.index_spec() as nat),
            ),
            changed == !old(self).edge_set().contains(
                (r1.index_spec() as nat, r2.index_spec() as nat),
            ),
    {
        self.data.add_edge(r1, r2)
    }

    /// Adds the edges that `other` has from the nodes listed in
    /// `live_regions`, and says whether an edge was added.
    pub fn insert_all(&mut self, other: &Self, live_regions: &[R]) -> (changed: bool)
        requires
            old(self).wf(),
            other.wf(),
            other.num_regions() == old(self).num_regions(),
            ids(live_regions@).subset_of(below(old(self).num_regions())),
        ensures
            final(self).wf(),
            final(self).num_regions() == old(self).num_regions(),
            final(self).edge_set() == old(self).edge_set().union(
                restricted(other.edge_set(), ids(live_regions@)),
            ),
            changed == !restricted(other.edge_set(), ids(live_regions@)).subset_of(
                old(self).edge_set(),
            ),
    {
        let ghost e0 = self.edge_set();
        let ghost n = self.num_regions();
        let ghost added: Set<(nat, nat)> = Set::empty();
        let mut changed = false;
        let mut i: usize = 0;
        proof {
            assert(self.edge_set() =~= e0.union(added));
        }
        while i < live_regions.len()
            invariant
                i <= live_regions.len(),
                self.wf(),
                other.wf(),
                self.num_regions() == n,
                other.num_regions() == n,
                ids(live_regions@).subset_of(below(n)),
                self.edge_set() == e0.union(added),
                added.subset_of(restricted(other.edge_set(), ids(live_regions@))),
                forall|k: int, b: nat|
                    0 <= k < i && #[trigger] other.edge_set().contains(
                        ((#[trigger] live_regions[k]).index_spec() as nat, b),
                    ) ==> added.contains((live_regions[k].index_spec() as nat, b)),
                changed == !added.subset_of(e0),
            decreases live_regions.len() - i,
        {
            let r = live_regions[i];
            let ghost a = r.index_spec() as nat;
            proof {
                assert(ids(live_regions@).contains(a));
            }
            let succs = other.data.successors_of(r);
            let mut k: usize = 0;
            proof {
                assert forall|b: nat| other.edge_set().contains((a, b)) implies exists|m: int|
                    0 <= m < succs.len() && (#[trigger] succs[m]).index_spec() == b by {
                    assert(other.data.edge_pairs().contains((r.index_spec() as nat, b)));
                }
            }
            while k < succs.len()
                invariant
                    k <= succs.len(),
                    i < live_regions.len(),
                    r == live_regions[i as int],
                    a == r.index_spec(),
                    a < n,
                    self.wf(),
                    other.wf(),
                    self.num_regions() == n,
                    other.num_regions() == n,
                    ids(live_regions@).contains(a),
                    self.edge_set() == e0.union(added),
                    added.subset_of(restricted(other.edge_set(), ids(live_regions@))),
                    forall|j: int| 0 <= j < succs.len() ==> (#[trigger] succs[j]).index_spec() < n,
                    forall|j: int|
                        0 <= j < succs.len() ==> other.edge_set().contains(
                            (a, (#[trigger] succs[j]).index_spec() as nat),
                        ),
                    forall|j: int|
                        0 <= j < k ==> added.contains((a, (#[trigger] succs[j]).index_spec() as nat)),
                    forall|b: nat|
                        other.edge_set().contains((a, b)) ==> exists|m: int|
                            0 <= m < succs.len() && (#[trigger] succs[m]).index_spec() == b,
                    forall|j: int, b: nat|
                        0 <= j < i && #[trigger] other.edge_set().contains(
                            ((#[trigger] live_regions[j]).index_spec() as nat, b),
                        ) ==> added.contains((live_regions[j].index_spec() as nat, b)),
                    changed == !added.subset_of(e0),
                decreases succs.len() - k,
            {
                let succ_r = succs[k];
                let ghost pair = (a, succ_r.index_spec() as nat);
                let ghost was = added;
                let grew = self.data.add_edge(r, succ_r);
                changed = changed || grew;
                proof {
                    added = added.insert(pair);
                    assert(self.edge_set() =~= e0.union(added));
                    if grew {
                        assert(added.contains(pair) && !e0.contains(pair));
                    } else if !changed {
                        assert(e0.union(was).contains(pair));
                        assert forall|e: (nat, nat)| added.contains(e) implies e0.contains(e) by {
                            if e != pair {
                                assert(was.contains(e));
                            }
                        }
                    }
                    if changed && !grew {
                        let e = choose|e: (nat, nat)| was.contains(e) && !e0.contains(e);
                        assert(added.contains(e));
                    }
                }
                k += 1;
            }
            proof {
                assert forall|j: int, b: nat|
                    0 <= j < i + 1 && #[trigger] other.edge_set().contains(
                        ((#[trigger] live_regions[j]).index_spec() as nat, b),
                    ) implies added.contains((live_regions[j].index_spec() as nat, b)) by {
                    if j == i {
                        let m = choose|m: int|
                            0 <= m < succs.len() && (#[trigger] succs[m]).index_spec() == b;
                        assert(added.contains((a, succs[m].index_spec() as nat)));
                    }
                }
            }
            i += 1;
        }
        proof {
            assert forall|e: (nat, nat)|
                restricted(other.edge_set(), ids(live_regions@)).contains(e) implies added.contains(
                e,
            ) by {
                let k = choose|k: int|
                    0 <= k < live_regions.len() && (#[trigger] live_regions[k]).index_spec() == e.0;
                assert(other.edge_set().contains((live_regions[k].index_spec() as nat, e.1)));
            }
            assert(added =~= restricted(other.edge_set(), ids(live_regions@)));
        }
        changed
    }

    /// The nodes that are reached from `r1`, each once, `r1` first.
    pub fn for_each_reachable(&self, r1: R) -> (found: Vec<R>)
        requires
            self.wf(),
            r1.index_spec() < self.num_regions(),
        ensures
            names_each_once(found@, reachable(self.edge_set(), r1.index_spec() as nat)),
            found.len() > 0,
            found[0].index_spec() == r1.index_spec(),
    {
        reachable_from(&self.data, r1)
    }
}

/// The relation that is stored as a matrix of bits.
pub struct MatrixRelation<R: Idx> {
    data: matrix::Relation<R>,
}

impl<R: Idx> Clone for MatrixRelation<R> {
    fn clone(&self) -> (r: Self)
        ensures
            r.wf() == self.wf(),
            r.num_regions() == self.num_regions(),
            r.edge_set() == self.edge_set(),
    {
        Self { data: self.data.clone() }
    }
}

impl<R: Idx> MatrixRelation<R> {
    /// Whether the relation is consistent.
    pub closed spec fn wf(self) -> bool {
        self.data.wf()
    }

    /// The number of nodes.
    pub closed spec fn num_regions(self) -> nat {
        self.data.num_nodes()
    }

    /// The edges of the relation.
    pub closed spec fn edge_set(self) -> Set<(nat, nat)> {
        self.data.edge_set()
    }

    /// A relation on `num_regions` nodes without edges.
    pub fn empty(num_regions: usize) -> (r: Self)
        requires
            R::valid(num_regions),
            num_regions / 128 <= u32::MAX,
        ensures
            r.wf(),
            r.num_regions() == num_regions,
            r.edge_set() == Set::<(nat, nat)>::empty(),
    {
        Self { data: matrix::Relation::new(num_regions) }
    }

    /// Deletes the nodes of `dead_regions` and keeps the nodes listed in
    /// `live_regions` connected.
    pub fn kill_region(&mut self, live_regions: &[R], dead_regions: &SparseBitSet<R>)
        requires
            old(self).wf(),
            dead_regions.wf(),
            dead_regions@.subset_of(below(old(self).num_regions())),
            ids(live_regions@).subset_of(below(old(self).num_regions())),
            ids(live_regions@).disjoint(dead_regions@),
        ensures
            final(self).wf(),
            final(self).num_regions() == old(self).num_regions(),
            final(self).edge_set() == after_removal(
                old(self).edge_set(),
                ids(live_regions@),
                dead_regions@,
            ),
    {
        self.data.remove_dead_nodes(live_regions, dead_regions)
    }

    /// Adds the edge from `r1` to `r2`, and says whether it was absent.
    pub fn insert_one(&mut self, r1: R, r2: R) -> (changed: bool)
        requires
            old(self).wf(),
            r1.index_spec() < old(self).num_regions(),
            r2.index_spec() < old(self).num_regions(),
        ensures
            final(self).wf(),
            final(self).num_regions() == old(self).num_regions(),
            final(self).edge_set() == old(self).edge_set().insert(
                (r1.index_spec() as nat, r2.index_spec() as nat),
            ),
            changed == !old(self).edge_set().contains(
                (r1.index_spec() as nat, r2.index_spec() as nat),
            ),
    {
        self.data.add_edge(r1, r2)
    }

    /// Adds the edges that `other` has from the nodes listed in
    /// `live_regions`, and says whether an edge was added.
    pub fn insert_all(&mut self, other: &Self, live_regions: &[R]) -> (changed: bool)
        requires
            old(self).wf(),
            other.wf(),
            other.num_regions() == old(self).num_regions(),
            ids(live_regions@).subset_of(below(old(self).num_regions())),
        ensures
            final(self).wf(),
            final(self).num_regions() == old(self).num_regions(),
            final(self).edge_set() == old(self).edge_set().union(
                restricted(other.edge_set(), ids(live_regions@)),
            ),
            changed == !restricted(other.edge_set(), ids(live_regions@)).subset_of(
                old(self).edge_set(),
            ),
    {
        self.data.add_rows(&other.data, live_regions)
    }

    /// The nodes that are reached from `r1`, each once, `r1` first.
    pub fn for_each_reachable(&self, r1: R) -> (found: Vec<R>)
        requires
            self.wf(),
            r1.index_spec() < self.num_regions(),
        ensures
            names_each_once(found@, reachable(self.edge_set(), r1.index_spec() as nat)),
            found.len() > 0,
            found[0].index_spec() == r1.index_spec(),
    {
        reachable_from(&self.data, r1)
    }
}

} // verus!
