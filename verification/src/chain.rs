//! The state of a list relation as plain sequences, what it means for such
//! a state to be consistent, and the steps that change it.

use crate::indices::{Direction, EdgeIndex, Indices, NodeIndex};
use crate::list::{EdgeData, NodeData};
use crate::text::decimal_text;
use crate::vec_family::IndexType;
use vstd::prelude::*;

verus! {

/// The position that an optional edge identifier stands for.
pub open spec fn id_of(edge: Option<EdgeIndex>) -> Option<int> {
    match edge {
        Some(e) => Some(e.index_spec() as int),
        None => None,
    }
}

/// The identifier of the edge slot at position `k`.
pub open spec fn slot_at(k: int) -> EdgeIndex {
    choose|e: EdgeIndex| e.index_spec() == k
}

/// The identifier of the node at position `k`.
pub open spec fn node_at(k: int) -> NodeIndex {
    choose|v: NodeIndex| v.index_spec() == k
}

/// An identifier is the identifier of its position.
pub proof fn lemma_slot_at(e: EdgeIndex)
    ensures
        slot_at(e.index_spec() as int) == e,
{
    EdgeIndex::index_is_injective(slot_at(e.index_spec() as int), e);
}

/// An identifier is the identifier of its position.
pub proof fn lemma_node_at(v: NodeIndex)
    ensures
        node_at(v.index_spec() as int) == v,
{
    NodeIndex::index_is_injective(node_at(v.index_spec() as int), v);
}

/// The entry of `list` at position `i`, or none behind its end.
pub open spec fn link(list: Seq<int>, i: int) -> Option<int> {
    if 0 <= i < list.len() {
        Some(list[i])
    } else {
        None
    }
}

/// A sequence without duplicates from which one entry is taken out.
pub proof fn lemma_remove(l: Seq<int>, k: int)
    requires
        l.no_duplicates(),
        0 <= k < l.len(),
    ensures
        l.remove(k).len() == l.len() - 1,
        l.remove(k).no_duplicates(),
        forall|y: int| #[trigger] l.remove(k).contains(y) <==> l.contains(y) && y != l[k],
        forall|i: int| 0 <= i < k ==> #[trigger] l.remove(k)[i] == l[i],
        forall|i: int| k <= i < l.len() - 1 ==> #[trigger] l.remove(k)[i] == l[i + 1],
{
    let r = l.remove(k);
    assert forall|y: int| #[trigger] r.contains(y) <==> l.contains(y) && y != l[k] by {
        if r.contains(y) {
            let i = choose|i: int| 0 <= i < r.len() && r[i] == y;
            if i < k {
                assert(l[i] == y);
            } else {
                assert(l[i + 1] == y);
            }
        }
        if l.contains(y) && y != l[k] {
            let i = choose|i: int| 0 <= i < l.len() && l[i] == y;
            if i < k {
                assert(r[i] == y);
            } else {
                assert(r[i - 1] == y);
            }
        }
    }
}

/// A sequence without duplicates in front of which a new entry is put.
pub proof fn lemma_push_front(l: Seq<int>, x: int)
    requires
        l.no_duplicates(),
        !l.contains(x),
    ensures
        (seq![x] + l).len() == l.len() + 1,
        (seq![x] + l).no_duplicates(),
        forall|y: int| #[trigger] (seq![x] + l).contains(y) <==> l.contains(y) || y == x,
        (seq![x] + l)[0] == x,
        forall|i: int| 0 <= i < l.len() ==> #[trigger] (seq![x] + l)[i + 1] == l[i],
{
    let r = seq![x] + l;
    assert forall|y: int| #[trigger] r.contains(y) <==> l.contains(y) || y == x by {
        if r.contains(y) {
            let i = choose|i: int| 0 <= i < r.len() && r[i] == y;
            if i > 0 {
                assert(l[i - 1] == y);
            }
        }
        if l.contains(y) {
            let i = choose|i: int| 0 <= i < l.len() && l[i] == y;
            assert(r[i + 1] == y);
        }
        if y == x {
            assert(r[0] == y);
        }
    }
    assert forall|i: int, j: int| 0 <= i < r.len() && 0 <= j < r.len() && i != j implies r[i]
        != r[j] by {
        if i > 0 && j > 0 {
            assert(l[i - 1] != l[j - 1]);
        } else if i > 0 {
            assert(l.contains(l[i - 1]));
        } else {
            assert(l.contains(l[j - 1]));
        }
    }
}

/// The lists that the pointers of a relation spell out: for each node the
/// edge slots on the list of its outgoing edges and on the list of its
/// incoming edges, and the edge slots on the free list, each list from its
/// first entry on.
pub struct Lists {
    pub outgoing: Seq<Seq<int>>,
    pub incoming: Seq<Seq<int>>,
    pub free: Seq<int>,
}

impl Lists {
    /// The list of node `v` for `direction`.
    pub open spec fn at(self, v: int, direction: Direction) -> Seq<int> {
        match direction {
            Direction::Outgoing => self.outgoing[v],
            Direction::Incoming => self.incoming[v],
        }
    }

    /// The lists with `list` as the list of node `v` for `direction`.
    pub open spec fn with(self, v: int, direction: Direction, list: Seq<int>) -> Lists {
        match direction {
            Direction::Outgoing => Lists {
                outgoing: self.outgoing.update(v, list),
                incoming: self.incoming,
                free: self.free,
            },
            Direction::Incoming => Lists {
                outgoing: self.outgoing,
                incoming: self.incoming.update(v, list),
                free: self.free,
            },
        }
    }

    /// The lists with `free` as the free list.
    pub open spec fn with_free(self, free: Seq<int>) -> Lists {
        Lists { outgoing: self.outgoing, incoming: self.incoming, free }
    }
}

/// All that a list relation holds.
pub struct State {
    pub nodes: Seq<NodeData>,
    pub edges: Seq<EdgeData>,
    pub free_head: Option<EdgeIndex>,
    pub lists: Lists,
}

impl State {
    /// The number of nodes.
    pub open spec fn n(self) -> int {
        self.nodes.len() as int
    }

    /// The number of edge slots.
    pub open spec fn slots(self) -> int {
        self.edges.len() as int
    }

    /// The source of the edge in slot `e`.
    pub open spec fn pred(self, e: int) -> int {
        self.edges[e].nodes.incoming.index_spec() as int
    }

    /// The target of the edge in slot `e`.
    pub open spec fn succ(self, e: int) -> int {
        self.edges[e].nodes.outgoing.index_spec() as int
    }

    /// The node on whose list for `direction` the edge in slot `e` belongs:
    /// its source for the outgoing direction, its target for the incoming
    /// one.
    pub open spec fn owner(self, e: int, direction: Direction) -> int {
        match direction {
            Direction::Outgoing => self.pred(e),
            Direction::Incoming => self.succ(e),
        }
    }

    /// The slot that follows slot `e` on its list for `direction`.
    pub open spec fn next(self, e: int, direction: Direction) -> Option<int> {
        id_of(self.edges[e].next_edges.at(direction))
    }

    /// The first slot on the list of node `v` for `direction`.
    pub open spec fn first(self, v: int, direction: Direction) -> Option<int> {
        id_of(self.nodes[v].first_edges.at(direction))
    }

    /// The list of node `v` for `direction`.
    pub open spec fn list(self, v: int, direction: Direction) -> Seq<int> {
        self.lists.at(v, direction)
    }

    /// The entry at position `i` of the list of node `v` for `direction` is
    /// a slot that belongs there, is not free, and points to the entry
    /// behind it.
    pub open spec fn entry_ok(self, v: int, direction: Direction, i: int) -> bool {
        let l = self.list(v, direction);
        &&& 0 <= l[i] < self.slots()
        &&& self.owner(l[i], direction) == v
        &&& self.next(l[i], direction) == link(l, i + 1)
        &&& !self.lists.free.contains(l[i])
    }

    /// The list of node `v` for `direction` is what the pointers spell out.
    pub open spec fn chain_ok(self, v: int, direction: Direction) -> bool {
        let l = self.list(v, direction);
        &&& l.no_duplicates()
        &&& self.first(v, direction) == link(l, 0)
        &&& forall|i: int| 0 <= i < l.len() ==> #[trigger] self.entry_ok(v, direction, i)
    }

    /// The entry at position `i` of the free list is a slot that points to
    /// the entry behind it.
    pub open spec fn free_entry_ok(self, i: int) -> bool {
        let f = self.lists.free;
        &&& 0 <= f[i] < self.slots()
        &&& self.next(f[i], Direction::Outgoing) == link(f, i + 1)
    }

    /// The free list is what the pointers spell out.
    pub open spec fn free_ok(self) -> bool {
        let f = self.lists.free;
        &&& f.no_duplicates()
        &&& id_of(self.free_head) == link(f, 0)
        &&& forall|i: int| 0 <= i < f.len() ==> #[trigger] self.free_entry_ok(i)
    }

    /// Every list is what the pointers spell out.
    pub open spec fn chained(self) -> bool {
        &&& self.lists.outgoing.len() == self.n()
        &&& self.lists.incoming.len() == self.n()
        &&& forall|v: int, direction: Direction|
            0 <= v < self.n() ==> #[trigger] self.chain_ok(v, direction)
        &&& self.free_ok()
    }

    /// Whether slot `e` holds an edge.
    pub open spec fn active(self, e: int) -> bool {
        0 <= e < self.slots() && !self.lists.free.contains(e)
    }

    /// The edge in slot `e` joins two nodes and is on the lists of both.
    pub open spec fn linked(self, e: int) -> bool {
        &&& 0 <= self.pred(e) < self.n()
        &&& 0 <= self.succ(e) < self.n()
        &&& self.lists.outgoing[self.pred(e)].contains(e)
        &&& self.lists.incoming[self.succ(e)].contains(e)
    }

    /// The slots `a` and `b` hold different edges.
    pub open spec fn differ(self, a: int, b: int) -> bool {
        self.pred(a) != self.pred(b) || self.succ(a) != self.succ(b)
    }

    /// The state is consistent but for the slots in `x`: every list is what
    /// the pointers spell out, every slot outside `x` is free or holds an
    /// edge that is on the lists of its two ends, and no two of the latter
    /// hold the same edge.
    pub open spec fn full_except(self, x: Set<int>) -> bool {
        &&& self.chained()
        &&& forall|e: int| #[trigger] self.active(e) && !x.contains(e) ==> self.linked(e)
        &&& forall|a: int, b: int|
            self.active(a) && self.active(b) && !x.contains(a) && !x.contains(b) && a != b
                ==> #[trigger] self.differ(a, b)
    }

    /// The state is consistent.
    pub open spec fn full(self) -> bool {
        self.full_except(Set::empty())
    }

    /// The edges that the slots outside `x` hold.
    pub open spec fn edges_except(self, x: Set<int>) -> Set<(nat, nat)> {
        Set::new(
            |p: (nat, nat)|
                exists|e: int|
                    #[trigger] self.active(e) && !x.contains(e) && self.pred(e) == p.0
                        && self.succ(e) == p.1,
        )
    }

    /// The edges of the relation.
    pub open spec fn edge_set(self) -> Set<(nat, nat)> {
        self.edges_except(Set::empty())
    }

    /// A slot is on the list of its owner only.
    pub proof fn lemma_on_own_list(self, v: int, direction: Direction, e: int)
        requires
            self.chained(),
            0 <= v < self.n(),
            self.list(v, direction).contains(e),
        ensures
            0 <= e < self.slots(),
            self.owner(e, direction) == v,
            !self.lists.free.contains(e),
    {
        let l = self.list(v, direction);
        let i = choose|i: int| 0 <= i < l.len() && l[i] == e;
        assert(self.chain_ok(v, direction));
        assert(self.entry_ok(v, direction, i));
    }

    /// The state in which slot `e` is taken off the list of node `v` for
    /// `direction`: the pointer that led to it leads to what followed it.
    pub open spec fn unlinked(self, v: int, direction: Direction, e: EdgeIndex) -> State {
        let l = self.list(v, direction);
        let k = l.index_of(e.index_spec() as int);
        let follows = self.edges[e.index_spec() as int].next_edges.at(direction);
        let lists = self.lists.with(v, direction, l.remove(k));
        if k == 0 {
            State {
                nodes: self.nodes.update(
                    v,
                    NodeData { first_edges: self.nodes[v].first_edges.with(direction, follows) },
                ),
                edges: self.edges,
                free_head: self.free_head,
                lists,
            }
        } else {
            State {
                nodes: self.nodes,
                edges: self.edges.update(
                    l[k - 1],
                    EdgeData {
                        nodes: self.edges[l[k - 1]].nodes,
                        next_edges: self.edges[l[k - 1]].next_edges.with(direction, follows),
                    },
                ),
                free_head: self.free_head,
                lists,
            }
        }
    }

    /// Taking a slot of `x` off a list keeps the state consistent but for
    /// `x`. The ends of the edges stay as they are.
    pub proof fn lemma_unlinked(self, v: int, direction: Direction, e: EdgeIndex, x: Set<int>)
        requires
            self.full_except(x),
            0 <= v < self.n(),
            self.list(v, direction).contains(e.index_spec() as int),
            x.contains(e.index_spec() as int),
        ensures
            self.unlinked(v, direction, e).full_except(x),
            self.unlinked(v, direction, e).n() == self.n(),
            self.unlinked(v, direction, e).slots() == self.slots(),
            self.unlinked(v, direction, e).lists.free == self.lists.free,
            forall|a: int|
                0 <= a < self.slots() ==> (#[trigger] self.unlinked(v, direction, e).edges[a]).nodes
                    == self.edges[a].nodes,
            self.unlinked(v, direction, e).edges_except(x) == self.edges_except(x),
            self.unlinked(v, direction, e).edges[e.index_spec() as int]
                == self.edges[e.index_spec() as int],
            forall|a: int| self.unlinked(v, direction, e).active(a) <==> self.active(a),
            forall|w: int, d: Direction|
                0 <= w < self.n() && !(w == v && d == direction) ==> #[trigger] self.unlinked(
                    v,
                    direction,
                    e,
                ).list(w, d) == self.list(w, d),
            forall|y: int| #[trigger]
                self.unlinked(v, direction, e).list(v, direction).contains(y) <==> self.list(
                    v,
                    direction,
                ).contains(y) && y != e.index_spec(),
            self.unlinked(v, direction, e).list(v, direction) == self.list(v, direction).remove(
                self.list(v, direction).index_of(e.index_spec() as int),
            ),
    {
        let t = self.unlinked(v, direction, e);
        let ei = e.index_spec() as int;
        let l = self.list(v, direction);
        let k = l.index_of(ei);
        let r = l.remove(k);
        assert(self.chain_ok(v, direction));
        assert(0 <= k < l.len() && l[k] == ei);
        lemma_remove(l, k);
        assert(self.entry_ok(v, direction, k));
        if k > 0 {
            assert(self.entry_ok(v, direction, k - 1));
        }
        assert(t.list(v, direction) == r);
        // the lists of the other nodes and directions
        assert forall|w: int, d: Direction|
            0 <= w < self.n() && !(w == v && d == direction) implies #[trigger] t.list(w, d)
            == self.list(w, d) by {}
        // every chain is still spelled out
        assert forall|w: int, d: Direction| 0 <= w < t.n() implies #[trigger] t.chain_ok(w, d) by {
            assert(self.chain_ok(w, d));
            let lw = t.list(w, d);
            if w == v && d == direction {
                assert forall|i: int| 0 <= i < lw.len() implies #[trigger] t.entry_ok(w, d, i) by {
                    if i < k {
                        assert(self.entry_ok(v, direction, i));
                        assert(lw[i] == l[i]);
                        if i + 1 < k {
                            assert(lw[i + 1] == l[i + 1]);
                        } else if i + 1 < lw.len() {
                            assert(lw[i + 1] == l[i + 2]);
                        }
                    } else {
                        assert(self.entry_ok(v, direction, i + 1));
                        assert(lw[i] == l[i + 1]);
                        if i + 1 < lw.len() {
                            assert(lw[i + 1] == l[i + 2]);
                        }
                        if k > 0 {
                            assert(l[i + 1] != l[k - 1]);
                        }
                    }
                }
                if k == 0 {
                    if lw.len() > 0 {
                        assert(lw[0] == l[1]);
                    }
                } else {
                    assert(lw[0] == l[0]);
                }
            } else {
                assert(lw == self.list(w, d));
                assert forall|i: int| 0 <= i < lw.len() implies #[trigger] t.entry_ok(w, d, i) by {
                    assert(self.entry_ok(w, d, i));
                    if k > 0 && lw[i] == l[k - 1] {
                        // the patched slot sits on this list too, in the other direction
                        assert(d != direction || w != v);
                        if d == direction {
                            assert(self.owner(lw[i], d) == w);
                            assert(self.owner(l[k - 1], direction) == v);
                        }
                    }
                }
            }
        }
        assert(t.free_ok()) by {
            assert(self.free_ok());
            assert forall|i: int| 0 <= i < t.lists.free.len() implies #[trigger] t.free_entry_ok(
                i,
            ) by {
                assert(self.free_entry_ok(i));
                if k > 0 {
                    assert(!self.lists.free.contains(l[k - 1]));
                }
            }
        }
        assert(t.chained());
        assert forall|a: int| #[trigger] t.active(a) && !x.contains(a) implies t.linked(a) by {
            assert(self.active(a));
            assert(self.linked(a));
        }
        assert forall|a: int, b: int|
            t.active(a) && t.active(b) && !x.contains(a) && !x.contains(b) && a
                != b implies #[trigger] t.differ(a, b) by {
            assert(self.active(a) && self.active(b));
            assert(self.differ(a, b));
        }
        assert forall|p: (nat, nat)| t.edges_except(x).contains(p) == self.edges_except(
            x,
        ).contains(p) by {
            if t.edges_except(x).contains(p) {
                let a = choose|a: int|
                    #[trigger] t.active(a) && !x.contains(a) && t.pred(a) == p.0 && t.succ(a)
                        == p.1;
                assert(self.active(a));
            }
            if self.edges_except(x).contains(p) {
                let a = choose|a: int|
                    #[trigger] self.active(a) && !x.contains(a) && self.pred(a) == p.0
                        && self.succ(a) == p.1;
                assert(t.active(a));
            }
        }
        assert(t.edges_except(x) =~= self.edges_except(x));
    }

    /// Whether slot `e` is on no list at all.
    pub open spec fn detached(self, e: int) -> bool {
        &&& 0 <= e < self.slots()
        &&& !self.lists.free.contains(e)
        &&& forall|v: int, d: Direction|
            0 <= v < self.n() ==> !(#[trigger] self.list(v, d)).contains(e)
    }

    /// Whether slot `e` is on no list for `direction`.
    pub open spec fn off_lists(self, e: int, direction: Direction) -> bool {
        &&& 0 <= e < self.slots()
        &&& !self.lists.free.contains(e)
        &&& forall|v: int| 0 <= v < self.n() ==> !(#[trigger] self.list(v, direction)).contains(e)
    }

    /// The state in which slot `e` is put in front of the free list.
    pub open spec fn freed(self, e: EdgeIndex) -> State {
        let ei = e.index_spec() as int;
        State {
            nodes: self.nodes,
            edges: self.edges.update(
                ei,
                EdgeData {
                    nodes: self.edges[ei].nodes,
                    next_edges: self.edges[ei].next_edges.with(Direction::Outgoing, self.free_head),
                },
            ),
            free_head: Some(e),
            lists: self.lists.with_free(seq![ei] + self.lists.free),
        }
    }

    /// Putting a slot that is on no list in front of the free list keeps the
    /// state consistent; the slot need not be excepted any more.
    pub proof fn lemma_freed(self, e: EdgeIndex, x: Set<int>)
        requires
            self.full_except(x),
            self.detached(e.index_spec() as int),
        ensures
            self.freed(e).full_except(x.remove(e.index_spec() as int)),
            self.freed(e).n() == self.n(),
            self.freed(e).slots() == self.slots(),
            self.freed(e).lists.outgoing == self.lists.outgoing,
            self.freed(e).lists.incoming == self.lists.incoming,
            self.freed(e).lists.free == seq![e.index_spec() as int] + self.lists.free,
            forall|a: int|
                a != e.index_spec() ==> (#[trigger] self.freed(e).active(a) <==> self.active(a)),
            !self.freed(e).active(e.index_spec() as int),
            forall|a: int|
                0 <= a < self.slots() ==> (#[trigger] self.freed(e).edges[a]).nodes
                    == self.edges[a].nodes,
            self.freed(e).edges_except(x.remove(e.index_spec() as int)) == self.edges_except(
                x.insert(e.index_spec() as int),
            ),
    {
        let t = self.freed(e);
        let ei = e.index_spec() as int;
        let y = x.remove(ei);
        lemma_push_front(self.lists.free, ei);
        assert forall|w: int, d: Direction| 0 <= w < t.n() implies #[trigger] t.chain_ok(w, d) by {
            assert(self.chain_ok(w, d));
            assert(!self.list(w, d).contains(ei));
            assert forall|i: int| 0 <= i < t.list(w, d).len() implies #[trigger] t.entry_ok(
                w,
                d,
                i,
            ) by {
                assert(self.entry_ok(w, d, i));
                assert(self.list(w, d).contains(self.list(w, d)[i]));
            }
        }
        assert(t.free_ok()) by {
            assert(self.free_ok());
            assert forall|i: int| 0 <= i < t.lists.free.len() implies #[trigger] t.free_entry_ok(
                i,
            ) by {
                if i > 0 {
                    assert(self.free_entry_ok(i - 1));
                    assert(t.lists.free[i] == self.lists.free[i - 1]);
                    assert(self.lists.free.contains(self.lists.free[i - 1]));
                    if i < t.lists.free.len() - 1 {
                        assert(t.lists.free[i + 1] == self.lists.free[i]);
                    }
                } else {
                    if self.lists.free.len() > 0 {
                        assert(t.lists.free[1] == self.lists.free[0]);
                    }
                }
            }
        }
        assert forall|a: int| #[trigger] t.active(a) && !y.contains(a) implies t.linked(a) by {
            assert(self.active(a));
            assert(self.linked(a));
        }
        assert forall|a: int, b: int|
            t.active(a) && t.active(b) && !y.contains(a) && !y.contains(b) && a
                != b implies #[trigger] t.differ(a, b) by {
            assert(self.active(a) && self.active(b));
            assert(self.differ(a, b));
        }
        let z = x.insert(ei);
        assert forall|p: (nat, nat)| t.edges_except(y).contains(p) == self.edges_except(
            z,
        ).contains(p) by {
            if t.edges_except(y).contains(p) {
                let a = choose|a: int|
                    #[trigger] t.active(a) && !y.contains(a) && t.pred(a) == p.0 && t.succ(a)
                        == p.1;
                assert(self.active(a));
            }
            if self.edges_except(z).contains(p) {
                let a = choose|a: int|
                    #[trigger] self.active(a) && !z.contains(a) && self.pred(a) == p.0
                        && self.succ(a) == p.1;
                assert(t.active(a));
            }
        }
        assert(t.edges_except(y) =~= self.edges_except(z));
    }

    /// The slot that the next new edge is put in: the first of the free
    /// list, or a new slot behind the last one.
    pub open spec fn next_slot(self) -> int {
        if self.lists.free.len() > 0 {
            self.lists.free[0]
        } else {
            self.slots()
        }
    }

    /// The state in which the slot `e`, which is `next_slot`, is taken and
    /// holds `data`.
    pub open spec fn took(self, e: EdgeIndex, data: EdgeData) -> State {
        let ei = e.index_spec() as int;
        if self.lists.free.len() > 0 {
            State {
                nodes: self.nodes,
                edges: self.edges.update(ei, data),
                free_head: self.edges[ei].next_edges.outgoing,
                lists: self.lists.with_free(self.lists.free.drop_first()),
            }
        } else {
            State {
                nodes: self.nodes,
                edges: self.edges.push(data),
                free_head: self.free_head,
                lists: self.lists,
            }
        }
    }

    /// Taking the next slot keeps the state consistent but for that slot,
    /// which is then on no list.
    pub proof fn lemma_took(self, e: EdgeIndex, data: EdgeData, x: Set<int>)
        requires
            self.full_except(x),
            e.index_spec() == self.next_slot(),
            forall|a: int| x.contains(a) ==> 0 <= a < self.slots(),
        ensures
            self.took(e, data).full_except(x.insert(e.index_spec() as int)),
            self.took(e, data).detached(e.index_spec() as int),
            self.took(e, data).n() == self.n(),
            self.took(e, data).nodes == self.nodes,
            self.took(e, data).slots() >= self.slots(),
            self.took(e, data).lists.outgoing == self.lists.outgoing,
            self.took(e, data).lists.incoming == self.lists.incoming,
            self.took(e, data).edges[e.index_spec() as int] == data,
            forall|a: int|
                0 <= a < self.slots() && a != e.index_spec() ==> #[trigger] self.took(
                    e,
                    data,
                ).edges[a] == self.edges[a],
            forall|a: int|
                a != e.index_spec() ==> (#[trigger] self.took(e, data).active(a) <==> self.active(
                    a,
                )),
            self.took(e, data).edges_except(x.insert(e.index_spec() as int)) == self.edges_except(
                x,
            ),
    {
        let t = self.took(e, data);
        let ei = e.index_spec() as int;
        let y = x.insert(ei);
        let f = self.lists.free;
        assert(self.free_ok());
        if f.len() > 0 {
            assert(self.free_entry_ok(0));
            assert(f.contains(f[0]));
            assert forall|a: int| f.drop_first().contains(a) <==> f.contains(a) && a != ei by {
                if f.drop_first().contains(a) {
                    let i = choose|i: int| 0 <= i < f.drop_first().len() && f.drop_first()[i] == a;
                    assert(f[i + 1] == a);
                }
                if f.contains(a) && a != ei {
                    let i = choose|i: int| 0 <= i < f.len() && f[i] == a;
                    assert(f.drop_first()[i - 1] == a);
                }
            }
            assert(t.free_ok()) by {
                assert forall|i: int|
                    0 <= i < t.lists.free.len() implies #[trigger] t.free_entry_ok(i) by {
                    assert(self.free_entry_ok(i + 1));
                    assert(t.lists.free[i] == f[i + 1]);
                    if i + 1 < t.lists.free.len() {
                        assert(t.lists.free[i + 1] == f[i + 2]);
                    }
                }
                if t.lists.free.len() > 0 {
                    assert(t.lists.free[0] == f[1]);
                }
            }
        } else {
            assert(t.free_ok()) by {
                assert forall|i: int|
                    0 <= i < t.lists.free.len() implies #[trigger] t.free_entry_ok(i) by {
                    assert(self.free_entry_ok(i));
                }
            }
        }
        assert forall|w: int, d: Direction| 0 <= w < t.n() implies #[trigger] t.chain_ok(w, d)
            && !t.list(w, d).contains(ei) by {
            assert(self.chain_ok(w, d));
            assert forall|i: int| 0 <= i < t.list(w, d).len() implies #[trigger] t.entry_ok(
                w,
                d,
                i,
            ) by {
                assert(self.entry_ok(w, d, i));
            }
            if self.list(w, d).contains(ei) {
                self.lemma_on_own_list(w, d, ei);
            }
        }
        assert forall|w: int, d: Direction| 0 <= w < t.n() implies !(#[trigger] t.list(
            w,
            d,
        )).contains(ei) by {
            assert(t.chain_ok(w, d));
        }
        if f.len() == 0 {
            assert(!t.lists.free.contains(ei)) by {
                if t.lists.free.contains(ei) {
                    let i = choose|i: int| 0 <= i < f.len() && f[i] == ei;
                    assert(self.free_entry_ok(i));
                }
            }
        }
        assert(t.detached(ei));
        assert forall|a: int| #[trigger] t.active(a) && !y.contains(a) implies t.linked(a) by {
            assert(self.active(a));
            assert(self.linked(a));
        }
        assert forall|a: int, b: int|
            t.active(a) && t.active(b) && !y.contains(a) && !y.contains(b) && a
                != b implies #[trigger] t.differ(a, b) by {
            assert(self.active(a) && self.active(b));
            assert(self.differ(a, b));
        }
        assert forall|p: (nat, nat)| t.edges_except(y).contains(p) == self.edges_except(
            x,
        ).contains(p) by {
            if t.edges_except(y).contains(p) {
                let a = choose|a: int|
                    #[trigger] t.active(a) && !y.contains(a) && t.pred(a) == p.0 && t.succ(a)
                        == p.1;
                assert(self.active(a));
            }
            if self.edges_except(x).contains(p) {
                let a = choose|a: int|
                    #[trigger] self.active(a) && !x.contains(a) && self.pred(a) == p.0
                        && self.succ(a) == p.1;
                assert(t.active(a));
            }
        }
        assert(t.edges_except(y) =~= self.edges_except(x));
    }

    /// The state in which slot `e` is put in front of the list of node `t`
    /// for `direction`, and has `t` as the end that owns that list.
    pub open spec fn hooked(self, e: EdgeIndex, t: NodeIndex, direction: Direction) -> State {
        let ei = e.index_spec() as int;
        let ti = t.index_spec() as int;
        State {
            nodes: self.nodes.update(
                ti,
                NodeData { first_edges: self.nodes[ti].first_edges.with(direction, Some(e)) },
            ),
            edges: self.edges.update(
                ei,
                EdgeData {
                    nodes: self.edges[ei].nodes.with(direction.inverse(), t),
                    next_edges: self.edges[ei].next_edges.with(
                        direction,
                        self.nodes[ti].first_edges.at(direction),
                    ),
                },
            ),
            free_head: self.free_head,
            lists: self.lists.with(ti, direction, seq![ei] + self.list(ti, direction)),
        }
    }

    /// Putting a slot of `x` that is on no list for `direction` in front of
    /// such a list keeps the state consistent but for `x`.
    pub proof fn lemma_hooked(self, e: EdgeIndex, t: NodeIndex, direction: Direction, x: Set<int>)
        requires
            self.full_except(x),
            x.contains(e.index_spec() as int),
            self.off_lists(e.index_spec() as int, direction),
            t.index_spec() < self.n(),
        ensures
            self.hooked(e, t, direction).full_except(x),
            self.hooked(e, t, direction).n() == self.n(),
            self.hooked(e, t, direction).slots() == self.slots(),
            self.hooked(e, t, direction).lists.free == self.lists.free,
            self.hooked(e, t, direction).owner(e.index_spec() as int, direction) == t.index_spec(),
            self.hooked(e, t, direction).owner(e.index_spec() as int, direction.inverse())
                == self.owner(e.index_spec() as int, direction.inverse()),
            forall|a: int|
                0 <= a < self.slots() && a != e.index_spec() ==> (#[trigger] self.hooked(
                    e,
                    t,
                    direction,
                ).edges[a]).nodes == self.edges[a].nodes,
            self.hooked(e, t, direction).edges_except(x) == self.edges_except(x),
            forall|w: int, d: Direction|
                0 <= w < self.n() && !(w == t.index_spec() && d == direction)
                    ==> #[trigger] self.hooked(e, t, direction).list(w, d) == self.list(w, d),
            self.hooked(e, t, direction).list(t.index_spec() as int, direction) == seq![
                e.index_spec() as int,
            ] + self.list(t.index_spec() as int, direction),
            forall|y: int| #[trigger]
                self.hooked(e, t, direction).list(t.index_spec() as int, direction).contains(y)
                    <==> self.list(t.index_spec() as int, direction).contains(y) || y
                    == e.index_spec(),
    {
        let u = self.hooked(e, t, direction);
        let ei = e.index_spec() as int;
        let ti = t.index_spec() as int;
        let l = self.list(ti, direction);
        assert(self.chain_ok(ti, direction));
        assert(!l.contains(ei));
        lemma_push_front(l, ei);
        assert forall|w: int, d: Direction|
            0 <= w < self.n() && !(w == ti && d == direction) implies #[trigger] u.list(w, d)
            == self.list(w, d) by {}
        assert forall|w: int, d: Direction| 0 <= w < u.n() implies #[trigger] u.chain_ok(w, d) by {
            assert(self.chain_ok(w, d));
            let lw = u.list(w, d);
            if w == ti && d == direction {
                assert forall|i: int| 0 <= i < lw.len() implies #[trigger] u.entry_ok(w, d, i) by {
                    if i > 0 {
                        assert(self.entry_ok(w, d, i - 1));
                        assert(lw[i] == l[i - 1]);
                        assert(l.contains(l[i - 1]));
                        if i + 1 < lw.len() {
                            assert(lw[i + 1] == l[i]);
                        }
                    } else {
                        if l.len() > 0 {
                            assert(lw[1] == l[0]);
                        }
                    }
                }
            } else {
                assert forall|i: int| 0 <= i < lw.len() implies #[trigger] u.entry_ok(w, d, i) by {
                    assert(self.entry_ok(w, d, i));
                    if lw[i] == ei {
                        assert(self.list(w, d).contains(ei));
                        assert(d != direction);
                    }
                }
            }
        }
        assert(u.free_ok()) by {
            assert(self.free_ok());
            assert forall|i: int| 0 <= i < u.lists.free.len() implies #[trigger] u.free_entry_ok(
                i,
            ) by {
                assert(self.free_entry_ok(i));
                assert(self.lists.free.contains(self.lists.free[i]));
            }
        }
        assert forall|a: int| #[trigger] u.active(a) && !x.contains(a) implies u.linked(a) by {
            assert(self.active(a));
            assert(self.linked(a));
        }
        assert forall|a: int, b: int|
            u.active(a) && u.active(b) && !x.contains(a) && !x.contains(b) && a
                != b implies #[trigger] u.differ(a, b) by {
            assert(self.active(a) && self.active(b));
            assert(self.differ(a, b));
        }
        assert forall|p: (nat, nat)| u.edges_except(x).contains(p) == self.edges_except(
            x,
        ).contains(p) by {
            if u.edges_except(x).contains(p) {
                let a = choose|a: int|
                    #[trigger] u.active(a) && !x.contains(a) && u.pred(a) == p.0 && u.succ(a)
                        == p.1;
                assert(self.active(a));
            }
            if self.edges_except(x).contains(p) {
                let a = choose|a: int|
                    #[trigger] self.active(a) && !x.contains(a) && self.pred(a) == p.0
                        && self.succ(a) == p.1;
                assert(u.active(a));
            }
        }
        assert(u.edges_except(x) =~= self.edges_except(x));
    }

    /// The state in which the edge from node `p` to node `s` is added: it
    /// takes the next slot, and comes first on the list of the incoming
    /// edges of `s` and on the list of the outgoing edges of `p`.
    pub open spec fn with_edge(self, p: int, s: int) -> State {
        let e = slot_at(self.next_slot());
        let data = EdgeData {
            nodes: Indices { incoming: node_at(p), outgoing: node_at(s) },
            next_edges: Indices {
                incoming: self.nodes[s].first_edges.incoming,
                outgoing: self.nodes[p].first_edges.outgoing,
            },
        };
        self.took(e, data).hooked(e, node_at(s), Direction::Incoming).hooked(
            e,
            node_at(p),
            Direction::Outgoing,
        )
    }

    /// A slot of `x` that is on the lists of its two ends, and holds an edge
    /// that no slot outside `x` holds, need not be excepted any more.
    pub proof fn lemma_settled(self, e: int, x: Set<int>)
        requires
            self.full_except(x),
            x.contains(e),
            self.active(e),
            self.linked(e),
            !self.edges_except(x).contains((self.pred(e) as nat, self.succ(e) as nat)),
        ensures
            self.full_except(x.remove(e)),
            self.edges_except(x.remove(e)) == self.edges_except(x).insert(
                (self.pred(e) as nat, self.succ(e) as nat),
            ),
    {
        let y = x.remove(e);
        assert forall|a: int, b: int|
            self.active(a) && self.active(b) && !y.contains(a) && !y.contains(b) && a
                != b implies #[trigger] self.differ(a, b) by {
            if a == e {
                if !self.differ(a, b) {
                    assert(self.edges_except(x).contains(
                        (self.pred(e) as nat, self.succ(e) as nat),
                    ));
                }
            } else if b == e {
                if !self.differ(a, b) {
                    assert(self.edges_except(x).contains(
                        (self.pred(e) as nat, self.succ(e) as nat),
                    ));
                }
            } else {
                assert(self.differ(a, b));
            }
        }
        let pair = (self.pred(e) as nat, self.succ(e) as nat);
        assert forall|p: (nat, nat)| self.edges_except(y).contains(p) == self.edges_except(
            x,
        ).insert(pair).contains(p) by {
            if self.edges_except(y).contains(p) {
                let a = choose|a: int|
                    #[trigger] self.active(a) && !y.contains(a) && self.pred(a) == p.0
                        && self.succ(a) == p.1;
                if a != e {
                    assert(!x.contains(a));
                }
            }
            if self.edges_except(x).contains(p) {
                let a = choose|a: int|
                    #[trigger] self.active(a) && !x.contains(a) && self.pred(a) == p.0
                        && self.succ(a) == p.1;
                assert(!y.contains(a));
            }
            if p == pair {
                assert(self.active(e) && !y.contains(e));
            }
        }
        assert(self.edges_except(y) =~= self.edges_except(x).insert(pair));
    }

    /// Excepting a slot that holds an edge takes that edge out of the edges.
    pub proof fn lemma_excepted(self, e: int, x: Set<int>)
        requires
            self.full_except(x),
            self.active(e),
            !x.contains(e),
        ensures
            self.full_except(x.insert(e)),
            self.edges_except(x.insert(e)) == self.edges_except(x).remove(
                (self.pred(e) as nat, self.succ(e) as nat),
            ),
            self.linked(e),
    {
        let y = x.insert(e);
        let pair = (self.pred(e) as nat, self.succ(e) as nat);
        assert(self.linked(e));
        assert forall|a: int, b: int|
            self.active(a) && self.active(b) && !y.contains(a) && !y.contains(b) && a
                != b implies #[trigger] self.differ(a, b) by {
            assert(self.differ(a, b));
        }
        assert forall|p: (nat, nat)| self.edges_except(y).contains(p) == self.edges_except(
            x,
        ).remove(pair).contains(p) by {
            if self.edges_except(y).contains(p) {
                let a = choose|a: int|
                    #[trigger] self.active(a) && !y.contains(a) && self.pred(a) == p.0
                        && self.succ(a) == p.1;
                assert(!x.contains(a));
                assert(self.differ(a, e));
            }
            if self.edges_except(x).contains(p) && p != pair {
                let a = choose|a: int|
                    #[trigger] self.active(a) && !x.contains(a) && self.pred(a) == p.0
                        && self.succ(a) == p.1;
                assert(!y.contains(a));
            }
        }
        assert(self.edges_except(y) =~= self.edges_except(x).remove(pair));
    }

    /// The state in which the edge in slot `e` is taken off both of its
    /// lists and the slot is put in front of the free list.
    pub open spec fn released(self, e: EdgeIndex) -> State {
        let ei = e.index_spec() as int;
        self.unlinked(self.succ(ei), Direction::Incoming, e).unlinked(
            self.pred(ei),
            Direction::Outgoing,
            e,
        ).freed(e)
    }

    /// Releasing a slot that holds an edge keeps the state consistent and
    /// takes that edge away. The ends of the other edges stay as they are.
    pub proof fn lemma_released(self, e: EdgeIndex)
        requires
            self.full(),
            self.active(e.index_spec() as int),
        ensures
            self.released(e).full(),
            self.released(e).n() == self.n(),
            self.released(e).slots() == self.slots(),
            self.released(e).edge_set() == self.edge_set().remove(
                (self.pred(e.index_spec() as int) as nat, self.succ(e.index_spec() as int) as nat),
            ),
            self.edge_set().contains(
                (self.pred(e.index_spec() as int) as nat, self.succ(e.index_spec() as int) as nat),
            ),
            self.linked(e.index_spec() as int),
            self.released(e).lists.free == seq![e.index_spec() as int] + self.lists.free,
            forall|a: int|
                0 <= a < self.slots() ==> (#[trigger] self.released(e).edges[a]).nodes
                    == self.edges[a].nodes,
            forall|a: int|
                a != e.index_spec() ==> (#[trigger] self.released(e).active(a) <==> self.active(a)),
            !self.released(e).active(e.index_spec() as int),
            forall|w: int, d: Direction|
                0 <= w < self.n() ==> #[trigger] self.released(e).list(w, d) == if self.owner(
                    e.index_spec() as int,
                    d,
                ) == w {
                    self.list(w, d).remove(self.list(w, d).index_of(e.index_spec() as int))
                } else {
                    self.list(w, d)
                },
            forall|w: int, d: Direction, y: int|
                0 <= w < self.n() ==> (#[trigger] self.released(e).list(w, d).contains(y)
                    <==> self.list(w, d).contains(y) && y != e.index_spec()),
    {
        let ei = e.index_spec() as int;
        let x = Set::<int>::empty().insert(ei);
        let p = self.pred(ei);
        let q = self.succ(ei);
        self.lemma_excepted(ei, Set::empty());
        assert(self.edges_except(Set::empty()).contains((p as nat, q as nat))) by {
            assert(self.active(ei));
        }
        let s1 = self.unlinked(q, Direction::Incoming, e);
        self.lemma_unlinked(q, Direction::Incoming, e, x);
        assert(s1.list(p, Direction::Outgoing) == self.list(p, Direction::Outgoing));
        assert(s1.pred(ei) == p && s1.succ(ei) == q);
        let s2 = s1.unlinked(p, Direction::Outgoing, e);
        s1.lemma_unlinked(p, Direction::Outgoing, e, x);
        assert(s2.pred(ei) == p && s2.succ(ei) == q);
        assert forall|w: int, d: Direction| 0 <= w < s2.n() implies !(#[trigger] s2.list(
            w,
            d,
        )).contains(ei) by {
            if s2.list(w, d).contains(ei) {
                s2.lemma_on_own_list(w, d, ei);
                if d == Direction::Outgoing {
                    assert(w == p);
                } else {
                    assert(w == q);
                    assert(s2.list(q, Direction::Incoming) == s1.list(q, Direction::Incoming));
                }
            }
        }
        assert(s2.detached(ei));
        s2.lemma_freed(e, x);
        let s3 = s2.freed(e);
        assert(x.remove(ei) =~= Set::<int>::empty());
        assert(x.insert(ei) =~= x);
        assert(Set::<int>::empty().insert(ei) =~= x);
        assert forall|w: int, d: Direction| 0 <= w < self.n() implies #[trigger] s3.list(w, d)
            == if self.owner(ei, d) == w {
            self.list(w, d).remove(self.list(w, d).index_of(ei))
        } else {
            self.list(w, d)
        } by {
            assert(s3.list(w, d) == s2.list(w, d));
            if d == Direction::Incoming {
                assert(s2.list(w, d) == s1.list(w, d));
            } else {
                if w != p {
                    assert(s2.list(w, d) == s1.list(w, d));
                }
                assert(s1.list(w, d) == self.list(w, d));
            }
        }
        assert forall|w: int, d: Direction, y: int| 0 <= w < self.n() implies (#[trigger] s3.list(
            w,
            d,
        ).contains(y) <==> self.list(w, d).contains(y) && y != ei) by {
            assert(s3.list(w, d) == s2.list(w, d));
            if self.owner(ei, d) != w {
                if self.list(w, d).contains(ei) {
                    self.lemma_on_own_list(w, d, ei);
                }
            } else {
                if d == Direction::Incoming {
                    assert(s2.list(w, d) == s1.list(w, d));
                } else {
                    assert(s1.list(w, d) == self.list(w, d));
                }
            }
        }
    }

    /// The state in which the first `k` edges on the list of node `v` for
    /// `direction` are released, one after the other.
    pub open spec fn released_first(self, v: int, direction: Direction, k: nat) -> State
        decreases k,
    {
        if k == 0 {
            self
        } else {
            self.released(slot_at(self.list(v, direction)[0])).released_first(
                v,
                direction,
                (k - 1) as nat,
            )
        }
    }

    /// The edge in slot `e` with node `t` in place of the end that owns its
    /// list for `direction`.
    pub open spec fn moved_to(self, e: int, t: int, direction: Direction) -> (nat, nat) {
        match direction {
            Direction::Outgoing => (t as nat, self.succ(e) as nat),
            Direction::Incoming => (self.pred(e) as nat, t as nat),
        }
    }

    /// The state in which the first `k` edges on the list of node `v` for
    /// `direction` are given `t` in place of `v`, one after the other: each
    /// is taken off the list of `v` and put in front of the list of `t`,
    /// or released where `t` has that edge already.
    pub open spec fn redirected(self, v: int, direction: Direction, t: int, k: nat) -> State
        decreases k,
    {
        if k == 0 {
            self
        } else {
            let e = self.list(v, direction)[0];
            let next = if self.edge_set().contains(self.moved_to(e, t, direction)) {
                self.released(slot_at(e))
            } else {
                self.unlinked(v, direction, slot_at(e)).hooked(slot_at(e), node_at(t), direction)
            };
            next.redirected(v, direction, t, (k - 1) as nat)
        }
    }

    /// The state in which the edge from `p` to `s` is added unless it is
    /// there.
    pub open spec fn with_edge_if_absent(self, p: int, s: int) -> State {
        if self.edge_set().contains((p as nat, s as nat)) {
            self
        } else {
            self.with_edge(p, s)
        }
    }

    /// The state in which the edges from each node of `preds` to `s` are
    /// added that are not there, in the order of `preds`.
    pub open spec fn with_edges_to(self, preds: Seq<nat>, s: nat) -> State
        decreases preds.len(),
    {
        if preds.len() == 0 {
            self
        } else {
            self.with_edge_if_absent(preds[0] as int, s as int).with_edges_to(
                preds.drop_first(),
                s,
            )
        }
    }

    /// The state in which the edges from each node of `preds` to each node
    /// of `succs` are added that are not there: first those to the first
    /// node of `succs`, and so on.
    pub open spec fn with_all_edges(self, preds: Seq<nat>, succs: Seq<nat>) -> State
        decreases succs.len(),
    {
        if succs.len() == 0 {
            self
        } else {
            self.with_edges_to(preds, succs[0]).with_all_edges(preds, succs.drop_first())
        }
    }

    /// The slot that holds the edge `pair`.
    pub open spec fn slot_of(self, pair: (nat, nat)) -> int {
        choose|e: int| #[trigger] self.active(e) && self.pred(e) == pair.0 && self.succ(e) == pair.1
    }

    /// The state in which the edge from node `n` to itself is released, if
    /// there is one.
    pub open spec fn without_loop(self, n: int) -> State {
        if self.edge_set().contains((n as nat, n as nat)) {
            self.released(slot_at(self.slot_of((n as nat, n as nat))))
        } else {
            self
        }
    }

    /// The state in which node `n` is deleted and the other nodes stay
    /// connected. An edge from `n` to itself is released first. Then, where
    /// `n` has no incoming or no outgoing edges, its edges are released.
    /// Where it has one outgoing edge, that edge is released and the
    /// incoming edges are redirected to its target; where it has one
    /// incoming edge, that edge is released and the outgoing edges are
    /// redirected to come from its source. Else all its edges are released,
    /// the outgoing ones first, and an edge is added from each predecessor
    /// to each successor.
    pub open spec fn without(self, n: int) -> State {
        let s = self.without_loop(n);
        let ins = s.list(n, Direction::Incoming);
        let outs = s.list(n, Direction::Outgoing);
        if ins.len() == 0 {
            s.released_first(n, Direction::Outgoing, outs.len())
        } else if outs.len() == 0 {
            s.released_first(n, Direction::Incoming, ins.len())
        } else if outs.len() == 1 {
            s.released(slot_at(outs[0])).redirected(
                n,
                Direction::Incoming,
                s.succ(outs[0]),
                ins.len(),
            )
        } else if ins.len() == 1 {
            s.released(slot_at(ins[0])).redirected(
                n,
                Direction::Outgoing,
                s.pred(ins[0]),
                outs.len(),
            )
        } else {
            s.released_first(n, Direction::Outgoing, outs.len()).released_first(
                n,
                Direction::Incoming,
                ins.len(),
            ).with_all_edges(s.ends(n, Direction::Incoming), s.ends(n, Direction::Outgoing))
        }
    }

    /// One slot holds an edge of the relation.
    pub proof fn lemma_slot_of_unique(self, e: int)
        requires
            self.full(),
            self.active(e),
        ensures
            self.slot_of((self.pred(e) as nat, self.succ(e) as nat)) == e,
    {
        let f = self.slot_of((self.pred(e) as nat, self.succ(e) as nat));
        if f != e {
            assert(self.differ(f, e));
        }
    }

    /// The edges that are on the list of a node are the edges of the
    /// relation that have the node as the end that owns the list.
    pub proof fn lemma_list_holds(self, v: int, direction: Direction)
        requires
            self.full(),
            0 <= v < self.n(),
        ensures
            forall|i: int|
                0 <= i < self.list(v, direction).len() ==> self.active(
                    #[trigger] self.list(v, direction)[i],
                ) && self.owner(self.list(v, direction)[i], direction) == v
                    && self.edge_set().contains(
                    (
                        self.pred(self.list(v, direction)[i]) as nat,
                        self.succ(self.list(v, direction)[i]) as nat,
                    ),
                ),
            forall|e: int| #[trigger]
                self.active(e) && self.owner(e, direction) == v ==> self.list(
                    v,
                    direction,
                ).contains(e),
    {
        let l = self.list(v, direction);
        assert(self.chain_ok(v, direction));
        assert forall|i: int| 0 <= i < l.len() implies self.active(#[trigger] l[i]) && self.owner(
            l[i],
            direction,
        ) == v && self.edge_set().contains((self.pred(l[i]) as nat, self.succ(l[i]) as nat)) by {
            assert(self.entry_ok(v, direction, i));
            assert(self.active(l[i]));
            assert(self.linked(l[i]));
        }
        assert forall|e: int| #[trigger]
            self.active(e) && self.owner(e, direction) == v implies l.contains(e) by {
            assert(self.linked(e));
        }
    }

    /// Each edge of the relation is held by one slot.
    pub proof fn lemma_slot_of(self, pair: (nat, nat)) -> (e: int)
        requires
            self.full(),
            self.edge_set().contains(pair),
        ensures
            self.active(e),
            self.linked(e),
            self.pred(e) == pair.0,
            self.succ(e) == pair.1,
    {
        let e = choose|e: int|
            #[trigger] self.active(e) && !Set::<int>::empty().contains(e) && self.pred(e) == pair.0
                && self.succ(e) == pair.1;
        assert(self.linked(e));
        e
    }

    /// A slot that holds an edge holds an edge of the relation.
    pub proof fn lemma_holds_edge(self, e: int)
        requires
            self.full(),
            self.active(e),
        ensures
            self.edge_set().contains((self.pred(e) as nat, self.succ(e) as nat)),
            self.linked(e),
    {
        assert(self.linked(e));
    }

    /// The end of the edge in slot `e` that is named by `direction`: its
    /// target for the outgoing direction, its source for the incoming one.
    pub open spec fn end(self, e: int, direction: Direction) -> nat {
        self.edges[e].nodes.at(direction).index_spec() as nat
    }

    /// The nodes at the other ends of the edges on the list of node `v` for
    /// `direction`, in the order of the list: the successors of `v` for the
    /// outgoing direction, its predecessors for the incoming one.
    pub open spec fn ends(self, v: int, direction: Direction) -> Seq<nat> {
        Seq::new(
            self.list(v, direction).len(),
            |i: int| self.end(self.list(v, direction)[i], direction),
        )
    }

    /// The list of the successors of a node names each node to which the
    /// node has an edge, once; the list of its predecessors each node from
    /// which it has one.
    pub proof fn lemma_ends(self, v: int, direction: Direction)
        requires
            self.full(),
            0 <= v < self.n(),
        ensures
            self.ends(v, direction).no_duplicates(),
            forall|i: int|
                0 <= i < self.ends(v, direction).len() ==> #[trigger] self.ends(v, direction)[i]
                    < self.n(),
            forall|b: nat|
                self.ends(v, direction).contains(b) <==> self.edge_set().contains(
                    match direction {
                        Direction::Outgoing => (v as nat, b),
                        Direction::Incoming => (b, v as nat),
                    },
                ),
    {
        let l = self.list(v, direction);
        let r = self.ends(v, direction);
        self.lemma_list_holds(v, direction);
        assert(self.chain_ok(v, direction));
        assert forall|i: int, j: int| 0 <= i < r.len() && 0 <= j < r.len() && i != j implies r[i]
            != r[j] by {
            assert(self.active(l[i]) && self.active(l[j]));
            assert(self.differ(l[i], l[j]));
            assert(self.owner(l[i], direction) == v);
            assert(self.owner(l[j], direction) == v);
        }
        assert forall|i: int| 0 <= i < r.len() implies #[trigger] r[i] < self.n() by {
            assert(self.active(l[i]));
            assert(self.linked(l[i]));
        }
        assert forall|b: nat|
            r.contains(b) <==> self.edge_set().contains(
                match direction {
                    Direction::Outgoing => (v as nat, b),
                    Direction::Incoming => (b, v as nat),
                },
            ) by {
            let pair = match direction {
                Direction::Outgoing => (v as nat, b),
                Direction::Incoming => (b, v as nat),
            };
            if r.contains(b) {
                let i = choose|i: int| 0 <= i < r.len() && r[i] == b;
                assert(self.active(l[i]));
                assert(self.owner(l[i], direction) == v);
                self.lemma_holds_edge(l[i]);
            }
            if self.edge_set().contains(pair) {
                let e = self.lemma_slot_of(pair);
                assert(self.owner(e, direction) == v);
                assert(l.contains(e));
                let i = choose|i: int| 0 <= i < l.len() && l[i] == e;
                assert(r[i] == b);
            }
        }
    }

    /// Going through the lists of the outgoing edges of all nodes and
    /// through the free list comes to each edge slot once: a slot is on the
    /// free list or on the list of the source of its edge, not on both and
    /// on no other list, and no list holds a slot twice.
    pub proof fn lemma_each_slot_once(self, e: int)
        requires
            self.full(),
            0 <= e < self.slots(),
        ensures
            self.lists.free.no_duplicates(),
            forall|v: int| 0 <= v < self.n() ==> (#[trigger] self.lists.outgoing[v]).no_duplicates(),
            self.lists.free.contains(e) ==> forall|v: int|
                0 <= v < self.n() ==> !(#[trigger] self.lists.outgoing[v]).contains(e),
            !self.lists.free.contains(e) ==> 0 <= self.pred(e) < self.n()
                && self.lists.outgoing[self.pred(e)].contains(e) && forall|v: int|
                0 <= v < self.n() && v != self.pred(e) ==> !(
                #[trigger] self.lists.outgoing[v]).contains(e),
    {
        assert(self.free_ok());
        assert forall|v: int| 0 <= v < self.n() implies (
        #[trigger] self.lists.outgoing[v]).no_duplicates() by {
            assert(self.chain_ok(v, Direction::Outgoing));
        }
        assert forall|v: int| 0 <= v < self.n() && (self.lists.free.contains(e) || v != self.pred(
            e,
        )) implies !(#[trigger] self.lists.outgoing[v]).contains(e) by {
            if self.lists.outgoing[v].contains(e) {
                assert(self.list(v, Direction::Outgoing).contains(e));
                self.lemma_on_own_list(v, Direction::Outgoing, e);
            }
        }
        if !self.lists.free.contains(e) {
            assert(self.active(e));
            assert(self.linked(e));
        }
    }

    /// A node that is at the end of no edge has empty lists.
    pub proof fn lemma_no_edges(self, v: int)
        requires
            self.full(),
            0 <= v < self.n(),
            forall|pair: (nat, nat)| #[trigger]
                self.edge_set().contains(pair) ==> pair.0 != v && pair.1 != v,
        ensures
            self.list(v, Direction::Outgoing).len() == 0,
            self.list(v, Direction::Incoming).len() == 0,
    {
        self.lemma_list_holds(v, Direction::Outgoing);
        self.lemma_list_holds(v, Direction::Incoming);
        if self.list(v, Direction::Outgoing).len() > 0 {
            let e = self.list(v, Direction::Outgoing)[0];
            assert(self.edge_set().contains((self.pred(e) as nat, self.succ(e) as nat)));
        }
        if self.list(v, Direction::Incoming).len() > 0 {
            let e = self.list(v, Direction::Incoming)[0];
            assert(self.edge_set().contains((self.pred(e) as nat, self.succ(e) as nat)));
        }
    }

    /// The lines that show the outgoing edges of node `v`, in the order of
    /// its list.
    pub open spec fn node_lines(self, v: int) -> Seq<Seq<char>> {
        Seq::new(
            self.list(v, Direction::Outgoing).len(),
            |i: int|
                edge_line(
                    v as nat,
                    self.list(v, Direction::Outgoing)[i] as nat,
                    self.succ(self.list(v, Direction::Outgoing)[i]) as nat,
                ),
        )
    }

    /// The lines that show the outgoing edges of the first `k` nodes.
    pub open spec fn lines_upto(self, k: int) -> Seq<Seq<char>>
        decreases k,
    {
        if k <= 0 {
            Seq::empty()
        } else {
            self.lines_upto(k - 1) + self.node_lines(k - 1)
        }
    }

    /// The lines that show the free list, first entry first.
    pub open spec fn free_lines(self) -> Seq<Seq<char>> {
        Seq::new(self.lists.free.len(), |i: int| free_line(self.lists.free[i] as nat))
    }

    /// The lines that show the state: the edges, node by node and for each
    /// node in the order of its list, then the free list.
    pub open spec fn dump(self) -> Seq<Seq<char>> {
        self.lines_upto(self.n()) + self.free_lines()
    }
}

/// The line that shows the edge from `pred` to `succ` that is held in slot
/// `edge`.
pub open spec fn edge_line(pred: nat, edge: nat, succ: nat) -> Seq<char> {
    "N("@ + decimal_text(pred) + ") --E("@ + decimal_text(edge) + ")--> N("@ + decimal_text(succ)
        + ")"@
}

/// The line that shows the free slot `edge`.
pub open spec fn free_line(edge: nat) -> Seq<char> {
    "free edge E("@ + decimal_text(edge) + ")"@
}

} // verus!
