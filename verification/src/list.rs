//! A relation that threads each edge through two linked lists, one of the
//! edges that leave its source and one of the edges that enter its target,
//! and deletes one node at a time by rewiring the edges in place.

use crate::chain::{
    id_of, lemma_node_at, lemma_remove, lemma_slot_at, link, slot_at, Lists, State,
};
use crate::graph::without_node;
use crate::idx::Idx;
use crate::indices::{Direction, EdgeIndex, Indices, NodeIndex};
use crate::reach::Graph;
use crate::text::push_decimal;
use crate::vec_family::{IndexType, IndexVec, StdVec, VecFamily};
use vstd::prelude::*;
use vstd::string::StringExecFns;

verus! {

/// What is stored for a node: the first edge of each of its two lists.
#[derive(Clone, Copy)]
pub struct NodeData {
    pub first_edges: Indices<Option<EdgeIndex>>,
}

impl Default for NodeData {
    fn default() -> (r: Self)
        ensures
            r.first_edges.incoming is None,
            r.first_edges.outgoing is None,
    {
        NodeData { first_edges: Indices { incoming: None, outgoing: None } }
    }
}

/// What is stored in an edge slot: the two ends of the edge, and the edge
/// that follows it on each of the two lists it is on. In `nodes` the source
/// of the edge is the incoming one and the target the outgoing one.
#[derive(Clone, Copy)]
pub struct EdgeData {
    pub nodes: Indices<NodeIndex>,
    pub next_edges: Indices<Option<EdgeIndex>>,
}

/// A directed graph on the nodes `0 .. num_nodes` that keeps what a deleted
/// node connected: deleting `B` from `A -> B -> C` leaves `A -> C`.
///
/// The edges are stored in slots. A slot that holds an edge is on the list of
/// the outgoing edges of its source and on the list of the incoming edges of
/// its target; a slot that holds none is on the free list, from where the
/// next new edge takes it.
pub struct Relation<F: VecFamily> {
    nodes: F::NodeVec,
    edges: F::EdgeVec,
    edge_free_list: Option<EdgeIndex>,
    lists: Ghost<Lists>,
}

impl<F: VecFamily> Relation<F> {
    /// All that the relation holds, as plain sequences.
    pub closed spec fn state(self) -> State {
        State {
            nodes: self.nodes.elements(),
            edges: self.edges.elements(),
            free_head: self.edge_free_list,
            lists: self.lists@,
        }
    }

    /// The number of nodes.
    pub open spec fn num_nodes(self) -> nat {
        self.state().n() as nat
    }

    /// The edges of the graph.
    pub open spec fn edge_set(self) -> Set<(nat, nat)> {
        self.state().edge_set()
    }

    /// The edge slots on the list of `node` for `direction`, first entry
    /// first.
    pub open spec fn at(self, node: NodeIndex, direction: Direction) -> Seq<int> {
        self.state().list(node.index_spec() as int, direction)
    }

    /// The lists are what the pointers spell out, every edge slot is on the
    /// free list or holds an edge that is on the lists of its two ends, no
    /// edge is held twice, and the users have a name for every node.
    pub open spec fn wf(self) -> bool {
        &&& self.state().full()
        &&& forall|v: usize| v < self.num_nodes() ==> F::valid(v)
    }

    /// A relation on `num_nodes` nodes without edges.
    pub fn new(num_nodes: usize) -> (r: Self)
        requires
            forall|v: usize| v < num_nodes ==> F::valid(v),
        ensures
            r.wf(),
            r.num_nodes() == num_nodes,
            r.edge_set() == Set::<(nat, nat)>::empty(),
            r.state().slots() == 0,
    {
        let nodes = F::NodeVec::with_default_elements(num_nodes);
        let edges = F::EdgeVec::empty();
        let ghost lists = Lists {
            outgoing: Seq::new(num_nodes as nat, |v: int| Seq::<int>::empty()),
            incoming: Seq::new(num_nodes as nat, |v: int| Seq::<int>::empty()),
            free: Seq::empty(),
        };
        let r = Relation { nodes, edges, edge_free_list: None, lists: Ghost(lists) };
        proof {
            let s = r.state();
            assert forall|v: int, d: Direction| 0 <= v < s.n() implies #[trigger] s.chain_ok(
                v,
                d,
            ) by {
                assert(call_ensures(NodeData::default, (), s.nodes[v]));
            }
            assert(s.free_ok());
            assert(s.full());
            assert(s.edge_set() =~= Set::<(nat, nat)>::empty());
        }
        r
    }

    fn node(&self, node: NodeIndex) -> (r: &NodeData)
        requires
            node.index_spec() < self.state().n(),
        ensures
            *r == self.state().nodes[node.index_spec() as int],
    {
        self.nodes.get(node)
    }

    fn node_mut(&mut self, node: NodeIndex) -> (r: &mut NodeData)
        requires
            node.index_spec() < old(self).state().n(),
        ensures
            *r == old(self).state().nodes[node.index_spec() as int],
            final(self).state() == (State {
                nodes: old(self).state().nodes.update(node.index_spec() as int, *final(r)),
                edges: old(self).state().edges,
                free_head: old(self).state().free_head,
                lists: old(self).state().lists,
            }),
    {
        self.nodes.get_mut(node)
    }

    fn edge(&self, edge: EdgeIndex) -> (r: &EdgeData)
        requires
            edge.index_spec() < self.state().slots(),
        ensures
            *r == self.state().edges[edge.index_spec() as int],
    {
        self.edges.get(edge)
    }

    fn edge_mut(&mut self, edge: EdgeIndex) -> (r: &mut EdgeData)
        requires
            edge.index_spec() < old(self).state().slots(),
        ensures
            *r == old(self).state().edges[edge.index_spec() as int],
            final(self).state() == (State {
                nodes: old(self).state().nodes,
                edges: old(self).state().edges.update(edge.index_spec() as int, *final(r)),
                free_head: old(self).state().free_head,
                lists: old(self).state().lists,
            }),
    {
        self.edges.get_mut(edge)
    }

    /// Takes the next slot for `edge_data`: the first of the free list if
    /// there is one, else a new slot behind the last one.
    fn alloc_edge(&mut self, edge_data: EdgeData) -> (r: EdgeIndex)
        requires
            old(self).state().free_ok(),
        ensures
            r.index_spec() == old(self).state().next_slot(),
            final(self).state() == old(self).state().took(r, edge_data),
    {
        let ghost s0 = self.state();
        proof {
            if s0.lists.free.len() > 0 {
                assert(s0.free_entry_ok(0));
            }
        }
        if let Some(free_edge) = self.edge_free_list {
            let next_free_edge;
            {
                let free_edge_data = self.edge_mut(free_edge);
                next_free_edge = free_edge_data.next_edges.outgoing();
                *free_edge_data = edge_data;
            }
            self.edge_free_list = next_free_edge;
            proof {
                self.lists@ = self.lists@.with_free(s0.lists.free.drop_first());
                assert(self.state().edges =~= s0.took(free_edge, edge_data).edges);
            }
            free_edge
        } else {
            let r = self.edges.push(edge_data);
            proof {
                assert(self.state().edges =~= s0.took(r, edge_data).edges);
            }
            r
        }
    }

    /// Puts the slot `edge` in front of the free list.
    fn free_edge(&mut self, edge: EdgeIndex)
        requires
            edge.index_spec() < old(self).state().slots(),
        ensures
            final(self).state() == old(self).state().freed(edge),
    {
        let ghost s0 = self.state();
        let head = self.edge_free_list;
        let edge_data = self.edge_mut(edge);
        edge_data.next_edges.set_outgoing(head);
        self.edge_free_list = Some(edge);
        proof {
            self.lists@ = self.lists@.with_free(seq![edge.index_spec() as int] + s0.lists.free);
            assert(self.state().edges =~= s0.freed(edge).edges);
        }
    }

    /// Goes through the list of `node` for `direction` until it finds
    /// `edge`, and takes it off the list: what led to `edge` then leads to
    /// `next_edge`, which is what followed `edge`. The slot `edge` itself is
    /// neither read nor written.
    fn unlink_edge(
        &mut self,
        node: NodeIndex,
        direction: Direction,
        edge: EdgeIndex,
        next_edge: Option<EdgeIndex>,
    )
        requires
            old(self).state().chained(),
            node.index_spec() < old(self).state().n(),
            old(self).at(node, direction).contains(
                edge.index_spec() as int,
            ),
            edge.index_spec() < old(self).state().slots(),
            next_edge == old(self).state().edges[edge.index_spec() as int].next_edges.at(
                direction,
            ),
        ensures
            final(self).state() == old(self).state().unlinked(
                node.index_spec() as int,
                direction,
                edge,
            ),
    {
        let ghost s0 = self.state();
        let ghost v = node.index_spec() as int;
        let ghost ei = edge.index_spec() as int;
        let ghost l = s0.list(v, direction);
        let ghost k = l.index_of(ei);
        proof {
            assert(s0.chain_ok(v, direction));
            assert(0 <= k < l.len() && l[k] == ei);
            assert(s0.entry_ok(v, direction, 0));
        }
        let mut cur_edge = self.node(node).first_edges.get(direction).unwrap();
        if cur_edge.to_usize() == edge.to_usize() {
            let node_data = self.node_mut(node);
            node_data.first_edges.set(direction, next_edge);
            proof {
                self.lists@ = s0.lists.with(v, direction, l.remove(k));
                assert(k == 0);
                assert(self.state().nodes =~= s0.unlinked(v, direction, edge).nodes);
            }
            return ;
        }
        let ghost mut i: int = 0;
        loop
            invariant
                self.state() == s0,
                old(self).state() == s0,
                s0.chained(),
                0 <= v < s0.n(),
                l == s0.list(v, direction),
                0 <= k < l.len(),
                l[k] == ei,
                k == l.index_of(ei),
                ei == edge.index_spec(),
                v == node.index_spec(),
                0 <= i < k,
                cur_edge.index_spec() == l[i],
                0 <= ei < s0.slots(),
                next_edge == s0.edges[ei].next_edges.at(direction),
            decreases k - i,
        {
            proof {
                assert(s0.chain_ok(v, direction));
                assert(s0.entry_ok(v, direction, i));
            }
            let following = self.edge(cur_edge).next_edges.get(direction).unwrap();
            if following.to_usize() == edge.to_usize() {
                let edge_data = self.edge_mut(cur_edge);
                edge_data.next_edges.set(direction, next_edge);
                proof {
                    self.lists@ = s0.lists.with(v, direction, l.remove(k));
                    assert(l.no_duplicates());
                    assert(i + 1 == k);
                    assert(self.state().edges =~= s0.unlinked(v, direction, edge).edges);
                }
                return ;
            }
            cur_edge = following;
            proof {
                i = i + 1;
            }
        }
    }

    /// The slot that holds the edge from `predecessor` to `successor`, if
    /// the relation has that edge.
    fn find_edge(&self, predecessor: NodeIndex, successor: NodeIndex) -> (r: Option<EdgeIndex>)
        requires
            self.state().full(),
            predecessor.index_spec() < self.state().n(),
        ensures
            r is Some == self.state().edge_set().contains(
                (predecessor.index_spec() as nat, successor.index_spec() as nat),
            ),
            r is Some ==> self.state().active(r->0.index_spec() as int) && self.state().pred(
                r->0.index_spec() as int,
            ) == predecessor.index_spec() && self.state().succ(r->0.index_spec() as int)
                == successor.index_spec(),
    {
        let ghost st = self.state();
        let ghost p = predecessor.index_spec() as int;
        let ghost q = successor.index_spec() as int;
        let ghost l = st.list(p, Direction::Outgoing);
        let mut cur = self.node(predecessor).first_edges.outgoing();
        let ghost mut i: int = 0;
        proof {
            st.lemma_list_holds(p, Direction::Outgoing);
            assert(st.chain_ok(p, Direction::Outgoing));
        }
        loop
            invariant
                st == self.state(),
                st.full(),
                0 <= p < st.n(),
                p == predecessor.index_spec(),
                q == successor.index_spec(),
                l == st.list(p, Direction::Outgoing),
                0 <= i <= l.len(),
                id_of(cur) == link(l, i),
                forall|j: int| 0 <= j < i ==> st.succ(#[trigger] l[j]) != q,
            decreases l.len() - i,
        {
            match cur {
                None => {
                    proof {
                        st.lemma_list_holds(p, Direction::Outgoing);
                        if st.edge_set().contains((p as nat, q as nat)) {
                            let e = st.lemma_slot_of((p as nat, q as nat));
                            assert(l.contains(e));
                        }
                    }
                    return None;
                },
                Some(e) => {
                    proof {
                        assert(st.chain_ok(p, Direction::Outgoing));
                        assert(st.entry_ok(p, Direction::Outgoing, i));
                        st.lemma_list_holds(p, Direction::Outgoing);
                    }
                    let data = self.edge(e);
                    if data.nodes.outgoing().to_usize() == successor.to_usize() {
                        return Some(e);
                    }
                    cur = data.next_edges.outgoing();
                    proof {
                        i = i + 1;
                    }
                },
            }
        }
    }

    fn add_edge_internal(&mut self, predecessor: NodeIndex, successor: NodeIndex) -> (added: bool)
        requires
            old(self).state().full(),
            predecessor.index_spec() < old(self).state().n(),
            successor.index_spec() < old(self).state().n(),
        ensures
            final(self).state().full(),
            final(self).state().n() == old(self).state().n(),
            final(self).state().edge_set() == old(self).state().edge_set().insert(
                (predecessor.index_spec() as nat, successor.index_spec() as nat),
            ),
            added == !old(self).state().edge_set().contains(
                (predecessor.index_spec() as nat, successor.index_spec() as nat),
            ),
            !added ==> final(self).state() == old(self).state(),
            added ==> final(self).state() == old(self).state().with_edge(
                predecessor.index_spec() as int,
                successor.index_spec() as int,
            ),
    {
        let ghost s0 = self.state();
        let ghost pair = (predecessor.index_spec() as nat, successor.index_spec() as nat);
        // Check that edge does not already exist.
        if self.find_edge(predecessor, successor).is_some() {
            proof {
                assert(s0.edge_set().insert(pair) =~= s0.edge_set());
            }
            false
        } else {
            let next_incoming = self.node(successor).first_edges.incoming();
            let next_outgoing = self.node(predecessor).first_edges.outgoing();
            let data = EdgeData {
                nodes: Indices::new(predecessor, successor),
                next_edges: Indices::new(next_incoming, next_outgoing),
            };
            let edge_index = self.alloc_edge(data);
            let node_data = self.node_mut(successor);
            node_data.first_edges.set_incoming(Some(edge_index));
            let node_data = self.node_mut(predecessor);
            node_data.first_edges.set_outgoing(Some(edge_index));
            proof {
                let ei = edge_index.index_spec() as int;
                let x = Set::<int>::empty().insert(ei);
                let s1 = s0.took(edge_index, data);
                s0.lemma_took(edge_index, data, Set::empty());
                let s2 = s1.hooked(edge_index, successor, Direction::Incoming);
                s1.lemma_hooked(edge_index, successor, Direction::Incoming, x);
                assert(s2.off_lists(ei, Direction::Outgoing)) by {
                    assert forall|v: int| 0 <= v < s2.n() implies !(#[trigger] s2.list(
                        v,
                        Direction::Outgoing,
                    )).contains(ei) by {
                        assert(s2.list(v, Direction::Outgoing) == s1.list(v, Direction::Outgoing));
                    }
                }
                let s3 = s2.hooked(edge_index, predecessor, Direction::Outgoing);
                s2.lemma_hooked(edge_index, predecessor, Direction::Outgoing, x);
                self.lists@ = s3.lists;
                assert(self.state().nodes =~= s3.nodes);
                assert(self.state().edges =~= s3.edges);
                assert(self.state() == s3);
                lemma_slot_at(edge_index);
                lemma_node_at(predecessor);
                lemma_node_at(successor);
                assert(s3 == s0.with_edge(
                    predecessor.index_spec() as int,
                    successor.index_spec() as int,
                ));
                assert(s3.list(successor.index_spec() as int, Direction::Incoming) == s2.list(
                    successor.index_spec() as int,
                    Direction::Incoming,
                ));
                assert(s3.active(ei));
                assert(s3.linked(ei));
                assert(x.remove(ei) =~= Set::<int>::empty());
                s3.lemma_settled(ei, x);
            }
            true
        }
    }

    /// Adds the edge from `predecessor` to `successor`, and says whether it
    /// was absent. Where it was present nothing changes at all. A new edge
    /// takes the first slot of the free list, or a new slot where none is
    /// free, and comes first among the outgoing edges of `predecessor` and
    /// among the incoming edges of `successor`.
    pub fn add_edge(&mut self, predecessor: F::UserNode, successor: F::UserNode) -> (added: bool)
        requires
            old(self).wf(),
            F::node_spec(predecessor) < old(self).num_nodes(),
            F::node_spec(successor) < old(self).num_nodes(),
        ensures
            final(self).wf(),
            final(self).num_nodes() == old(self).num_nodes(),
            final(self).edge_set() == old(self).edge_set().insert(
                (F::node_spec(predecessor) as nat, F::node_spec(successor) as nat),
            ),
            added == !old(self).edge_set().contains(
                (F::node_spec(predecessor) as nat, F::node_spec(successor) as nat),
            ),
            !added ==> final(self).state() == old(self).state(),
            added ==> final(self).state() == old(self).state().with_edge(
                F::node_spec(predecessor) as int,
                F::node_spec(successor) as int,
            ),
    {
        let predecessor = F::into_node(predecessor);
        let successor = F::into_node(successor);
        self.add_edge_internal(predecessor, successor)
    }

    /// The number of edges on the list of `node` for `direction`, but no
    /// more than two.
    fn count_edges_saturating(&self, node: NodeIndex, direction: Direction) -> (count: usize)
        requires
            self.state().chained(),
            node.index_spec() < self.state().n(),
        ensures
            count == if self.at(node, direction).len() < 2 {
                self.at(node, direction).len()
            } else {
                2
            },
    {
        proof {
            assert(self.state().chain_ok(node.index_spec() as int, direction));
        }
        if let Some(first) = self.node(node).first_edges.get(direction) {
            proof {
                assert(self.state().entry_ok(node.index_spec() as int, direction, 0));
            }
            if let Some(_) = self.edge(first).next_edges.get(direction) {
                2
            } else {
                1
            }
        } else {
            0
        }
    }

    /// Takes the edge in slot `edge` off the two lists it is on, and puts
    /// the slot in front of the free list.
    fn release_edge(&mut self, edge: EdgeIndex)
        requires
            old(self).state().full(),
            old(self).state().active(edge.index_spec() as int),
        ensures
            final(self).state() == old(self).state().released(edge),
    {
        let ghost s0 = self.state();
        let ghost ei = edge.index_spec() as int;
        let data = *self.edge(edge);
        proof {
            let x = Set::<int>::empty().insert(ei);
            s0.lemma_excepted(ei, Set::empty());
            s0.lemma_unlinked(s0.succ(ei), Direction::Incoming, edge, x);
        }
        self.unlink_edge(
            data.nodes.outgoing(),
            Direction::Incoming,
            edge,
            data.next_edges.incoming(),
        );
        proof {
            let x = Set::<int>::empty().insert(ei);
            let s1 = self.state();
            assert(s1.list(s0.pred(ei), Direction::Outgoing) == s0.list(
                s0.pred(ei),
                Direction::Outgoing,
            ));
            s1.lemma_unlinked(s0.pred(ei), Direction::Outgoing, edge, x);
        }
        self.unlink_edge(
            data.nodes.incoming(),
            Direction::Outgoing,
            edge,
            data.next_edges.outgoing(),
        );
        self.free_edge(edge);
    }

    /// Moves all the edges on the list of `node` for `direction` to the
    /// free list, the first of them first. Afterwards `node` has no edge in
    /// that direction.
    fn move_edges_to_free_list(&mut self, node: NodeIndex, direction: Direction)
        requires
            old(self).state().full(),
            node.index_spec() < old(self).state().n(),
        ensures
            final(self).state().full(),
            final(self).state().n() == old(self).state().n(),
            final(self).at(node, direction).len() == 0,
            final(self).at(node, direction.inverse()).len() <= old(self).at(
                node,
                direction.inverse(),
            ).len(),
            forall|pair: (nat, nat)| #[trigger]
                final(self).state().edge_set().contains(pair) <==> old(
                    self
                ).state().edge_set().contains(pair) && !ends_at(
                    pair,
                    node.index_spec() as nat,
                    direction,
                ),
            final(self).state() == old(self).state().released_first(
                node.index_spec() as int,
                direction,
                old(self).at(node, direction).len(),
            ),
            !old(self).state().edge_set().contains(
                (node.index_spec() as nat, node.index_spec() as nat),
            ) ==> final(self).at(node, direction.inverse()) == old(self).at(
                node,
                direction.inverse(),
            ),
    {
        let ghost s0 = self.state();
        let ghost v = node.index_spec() as int;
        loop
            invariant
                self.state().full(),
                self.state().n() == s0.n(),
                0 <= v < s0.n(),
                v == node.index_spec(),
                s0 == old(self).state(),
                self.state().released_first(v, direction, self.state().list(v, direction).len())
                    == s0.released_first(v, direction, s0.list(v, direction).len()),
                !s0.edge_set().contains((v as nat, v as nat)) ==> self.state().list(
                    v,
                    direction.inverse(),
                ) == s0.list(v, direction.inverse()),
                self.state().list(v, direction.inverse()).len() <= s0.list(
                    v,
                    direction.inverse(),
                ).len(),
                forall|pair: (nat, nat)| #[trigger]
                    self.state().edge_set().contains(pair) ==> s0.edge_set().contains(pair),
                forall|pair: (nat, nat)|
                    !ends_at(pair, v as nat, direction) && #[trigger] s0.edge_set().contains(pair)
                        ==> self.state().edge_set().contains(pair),
            decreases self.state().list(v, direction).len(),
        {
            let ghost s1 = self.state();
            proof {
                assert(s1.chain_ok(v, direction));
                s1.lemma_list_holds(v, direction);
            }
            match self.node(node).first_edges.get(direction) {
                None => {
                    proof {
                        assert forall|pair: (nat, nat)| #[trigger]
                            s1.edge_set().contains(pair) implies !ends_at(
                            pair,
                            v as nat,
                            direction,
                        ) by {
                            let e = s1.lemma_slot_of(pair);
                            if ends_at(pair, v as nat, direction) {
                                assert(s1.owner(e, direction) == v);
                                assert(s1.list(v, direction).contains(e));
                            }
                        }
                    }
                    return ;
                },
                Some(edge_to_remove) => {
                    proof {
                        assert(s1.entry_ok(v, direction, 0));
                        s1.lemma_released(edge_to_remove);
                        lemma_slot_at(edge_to_remove);
                        lemma_remove(
                            s1.list(v, direction),
                            s1.list(v, direction).index_of(edge_to_remove.index_spec() as int),
                        );
                        if s1.owner(edge_to_remove.index_spec() as int, direction.inverse()) == v {
                            // an edge from the node to itself
                            assert(s0.edge_set().contains((v as nat, v as nat)));
                        }
                        if s1.owner(edge_to_remove.index_spec() as int, direction.inverse()) == v {
                            assert(s1.chain_ok(v, direction.inverse()));
                            s1.lemma_list_holds(v, direction.inverse());
                            lemma_remove(
                                s1.list(v, direction.inverse()),
                                s1.list(v, direction.inverse()).index_of(
                                    edge_to_remove.index_spec() as int,
                                ),
                            );
                        }
                    }
                    self.release_edge(edge_to_remove);
                },
            }
        }
    }

    /// Moves the only edge on the list of `node` for `direction` to the
    /// free list, and returns the node at its other end.
    fn move_only_edge_to_free_list(&mut self, node: NodeIndex, direction: Direction) -> (other:
        NodeIndex)
        requires
            old(self).state().full(),
            node.index_spec() < old(self).state().n(),
            old(self).at(node, direction).len() == 1,
        ensures
            final(self).state().full(),
            final(self).state().n() == old(self).state().n(),
            other.index_spec() < old(self).state().n(),
            old(self).state().edge_set().contains(edge_between(node, other, direction)),
            final(self).state().edge_set() == old(self).state().edge_set().remove(
                edge_between(node, other, direction),
            ),
            forall|pair: (nat, nat)| #[trigger]
                old(self).state().edge_set().contains(pair) && ends_at(
                    pair,
                    node.index_spec() as nat,
                    direction,
                ) ==> pair == edge_between(node, other, direction),
            final(self).at(node, direction).len() == 0,
            final(self).at(node, direction.inverse()).len() == old(self).at(
                node,
                direction.inverse(),
            ).len() - if other == node {
                1int
            } else {
                0int
            },
            other.index_spec() == old(self).state().end(old(self).at(node, direction)[0], direction),
            final(self).state() == old(self).state().released(
                slot_at(old(self).at(node, direction)[0]),
            ),
    {
        let ghost s0 = self.state();
        let ghost v = node.index_spec() as int;
        proof {
            assert(s0.chain_ok(v, direction));
            assert(s0.entry_ok(v, direction, 0));
            s0.lemma_list_holds(v, direction);
        }
        let edge_to_remove = self.node(node).first_edges.get(direction).unwrap();
        let other = self.edge(edge_to_remove).nodes.get(direction);
        proof {
            let ei = edge_to_remove.index_spec() as int;
            lemma_slot_at(edge_to_remove);
            s0.lemma_released(edge_to_remove);
            lemma_remove(s0.list(v, direction), s0.list(v, direction).index_of(ei));
            assert(s0.chain_ok(v, direction.inverse()));
            if s0.owner(ei, direction.inverse()) == v {
                s0.lemma_list_holds(v, direction.inverse());
                lemma_remove(
                    s0.list(v, direction.inverse()),
                    s0.list(v, direction.inverse()).index_of(ei),
                );
                NodeIndex::index_is_injective(other, node);
            }
            assert forall|pair: (nat, nat)| #[trigger]
                s0.edge_set().contains(pair) && ends_at(pair, v as nat, direction) implies pair
                == edge_between(node, other, direction) by {
                let e = s0.lemma_slot_of(pair);
                assert(s0.owner(e, direction) == v);
                assert(s0.list(v, direction).contains(e));
                let j = choose|j: int|
                    0 <= j < s0.list(v, direction).len() && s0.list(v, direction)[j] == e;
                assert(j == 0);
            }
        }
        self.release_edge(edge_to_remove);
        other
    }

    /// Given a node that has exactly one successor, moves the outgoing edge
    /// to the free list, and returns the node that was its target.
    fn move_only_outgoing_edge_to_free_list(&mut self, node: NodeIndex) -> (successor: NodeIndex)
        requires
            old(self).state().full(),
            node.index_spec() < old(self).state().n(),
            old(self).at(node, Direction::Outgoing).len() == 1,
        ensures
            final(self).state().full(),
            final(self).state().n() == old(self).state().n(),
            successor.index_spec() < old(self).state().n(),
            old(self).state().edge_set().contains(
                (node.index_spec() as nat, successor.index_spec() as nat),
            ),
            final(self).state().edge_set() == old(self).state().edge_set().remove(
                (node.index_spec() as nat, successor.index_spec() as nat),
            ),
            forall|pair: (nat, nat)| #[trigger]
                old(self).state().edge_set().contains(pair) && pair.0 == node.index_spec()
                    ==> pair.1 == successor.index_spec(),
            final(self).at(node, Direction::Outgoing).len() == 0,
            final(self).at(node, Direction::Incoming).len() == old(self).at(
                node,
                Direction::Incoming,
            ).len() - if successor == node {
                1int
            } else {
                0int
            },
            successor.index_spec() == old(self).state().succ(
                old(self).at(node, Direction::Outgoing)[0],
            ),
            final(self).state() == old(self).state().released(
                slot_at(old(self).at(node, Direction::Outgoing)[0]),
            ),
    {
        let ghost s0 = self.state();
        let successor = self.move_only_edge_to_free_list(node, Direction::Outgoing);
        proof {
            assert forall|pair: (nat, nat)| #[trigger]
                s0.edge_set().contains(pair) && pair.0 == node.index_spec() implies pair.1
                == successor.index_spec() by {
                assert(ends_at(pair, node.index_spec() as nat, Direction::Outgoing));
            }
        }
        successor
    }

    /// Given a node that has exactly one predecessor, moves the incoming
    /// edge to the free list, and returns the node that was its source.
    fn move_only_incoming_edge_to_free_list(&mut self, node: NodeIndex) -> (predecessor:
        NodeIndex)
        requires
            old(self).state().full(),
            node.index_spec() < old(self).state().n(),
            old(self).at(node, Direction::Incoming).len() == 1,
        ensures
            final(self).state().full(),
            final(self).state().n() == old(self).state().n(),
            predecessor.index_spec() < old(self).state().n(),
            old(self).state().edge_set().contains(
                (predecessor.index_spec() as nat, node.index_spec() as nat),
            ),
            final(self).state().edge_set() == old(self).state().edge_set().remove(
                (predecessor.index_spec() as nat, node.index_spec() as nat),
            ),
            forall|pair: (nat, nat)| #[trigger]
                old(self).state().edge_set().contains(pair) && pair.1 == node.index_spec()
                    ==> pair.0 == predecessor.index_spec(),
            final(self).at(node, Direction::Incoming).len() == 0,
            final(self).at(node, Direction::Outgoing).len() == old(self).at(
                node,
                Direction::Outgoing,
            ).len() - if predecessor == node {
                1int
            } else {
                0int
            },
            predecessor.index_spec() == old(self).state().pred(
                old(self).at(node, Direction::Incoming)[0],
            ),
            final(self).state() == old(self).state().released(
                slot_at(old(self).at(node, Direction::Incoming)[0]),
            ),
    {
        let ghost s0 = self.state();
        let predecessor = self.move_only_edge_to_free_list(node, Direction::Incoming);
        proof {
            assert forall|pair: (nat, nat)| #[trigger]
                s0.edge_set().contains(pair) && pair.1 == node.index_spec() implies pair.0
                == predecessor.index_spec() by {
                assert(ends_at(pair, node.index_spec() as nat, Direction::Incoming));
            }
        }
        predecessor
    }

    /// Gives each edge on the list of `node` for `direction` the node
    /// `target` in place of `node`, and puts it in front of the list of
    /// `target`. An edge that `target` has already is moved to the free list
    /// instead. The lists of `target` end up in the reverse of the order
    /// that the edges had at `node`.
    fn redirect_edges(&mut self, node: NodeIndex, direction: Direction, target: NodeIndex)
        requires
            old(self).state().full(),
            node.index_spec() < old(self).state().n(),
            target.index_spec() < old(self).state().n(),
            target.index_spec() != node.index_spec(),
            old(self).at(node, direction.inverse()).len() == 0,
        ensures
            final(self).state().full(),
            final(self).state().n() == old(self).state().n(),
            final(self).at(node, direction).len() == 0,
            final(self).at(node, direction.inverse()).len() == 0,
            forall|pair: (nat, nat)| #[trigger]
                final(self).state().edge_set().contains(pair) <==> !ends_at(
                    pair,
                    node.index_spec() as nat,
                    direction,
                ) && (old(self).state().edge_set().contains(pair) || (ends_at(
                    pair,
                    target.index_spec() as nat,
                    direction,
                ) && old(self).state().edge_set().contains(
                    with_end(pair, node.index_spec() as nat, direction),
                ))),
            final(self).state() == old(self).state().redirected(
                node.index_spec() as int,
                direction,
                target.index_spec() as int,
                old(self).at(node, direction).len(),
            ),
    {
        let ghost s0 = self.state();
        let ghost v = node.index_spec() as int;
        let ghost t = target.index_spec() as int;
        let ghost inv = direction.inverse();
        loop
            invariant
                self.state().full(),
                self.state().n() == s0.n(),
                s0 == old(self).state(),
                self.state().redirected(v, direction, t, self.state().list(v, direction).len())
                    == s0.redirected(v, direction, t, s0.list(v, direction).len()),
                0 <= v < s0.n(),
                0 <= t < s0.n(),
                v == node.index_spec(),
                t == target.index_spec(),
                t != v,
                inv == direction.inverse(),
                self.state().list(v, inv).len() == 0,
                forall|pair: (nat, nat)|
                    !ends_at(pair, v as nat, direction) && !ends_at(pair, t as nat, direction)
                        ==> (#[trigger] self.state().edge_set().contains(pair)
                        <==> s0.edge_set().contains(pair)),
                forall|pair: (nat, nat)|
                    ends_at(pair, t as nat, direction) ==> (#[trigger] self.state().edge_set().contains(
                        pair,
                    ) <==> s0.edge_set().contains(pair) || (s0.edge_set().contains(
                        with_end(pair, v as nat, direction),
                    ) && !self.state().edge_set().contains(with_end(pair, v as nat, direction)))),
                forall|pair: (nat, nat)|
                    ends_at(pair, v as nat, direction) && #[trigger] self.state().edge_set().contains(
                        pair,
                    ) ==> s0.edge_set().contains(pair),
            decreases self.state().list(v, direction).len(),
        {
            let ghost s1 = self.state();
            proof {
                assert(s1.chain_ok(v, direction));
                s1.lemma_list_holds(v, direction);
                s1.lemma_list_holds(v, inv);
            }
            match self.node(node).first_edges.get(direction) {
                None => {
                    proof {
                        assert forall|pair: (nat, nat)| #[trigger]
                            s1.edge_set().contains(pair) implies !ends_at(
                            pair,
                            v as nat,
                            direction,
                        ) by {
                            let e = s1.lemma_slot_of(pair);
                            if ends_at(pair, v as nat, direction) {
                                assert(s1.owner(e, direction) == v);
                                assert(s1.list(v, direction).contains(e));
                            }
                        }
                        assert forall|pair: (nat, nat)| #[trigger]
                            s1.edge_set().contains(pair) <==> !ends_at(
                                pair,
                                v as nat,
                                direction,
                            ) && (s0.edge_set().contains(pair) || (ends_at(
                                pair,
                                t as nat,
                                direction,
                            ) && s0.edge_set().contains(with_end(pair, v as nat, direction)))) by {
                            let back = with_end(pair, v as nat, direction);
                            assert(ends_at(back, v as nat, direction));
                            assert(!s1.edge_set().contains(back));
                        }
                    }
                    return ;
                },
                Some(edge) => {
                    let ghost ei = edge.index_spec() as int;
                    let ghost x = Set::<int>::empty().insert(ei);
                    proof {
                        assert(s1.entry_ok(v, direction, 0));
                        s1.lemma_holds_edge(ei);
                        lemma_remove(s1.list(v, direction), s1.list(v, direction).index_of(ei));
                        if s1.owner(ei, inv) == v {
                            assert(s1.list(v, inv).contains(ei));
                        }
                    }
                    let data = *self.edge(edge);
                    let other = data.nodes.get(direction);
                    let ghost pair_e = (s1.pred(ei) as nat, s1.succ(ei) as nat);
                    let ghost moved = with_end(pair_e, t as nat, direction);
                    let present = match direction {
                        Direction::Incoming => self.find_edge(other, target).is_some(),
                        Direction::Outgoing => self.find_edge(target, other).is_some(),
                    };
                    proof {
                        assert(present == s1.edge_set().contains(moved));
                        assert(ends_at(pair_e, v as nat, direction));
                        assert(with_end(moved, v as nat, direction) == pair_e);
                        assert(moved == s1.moved_to(ei, t, direction));
                        lemma_slot_at(edge);
                        lemma_node_at(target);
                    }
                    if present {
                        proof {
                            s1.lemma_released(edge);
                        }
                        self.release_edge(edge);
                        proof {
                            let s2 = self.state();
                            assert forall|pair: (nat, nat)|
                                ends_at(pair, t as nat, direction) implies (
                            #[trigger] s2.edge_set().contains(pair) <==> s0.edge_set().contains(
                                pair,
                            ) || (s0.edge_set().contains(with_end(pair, v as nat, direction))
                                && !s2.edge_set().contains(
                                with_end(pair, v as nat, direction),
                            ))) by {
                                let back = with_end(pair, v as nat, direction);
                                assert(s1.edge_set().contains(pair) <==> s0.edge_set().contains(pair)
                                    || (s0.edge_set().contains(back) && !s1.edge_set().contains(
                                    back,
                                )));
                                if back == pair_e {
                                    assert(pair == moved);
                                }
                            }
                        }
                    } else {
                        self.unlink_edge(node, direction, edge, data.next_edges.get(direction));
                        let first_of_target = self.node(target).first_edges.get(direction);
                        let edge_data = self.edge_mut(edge);
                        edge_data.nodes.set(direction.invert(), target);
                        edge_data.next_edges.set(direction, first_of_target);
                        let node_data = self.node_mut(target);
                        node_data.first_edges.set(direction, Some(edge));
                        proof {
                            s1.lemma_excepted(ei, Set::empty());
                            assert(Set::<int>::empty().insert(ei) =~= x);
                            let s2 = s1.unlinked(v, direction, edge);
                            s1.lemma_unlinked(v, direction, edge, x);
                            assert(s2.off_lists(ei, direction)) by {
                                assert forall|w: int| 0 <= w < s2.n() implies !(#[trigger] s2.list(
                                    w,
                                    direction,
                                )).contains(ei) by {
                                    if w != v && s2.list(w, direction).contains(ei) {
                                        assert(s2.list(w, direction) == s1.list(w, direction));
                                        s1.lemma_on_own_list(w, direction, ei);
                                    }
                                }
                            }
                            let s3 = s2.hooked(edge, target, direction);
                            s2.lemma_hooked(edge, target, direction, x);
                            self.lists@ = s3.lists;
                            assert(self.state().nodes =~= s3.nodes);
                            assert(self.state().edges =~= s3.edges);
                            assert(self.state() == s3);
                            let o = s1.owner(ei, inv);
                            assert(s3.owner(ei, inv) == o);
                            assert(s1.linked(ei));
                            assert(o != v);
                            assert(s2.list(o, inv) == s1.list(o, inv));
                            assert(s3.list(o, inv) == s2.list(o, inv));
                            assert(s3.list(v, inv) == s1.list(v, inv));
                            assert(s3.active(ei));
                            assert(s3.linked(ei));
                            assert((s3.pred(ei) as nat, s3.succ(ei) as nat) == moved);
                            assert(x.remove(ei) =~= Set::<int>::empty());
                            s3.lemma_settled(ei, x);
                            assert(s3.edge_set() == s1.edge_set().remove(pair_e).insert(moved));
                            assert forall|pair: (nat, nat)|
                                ends_at(pair, t as nat, direction) implies (
                            #[trigger] s3.edge_set().contains(pair) <==> s0.edge_set().contains(
                                pair,
                            ) || (s0.edge_set().contains(with_end(pair, v as nat, direction))
                                && !s3.edge_set().contains(
                                with_end(pair, v as nat, direction),
                            ))) by {
                                let back = with_end(pair, v as nat, direction);
                                assert(s1.edge_set().contains(pair) <==> s0.edge_set().contains(pair)
                                    || (s0.edge_set().contains(back) && !s1.edge_set().contains(
                                    back,
                                )));
                                if back == pair_e {
                                    assert(pair == moved);
                                }
                            }
                        }
                    }
                },
            }
        }
    }

    /// Gives each incoming edge of `node` the target `successor` in place
    /// of `node`, and puts it in front of the incoming edges of
    /// `successor`. An edge that `successor` has already is moved to the
    /// free list instead.
    fn redirect_incoming_edges(&mut self, node: NodeIndex, successor: NodeIndex)
        requires
            old(self).state().full(),
            node.index_spec() < old(self).state().n(),
            successor.index_spec() < old(self).state().n(),
            successor.index_spec() != node.index_spec(),
            old(self).at(node, Direction::Outgoing).len() == 0,
        ensures
            final(self).state().full(),
            final(self).state().n() == old(self).state().n(),
            forall|pair: (nat, nat)| #[trigger]
                final(self).state().edge_set().contains(pair) <==> pair.1 != node.index_spec() && (
                old(self).state().edge_set().contains(pair) || (pair.1 == successor.index_spec()
                    && old(self).state().edge_set().contains(
                    (pair.0, node.index_spec() as nat),
                ))),
            final(self).state() == old(self).state().redirected(
                node.index_spec() as int,
                Direction::Incoming,
                successor.index_spec() as int,
                old(self).at(node, Direction::Incoming).len(),
            ),
    {
        self.redirect_edges(node, Direction::Incoming, successor);
    }

    /// Gives each outgoing edge of `node` the source `predecessor` in place
    /// of `node`, and puts it in front of the outgoing edges of
    /// `predecessor`. An edge that `predecessor` has already is moved to the
    /// free list instead.
    fn redirect_outgoing_edges(&mut self, node: NodeIndex, predecessor: NodeIndex)
        requires
            old(self).state().full(),
            node.index_spec() < old(self).state().n(),
            predecessor.index_spec() < old(self).state().n(),
            predecessor.index_spec() != node.index_spec(),
            old(self).at(node, Direction::Incoming).len() == 0,
        ensures
            final(self).state().full(),
            final(self).state().n() == old(self).state().n(),
            forall|pair: (nat, nat)| #[trigger]
                final(self).state().edge_set().contains(pair) <==> pair.0 != node.index_spec() && (
                old(self).state().edge_set().contains(pair) || (pair.0
                    == predecessor.index_spec() && old(self).state().edge_set().contains(
                    (node.index_spec() as nat, pair.1),
                ))),
            final(self).state() == old(self).state().redirected(
                node.index_spec() as int,
                Direction::Outgoing,
                predecessor.index_spec() as int,
                old(self).at(node, Direction::Outgoing).len(),
            ),
    {
        self.redirect_edges(node, Direction::Outgoing, predecessor);
    }

    /// The edge slots on the list of `node` for `direction`, first entry
    /// first.
    fn edges(&self, node: NodeIndex, direction: Direction) -> (r: Vec<EdgeIndex>)
        requires
            self.state().chained(),
            node.index_spec() < self.state().n(),
        ensures
            r.len() == self.at(node, direction).len(),
            forall|i: int|
                0 <= i < r.len() ==> (#[trigger] r[i]).index_spec() == self.at(node, direction)[i],
    {
        let ghost st = self.state();
        let ghost v = node.index_spec() as int;
        let ghost l = st.list(v, direction);
        let mut out: Vec<EdgeIndex> = Vec::new();
        let mut cur = self.node(node).first_edges.get(direction);
        proof {
            assert(st.chain_ok(v, direction));
        }
        loop
            invariant
                st == self.state(),
                st.chained(),
                0 <= v < st.n(),
                l == st.list(v, direction),
                out.len() <= l.len(),
                id_of(cur) == link(l, out.len() as int),
                forall|i: int| 0 <= i < out.len() ==> (#[trigger] out[i]).index_spec() == l[i],
            ensures
                out.len() == l.len(),
                forall|i: int| 0 <= i < out.len() ==> (#[trigger] out[i]).index_spec() == l[i],
            decreases l.len() - out.len(),
        {
            match cur {
                None => {
                    break ;
                },
                Some(e) => {
                    proof {
                        assert(st.chain_ok(v, direction));
                        assert(st.entry_ok(v, direction, out.len() as int));
                    }
                    cur = self.edge(e).next_edges.get(direction);
                    out.push(e);
                },
            }
        }
        out
    }

    /// The nodes at the other ends of the edges on the list of `node` for
    /// `direction`, in the order of the list.
    fn other_ends(&self, node: NodeIndex, direction: Direction) -> (r: Vec<NodeIndex>)
        requires
            self.state().full(),
            node.index_spec() < self.state().n(),
        ensures
            r@.map_values(|x: NodeIndex| x.index_spec() as nat) == self.state().ends(
                node.index_spec() as int,
                direction,
            ),
    {
        let ghost st = self.state();
        let ghost v = node.index_spec() as int;
        let ghost l = st.list(v, direction);
        let edges = self.edges(node, direction);
        let mut out: Vec<NodeIndex> = Vec::new();
        let mut k: usize = 0;
        proof {
            assert(st.chain_ok(v, direction));
        }
        while k < edges.len()
            invariant
                st == self.state(),
                st.full(),
                0 <= v < st.n(),
                l == st.list(v, direction),
                edges.len() == l.len(),
                forall|i: int| 0 <= i < edges.len() ==> (#[trigger] edges[i]).index_spec() == l[i],
                k <= edges.len(),
                out.len() == k,
                forall|i: int|
                    0 <= i < k ==> (#[trigger] out[i]).index_spec() == st.end(l[i], direction),
            decreases edges.len() - k,
        {
            proof {
                assert(st.chain_ok(v, direction));
                assert(st.entry_ok(v, direction, k as int));
            }
            out.push(self.edge(edges[k]).nodes.get(direction));
            k += 1;
        }
        proof {
            assert(out@.map_values(|x: NodeIndex| x.index_spec() as nat) =~= st.ends(v, direction));
        }
        out
    }

    fn successors_internal(&self, node: NodeIndex) -> (r: Vec<NodeIndex>)
        requires
            self.state().full(),
            node.index_spec() < self.state().n(),
        ensures
            r@.map_values(|x: NodeIndex| x.index_spec() as nat) == self.state().ends(
                node.index_spec() as int,
                Direction::Outgoing,
            ),
    {
        self.other_ends(node, Direction::Outgoing)
    }

    fn predecessors_internal(&self, node: NodeIndex) -> (r: Vec<NodeIndex>)
        requires
            self.state().full(),
            node.index_spec() < self.state().n(),
        ensures
            r@.map_values(|x: NodeIndex| x.index_spec() as nat) == self.state().ends(
                node.index_spec() as int,
                Direction::Incoming,
            ),
    {
        self.other_ends(node, Direction::Incoming)
    }

    /// Takes away all the edges of `node`, which has no edge to itself, and
    /// adds an edge from each of its predecessors to each of its
    /// successors.
    fn redirect_all_edges(&mut self, node: NodeIndex)
        requires
            old(self).state().full(),
            node.index_spec() < old(self).state().n(),
            !old(self).state().edge_set().contains(
                (node.index_spec() as nat, node.index_spec() as nat),
            ),
        ensures
            final(self).state().full(),
            final(self).state().n() == old(self).state().n(),
            final(self).state().edge_set() == without_node(
                old(self).state().edge_set(),
                node.index_spec() as nat,
            ),
            final(self).state() == old(self).state().released_first(
                node.index_spec() as int,
                Direction::Outgoing,
                old(self).at(node, Direction::Outgoing).len(),
            ).released_first(
                node.index_spec() as int,
                Direction::Incoming,
                old(self).at(node, Direction::Incoming).len(),
            ).with_all_edges(
                old(self).state().ends(node.index_spec() as int, Direction::Incoming),
                old(self).state().ends(node.index_spec() as int, Direction::Outgoing),
            ),
    {
        let ghost s0 = self.state();
        let ghost e0 = s0.edge_set();
        let ghost v = node.index_spec() as nat;
        let successors = self.successors_internal(node);
        let predecessors = self.predecessors_internal(node);
        let ghost succs = successors@.map_values(|x: NodeIndex| x.index_spec() as nat);
        let ghost preds = predecessors@.map_values(|x: NodeIndex| x.index_spec() as nat);
        proof {
            s0.lemma_ends(v as int, Direction::Outgoing);
            s0.lemma_ends(v as int, Direction::Incoming);
        }
        self.move_edges_to_free_list(node, Direction::Outgoing);
        self.move_edges_to_free_list(node, Direction::Incoming);
        let ghost e1 = self.state().edge_set();
        let ghost cleared = self.state();
        let mut i: usize = 0;
        proof {
            assert(succs.skip(0) =~= succs);
        }
        while i < successors.len()
            invariant
                i <= successors.len(),
                self.state().full(),
                self.state().n() == s0.n(),
                v < s0.n(),
                self.state().with_all_edges(preds, succs.skip(i as int)) == cleared.with_all_edges(
                    preds,
                    succs,
                ),
                succs == successors@.map_values(|x: NodeIndex| x.index_spec() as nat),
                preds == predecessors@.map_values(|x: NodeIndex| x.index_spec() as nat),
                forall|k: int| 0 <= k < succs.len() ==> #[trigger] succs[k] < s0.n(),
                forall|k: int| 0 <= k < preds.len() ==> #[trigger] preds[k] < s0.n(),
                forall|pair: (nat, nat)| #[trigger]
                    self.state().edge_set().contains(pair) <==> e1.contains(pair) || (
                    preds.contains(pair.0) && succs.take(i as int).contains(pair.1)),
            decreases successors.len() - i,
        {
            let s = successors[i];
            let ghost before = self.state().edge_set();
            let ghost rest = succs.skip(i as int);
            let mut j: usize = 0;
            proof {
                assert(preds.skip(0) =~= preds);
                assert(rest[0] == succs[i as int]);
                assert(rest.drop_first() =~= succs.skip(i + 1));
            }
            while j < predecessors.len()
                invariant
                    i < successors.len(),
                    j <= predecessors.len(),
                    s == successors[i as int],
                    self.state().full(),
                    self.state().n() == s0.n(),
                    self.state().with_edges_to(preds.skip(j as int), succs[i as int]).with_all_edges(
                        preds,
                        succs.skip(i + 1),
                    ) == cleared.with_all_edges(preds, succs),
                    succs == successors@.map_values(|x: NodeIndex| x.index_spec() as nat),
                    preds == predecessors@.map_values(|x: NodeIndex| x.index_spec() as nat),
                    forall|k: int| 0 <= k < succs.len() ==> #[trigger] succs[k] < s0.n(),
                    forall|k: int| 0 <= k < preds.len() ==> #[trigger] preds[k] < s0.n(),
                    forall|pair: (nat, nat)| #[trigger]
                        self.state().edge_set().contains(pair) <==> before.contains(pair) || (
                        preds.take(j as int).contains(pair.0) && pair.1 == succs[i as int]),
                decreases predecessors.len() - j,
            {
                let p = predecessors[j];
                proof {
                    assert(succs[i as int] == s.index_spec());
                    assert(preds[j as int] == p.index_spec());
                    assert(preds.skip(j as int)[0] == preds[j as int]);
                    assert(preds.skip(j as int).drop_first() =~= preds.skip(j + 1));
                }
                self.add_edge_internal(p, s);
                proof {
                    let done = preds.take(j as int);
                    let more = preds.take(j + 1);
                    assert(more =~= done.push(preds[j as int]));
                    assert forall|pair: (nat, nat)| #[trigger]
                        self.state().edge_set().contains(pair) <==> before.contains(pair) || (
                        more.contains(pair.0) && pair.1 == succs[i as int]) by {
                        if more.contains(pair.0) {
                            let k = choose|k: int| 0 <= k < more.len() && more[k] == pair.0;
                            if k < j {
                                assert(done[k] == pair.0);
                            }
                        }
                        if done.contains(pair.0) {
                            let k = choose|k: int| 0 <= k < done.len() && done[k] == pair.0;
                            assert(more[k] == pair.0);
                        }
                        if pair.0 == preds[j as int] {
                            assert(more[j as int] == pair.0);
                        }
                    }
                }
                j += 1;
            }
            proof {
                assert(preds.skip(preds.len() as int) =~= Seq::<nat>::empty());
                assert(preds.take(preds.len() as int) =~= preds);
                let done = succs.take(i as int);
                let more = succs.take(i + 1);
                assert(more =~= done.push(succs[i as int]));
                assert forall|pair: (nat, nat)| #[trigger]
                    self.state().edge_set().contains(pair) <==> e1.contains(pair) || (
                    preds.contains(pair.0) && more.contains(pair.1)) by {
                    if more.contains(pair.1) {
                        let k = choose|k: int| 0 <= k < more.len() && more[k] == pair.1;
                        if k < i {
                            assert(done[k] == pair.1);
                        }
                    }
                    if done.contains(pair.1) {
                        let k = choose|k: int| 0 <= k < done.len() && done[k] == pair.1;
                        assert(more[k] == pair.1);
                    }
                    if pair.1 == succs[i as int] {
                        assert(more[i as int] == pair.1);
                    }
                }
            }
            i += 1;
        }
        proof {
            assert(succs.skip(succs.len() as int) =~= Seq::<nat>::empty());
            assert(succs.take(succs.len() as int) =~= succs);
            assert forall|pair: (nat, nat)|
                self.state().edge_set().contains(pair) == without_node(e0, v).contains(pair) by {
                assert(e1.contains(pair) <==> e0.contains(pair) && !ends_at(
                    pair,
                    v,
                    Direction::Outgoing,
                ) && !ends_at(pair, v, Direction::Incoming)) by {
                    assert(ends_at((pair.0, pair.1), v, Direction::Outgoing) == (pair.0 == v));
                }
                assert(preds.contains(pair.0) <==> e0.contains((pair.0, v)));
                assert(succs.contains(pair.1) <==> e0.contains((v, pair.1)));
            }
            assert(self.state().edge_set() =~= without_node(e0, v));
        }
    }

    /// Removes all the edges of `node` and keeps the other nodes connected:
    /// afterwards there is an edge from `a` to `b`, both of them other
    /// nodes, exactly when there was that edge before, or an edge from `a`
    /// to `node` and one from `node` to `b`. Where `node` has no edges
    /// nothing changes at all. Which slots are freed and reused on the way,
    /// and in what order, is what `State::without` spells out.
    pub fn remove_edges(&mut self, node: F::UserNode)
        requires
            old(self).wf(),
            F::node_spec(node) < old(self).num_nodes(),
        ensures
            final(self).wf(),
            final(self).num_nodes() == old(self).num_nodes(),
            final(self).edge_set() == without_node(old(self).edge_set(), F::node_spec(node) as nat),
            final(self).degree(F::node_spec(node) as int) == 0,
            old(self).degree(F::node_spec(node) as int) == 0 ==> final(self).state() == old(
                self
            ).state(),
            final(self).state() == old(self).state().without(F::node_spec(node) as int),
    {
        let node = F::into_node(node);
        self.remove_edges_internal(node);
        proof {
            self.state().lemma_no_edges(node.index_spec() as int);
        }
    }

    /// Removes all the edges of `node` and keeps the other nodes connected.
    fn remove_edges_internal(&mut self, node: NodeIndex)
        requires
            old(self).state().full(),
            node.index_spec() < old(self).state().n(),
        ensures
            final(self).state().full(),
            final(self).state().n() == old(self).state().n(),
            final(self).state().edge_set() == without_node(
                old(self).state().edge_set(),
                node.index_spec() as nat,
            ),
            old(self).degree(node.index_spec() as int) == 0 ==> final(self).state() == old(
                self
            ).state(),
            final(self).state() == old(self).state().without(node.index_spec() as int),
    {
        let ghost s0 = self.state();
        let ghost e0 = s0.edge_set();
        let ghost v = node.index_spec() as nat;
        proof {
            s0.lemma_list_holds(v as int, Direction::Outgoing);
            s0.lemma_list_holds(v as int, Direction::Incoming);
            assert(s0.chain_ok(v as int, Direction::Outgoing));
            assert(s0.chain_ok(v as int, Direction::Incoming));
        }
        // An edge from the node to itself connects no other nodes.
        if let Some(own) = self.find_edge(node, node) {
            proof {
                s0.lemma_released(own);
                s0.lemma_slot_of_unique(own.index_spec() as int);
                lemma_slot_at(own);
                assert(s0.list(v as int, Direction::Outgoing).contains(own.index_spec() as int));
            }
            self.release_edge(own);
        }
        let ghost s1 = self.state();
        let ghost e1 = s1.edge_set();
        proof {
            assert(s1 == s0.without_loop(v as int));
            assert(!e1.contains((v, v)));
            assert forall|pair: (nat, nat)|
                without_node(e1, v).contains(pair) == without_node(e0, v).contains(pair) by {}
            assert(without_node(e1, v) =~= without_node(e0, v));
            s1.lemma_list_holds(v as int, Direction::Outgoing);
            s1.lemma_list_holds(v as int, Direction::Incoming);
            assert(s1.chain_ok(v as int, Direction::Outgoing));
            assert(s1.chain_ok(v as int, Direction::Incoming));
            assert forall|pair: (nat, nat)| #[trigger]
                e1.contains(pair) && pair.1 == v implies s1.list(
                v as int,
                Direction::Incoming,
            ).len() > 0 by {
                let e = s1.lemma_slot_of(pair);
                assert(s1.owner(e, Direction::Incoming) == v);
                assert(s1.list(v as int, Direction::Incoming).contains(e));
            }
            assert forall|pair: (nat, nat)| #[trigger]
                e1.contains(pair) && pair.0 == v implies s1.list(
                v as int,
                Direction::Outgoing,
            ).len() > 0 by {
                let e = s1.lemma_slot_of(pair);
                assert(s1.owner(e, Direction::Outgoing) == v);
                assert(s1.list(v as int, Direction::Outgoing).contains(e));
            }
        }
        let incoming_count = self.count_edges_saturating(node, Direction::Incoming);
        if incoming_count == 0 {
            // Easy case: node with only outgoing edges (or no edges at
            // all). Just kill all the edges, as there can be no transitive
            // relationships.
            self.move_edges_to_free_list(node, Direction::Outgoing);
            proof {
                assert forall|pair: (nat, nat)|
                    self.state().edge_set().contains(pair) == without_node(e1, v).contains(
                        pair,
                    ) by {
                    assert(ends_at(pair, v, Direction::Outgoing) == (pair.0 == v));
                }
                assert(self.state().edge_set() =~= without_node(e1, v));
            }
            return ;
        }
        let outgoing_count = self.count_edges_saturating(node, Direction::Outgoing);
        if outgoing_count == 0 {
            // Easy case: node with only incoming edges. Just kill all the
            // edges, as above.
            self.move_edges_to_free_list(node, Direction::Incoming);
            proof {
                assert forall|pair: (nat, nat)|
                    self.state().edge_set().contains(pair) == without_node(e1, v).contains(
                        pair,
                    ) by {
                    assert(ends_at(pair, v, Direction::Incoming) == (pair.1 == v));
                }
                assert(self.state().edge_set() =~= without_node(e1, v));
            }
            return ;
        }
        if outgoing_count == 1 {
            // Before                  After
            //
            // A --+
            //     |
            //     v
            //     C --> D         A --> D <-- B
            //     ^
            //     |
            // B --+
            let successor = self.move_only_outgoing_edge_to_free_list(node);
            let ghost e2 = self.state().edge_set();
            self.redirect_incoming_edges(node, successor);
            proof {
                let t = successor.index_spec() as nat;
                assert forall|pair: (nat, nat)|
                    self.state().edge_set().contains(pair) == without_node(e1, v).contains(
                        pair,
                    ) by {
                    assert(e2.contains(pair) <==> e1.contains(pair) && pair != (v, t));
                    assert(e2.contains((pair.0, v)) <==> e1.contains((pair.0, v)) && (pair.0, v)
                        != (v, t));
                }
                assert(self.state().edge_set() =~= without_node(e1, v));
            }
            return ;
        }
        if incoming_count == 1 {
            // Before                    After
            //
            //
            //           +--> D            +--> D
            //           |                 |
            // A --> B --+             A --+
            //           |                 |
            //           +--> C            +--> C
            //
            //
            let predecessor = self.move_only_incoming_edge_to_free_list(node);
            let ghost e2 = self.state().edge_set();
            self.redirect_outgoing_edges(node, predecessor);
            proof {
                let t = predecessor.index_spec() as nat;
                assert forall|pair: (nat, nat)|
                    self.state().edge_set().contains(pair) == without_node(e1, v).contains(
                        pair,
                    ) by {
                    assert(e2.contains(pair) <==> e1.contains(pair) && pair != (t, v));
                    assert(e2.contains((v, pair.1)) <==> e1.contains((v, pair.1)) && (v, pair.1)
                        != (t, v));
                }
                assert(self.state().edge_set() =~= without_node(e1, v));
            }
            return ;
        }
        // final case: multiple in, multiple out. This case allocates, which
        // is why it is after all of the others.
        self.redirect_all_edges(node);
    }

    /// The successors of `node`, each once, in the order of its list of
    /// outgoing edges.
    pub fn successors(&self, node: F::UserNode) -> (r: Vec<F::UserNode>)
        requires
            self.wf(),
            F::node_spec(node) < self.num_nodes(),
        ensures
            r@.map_values(|u: F::UserNode| F::node_spec(u) as nat) == self.state().ends(
                F::node_spec(node) as int,
                Direction::Outgoing,
            ),
    {
        let node = F::into_node(node);
        let found = self.successors_internal(node);
        let ghost ends = self.state().ends(node.index_spec() as int, Direction::Outgoing);
        proof {
            self.state().lemma_ends(node.index_spec() as int, Direction::Outgoing);
            assert(found@.len() == ends.len());
        }
        let mut out: Vec<F::UserNode> = Vec::new();
        let mut k: usize = 0;
        while k < found.len()
            invariant
                k <= found.len(),
                out.len() == k,
                self.wf(),
                found@.map_values(|x: NodeIndex| x.index_spec() as nat) == ends,
                forall|i: int| 0 <= i < ends.len() ==> #[trigger] ends[i] < self.state().n(),
                forall|i: int| 0 <= i < k ==> F::node_spec(#[trigger] out[i]) == ends[i],
            decreases found.len() - k,
        {
            proof {
                assert(found@.map_values(|x: NodeIndex| x.index_spec() as nat)[k as int]
                    == found[k as int].index_spec());
                assert(ends[k as int] < self.state().n());
            }
            out.push(F::from_node(found[k]));
            k += 1;
        }
        proof {
            assert(out@.map_values(|u: F::UserNode| F::node_spec(u) as nat) =~= ends);
        }
        out
    }

    /// The predecessors of `node`, each once, in the order of its list of
    /// incoming edges.
    pub fn predecessors(&self, node: F::UserNode) -> (r: Vec<NodeIndex>)
        requires
            self.wf(),
            F::node_spec(node) < self.num_nodes(),
        ensures
            r@.map_values(|x: NodeIndex| x.index_spec() as nat) == self.state().ends(
                F::node_spec(node) as int,
                Direction::Incoming,
            ),
    {
        let node = F::into_node(node);
        self.predecessors_internal(node)
    }

    /// The nodes, first node first.
    pub fn nodes(&self) -> (r: Vec<NodeIndex>)
        ensures
            r.len() == self.num_nodes(),
            forall|i: int| 0 <= i < r.len() ==> (#[trigger] r[i]).index_spec() == i,
    {
        let count = self.nodes.len();
        let mut out: Vec<NodeIndex> = Vec::new();
        let mut i: usize = 0;
        while i < count
            invariant
                i <= count,
                out.len() == i,
                forall|k: int| 0 <= k < i ==> (#[trigger] out[k]).index_spec() == k,
            decreases count - i,
        {
            out.push(NodeIndex::from_usize(i));
            i += 1;
        }
        out
    }

    /// The edges and the free list as text, one line for each edge and for
    /// each free slot: the edges node by node, those of one node in the
    /// order of its list of outgoing edges, then the free list from its
    /// first entry on.
    pub fn dump_and_assert(&self) -> (result: Vec<String>)
        requires
            self.wf(),
        ensures
            result@.map_values(|line: String| line@) == self.state().dump(),
    {
        let ghost st = self.state();
        let mut result: Vec<String> = Vec::new();
        let nodes = self.nodes();
        let mut v: usize = 0;
        proof {
            assert(result@.map_values(|line: String| line@) =~= st.lines_upto(0));
        }
        while v < nodes.len()
            invariant
                v <= nodes.len(),
                st == self.state(),
                st.full(),
                nodes.len() == st.n(),
                forall|i: int| 0 <= i < nodes.len() ==> (#[trigger] nodes[i]).index_spec() == i,
                result@.map_values(|line: String| line@) == st.lines_upto(v as int),
            decreases nodes.len() - v,
        {
            let pred = nodes[v];
            let edges = self.edges(pred, Direction::Outgoing);
            let ghost l = st.list(v as int, Direction::Outgoing);
            let ghost before = result@.map_values(|line: String| line@);
            let mut k: usize = 0;
            proof {
                assert(st.chain_ok(v as int, Direction::Outgoing));
                assert(result@.map_values(|line: String| line@) =~= before + st.node_lines(
                    v as int,
                ).take(0));
            }
            while k < edges.len()
                invariant
                    k <= edges.len(),
                    v < nodes.len(),
                    st == self.state(),
                    st.full(),
                    nodes.len() == st.n(),
                    pred.index_spec() == v,
                    l == st.list(v as int, Direction::Outgoing),
                    edges.len() == l.len(),
                    forall|i: int| 0 <= i < edges.len() ==> (#[trigger] edges[i]).index_spec() == l[i],
                    result@.map_values(|line: String| line@) == before + st.node_lines(
                        v as int,
                    ).take(k as int),
                decreases edges.len() - k,
            {
                let edge = edges[k];
                proof {
                    assert(st.chain_ok(v as int, Direction::Outgoing));
                    assert(st.entry_ok(v as int, Direction::Outgoing, k as int));
                }
                let succ = self.edge(edge).nodes.outgoing();
                let mut line = String::new();
                line.append("N(");
                push_decimal(&mut line, pred.to_usize());
                line.append(") --E(");
                push_decimal(&mut line, edge.to_usize());
                line.append(")--> N(");
                push_decimal(&mut line, succ.to_usize());
                line.append(")");
                let ghost shown = result@.map_values(|line: String| line@);
                result.push(line);
                proof {
                    let all = st.node_lines(v as int);
                    assert(line@ == all[k as int]);
                    assert(all.take(k + 1) =~= all.take(k as int).push(all[k as int]));
                    assert(result@.map_values(|line: String| line@) =~= shown.push(line@));
                    assert(result@.map_values(|line: String| line@) =~= before + all.take(k + 1));
                }
                k += 1;
            }
            proof {
                let all = st.node_lines(v as int);
                assert(all.take(all.len() as int) =~= all);
                assert(st.lines_upto(v + 1) == st.lines_upto(v as int) + all);
            }
            v += 1;
        }
        let ghost before = result@.map_values(|line: String| line@);
        let ghost f = st.lists.free;
        let mut next_free_edge = self.edge_free_list;
        let ghost mut k: int = 0;
        proof {
            assert(st.free_ok());
            assert(result@.map_values(|line: String| line@) =~= before + st.free_lines().take(0));
        }
        loop
            invariant
                st == self.state(),
                st.full(),
                f == st.lists.free,
                0 <= k <= f.len(),
                id_of(next_free_edge) == link(f, k),
                before == st.lines_upto(st.n()),
                result@.map_values(|line: String| line@) == before + st.free_lines().take(k),
            ensures
                result@.map_values(|line: String| line@) == before + st.free_lines(),
            decreases f.len() - k,
        {
            match next_free_edge {
                None => {
                    proof {
                        assert(st.free_lines().take(f.len() as int) =~= st.free_lines());
                    }
                    break ;
                },
                Some(free_edge) => {
                    proof {
                        assert(st.free_ok());
                        assert(st.free_entry_ok(k));
                    }
                    let mut line = String::new();
                    line.append("free edge E(");
                    push_decimal(&mut line, free_edge.to_usize());
                    line.append(")");
                    let ghost shown = result@.map_values(|line: String| line@);
                    result.push(line);
                    next_free_edge = self.edge(free_edge).next_edges.outgoing();
                    proof {
                        let all = st.free_lines();
                        assert(line@ == all[k]);
                        assert(all.take(k + 1) =~= all.take(k).push(all[k]));
                        assert(result@.map_values(|line: String| line@) =~= shown.push(line@));
                        k = k + 1;
                    }
                },
            }
        }
        result
    }

    /// The lists of successors and the lists of predecessors show the same
    /// edges, and each of them once: `b` is among the successors of `a`
    /// exactly when `a` is among the predecessors of `b`, which is exactly
    /// when the relation has the edge from `a` to `b`; and no list names a
    /// node twice.
    pub proof fn lemma_edge_lists_agree(self, a: nat, b: nat)
        requires
            self.wf(),
            a < self.num_nodes(),
            b < self.num_nodes(),
        ensures
            self.state().ends(a as int, Direction::Outgoing).contains(b)
                == self.edge_set().contains((a, b)),
            self.state().ends(b as int, Direction::Incoming).contains(a)
                == self.edge_set().contains((a, b)),
            self.state().ends(a as int, Direction::Outgoing).no_duplicates(),
            self.state().ends(b as int, Direction::Incoming).no_duplicates(),
    {
        self.state().lemma_ends(a as int, Direction::Outgoing);
        self.state().lemma_ends(b as int, Direction::Incoming);
    }

    /// The number of edges that enter or leave node `v`.
    pub open spec fn degree(self, v: int) -> nat {
        self.state().list(v, Direction::Outgoing).len() + self.state().list(
            v,
            Direction::Incoming,
        ).len()
    }
}

impl<F: VecFamily> Clone for Relation<F> {
    /// A relation that holds the same in stores of its own.
    fn clone(&self) -> (r: Self)
        ensures
            r.state() == self.state(),
    {
        let mut nodes = F::NodeVec::empty();
        let count = self.nodes.len();
        let mut i: usize = 0;
        while i < count
            invariant
                i <= count,
                count == self.nodes.elements().len(),
                nodes.elements() == self.nodes.elements().take(i as int),
            decreases count - i,
        {
            let data = *self.nodes.get(NodeIndex::from_usize(i));
            nodes.push(data);
            proof {
                assert(self.nodes.elements().take(i + 1) =~= self.nodes.elements().take(
                    i as int,
                ).push(data));
            }
            i += 1;
        }
        let mut edges = F::EdgeVec::empty();
        let slots = self.edges.len();
        let mut k: usize = 0;
        while k < slots
            invariant
                k <= slots,
                slots == self.edges.elements().len(),
                edges.elements() == self.edges.elements().take(k as int),
            decreases slots - k,
        {
            let data = *self.edges.get(EdgeIndex::from_usize(k));
            edges.push(data);
            proof {
                assert(self.edges.elements().take(k + 1) =~= self.edges.elements().take(
                    k as int,
                ).push(data));
            }
            k += 1;
        }
        proof {
            assert(self.nodes.elements().take(count as int) =~= self.nodes.elements());
            assert(self.edges.elements().take(slots as int) =~= self.edges.elements());
        }
        Relation { nodes, edges, edge_free_list: self.edge_free_list, lists: Ghost(self.lists@) }
    }
}

impl<R: Idx> Graph<R> for Relation<StdVec<R>> {
    open spec fn node_count(&self) -> nat {
        self.num_nodes()
    }

    open spec fn edge_pairs(&self) -> Set<(nat, nat)> {
        self.edge_set()
    }

    open spec fn consistent(&self) -> bool {
        self.wf()
    }

    fn successors_of(&self, node: R) -> (r: Vec<R>) {
        let r = self.successors(node);
        proof {
            let v = node.index_spec() as int;
            let ends = self.state().ends(v, Direction::Outgoing);
            let named = r@.map_values(|u: R| StdVec::<R>::node_spec(u) as nat);
            self.state().lemma_ends(v, Direction::Outgoing);
            assert forall|i: int| 0 <= i < r.len() implies (#[trigger] r[i]).index_spec()
                < self.node_count() && self.edge_pairs().contains(
                (v as nat, r[i].index_spec() as nat),
            ) by {
                assert(named[i] == r[i].index_spec());
                assert(ends.contains(ends[i]));
            }
            assert forall|b: nat| #[trigger]
                self.edge_pairs().contains((v as nat, b)) implies exists|i: int|
                0 <= i < r.len() && (#[trigger] r[i]).index_spec() == b by {
                assert(ends.contains(b));
                let i = choose|i: int| 0 <= i < ends.len() && ends[i] == b;
                assert(named[i] == r[i].index_spec());
            }
        }
        r
    }
}

/// Whether the edge `pair` has `node` as the end on whose list for
/// `direction` it is: as its source for the outgoing direction, as its
/// target for the incoming one.
pub open spec fn ends_at(pair: (nat, nat), node: nat, direction: Direction) -> bool {
    match direction {
        Direction::Outgoing => pair.0 == node,
        Direction::Incoming => pair.1 == node,
    }
}

/// The edge that has `node` as the end on whose list for `direction` it is,
/// and `other` as its other end.
pub open spec fn edge_between(node: NodeIndex, other: NodeIndex, direction: Direction) -> (
    nat,
    nat,
) {
    match direction {
        Direction::Outgoing => (node.index_spec() as nat, other.index_spec() as nat),
        Direction::Incoming => (other.index_spec() as nat, node.index_spec() as nat),
    }
}

/// The edge `pair` with `node` in place of the end on whose list for
/// `direction` it is.
pub open spec fn with_end(pair: (nat, nat), node: nat, direction: Direction) -> (nat, nat) {
    match direction {
        Direction::Outgoing => (node, pair.1),
        Direction::Incoming => (pair.0, node),
    }
}

} // verus!
