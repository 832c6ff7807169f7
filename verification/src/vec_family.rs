//! The kinds of storage that a relation can be built on.

use crate::idx::Idx;
use crate::indices::{EdgeIndex, NodeIndex};
use crate::list::{EdgeData, NodeData};
use std::marker::PhantomData;
use vstd::prelude::*;

verus! {

/// An identifier that is a position in an indexed store.
pub trait IndexType: Copy + Sized {
    /// The position that this identifier stands for.
    spec fn index_spec(self) -> usize;

    /// The position that this identifier stands for.
    fn to_usize(self) -> (r: usize)
        ensures
            r == self.index_spec(),
    ;

    /// The identifier of the position `value`.
    fn from_usize(value: usize) -> (r: Self)
        ensures
            r.index_spec() == value,
    ;

    /// Two identifiers of one position are the same.
    proof fn index_is_injective(a: Self, b: Self)
        requires
            a.index_spec() == b.index_spec(),
        ensures
            a == b,
    ;
}

/// A store of values of type `T` at the positions `0 .. len`, read and
/// written by identifiers of type `I`.
pub trait IndexVec<I: IndexType, T>: Sized {
    /// The values in the store, by position.
    spec fn elements(&self) -> Seq<T>;

    /// A store of `num_elts` values, each made by `T::default`.
    fn with_default_elements(num_elts: usize) -> (r: Self) where T: Default
        ensures
            r.elements().len() == num_elts,
            forall|i: int|
                0 <= i < num_elts ==> call_ensures(T::default, (), #[trigger] r.elements()[i]),
    ;

    /// A store without values.
    fn empty() -> (r: Self)
        ensures
            r.elements() == Seq::<T>::empty(),
    ;

    /// The value at `index`.
    fn get(&self, index: I) -> (r: &T)
        requires
            index.index_spec() < self.elements().len(),
        ensures
            *r == self.elements()[index.index_spec() as int],
    ;

    /// The value at `index`, to be changed in place.
    fn get_mut(&mut self, index: I) -> (r: &mut T)
        requires
            index.index_spec() < old(self).elements().len(),
        ensures
            *r == old(self).elements()[index.index_spec() as int],
            final(self).elements() == old(self).elements().update(
                index.index_spec() as int,
                *final(r),
            ),
    ;

    /// Replaces the value at `index`.
    fn set(&mut self, index: I, value: T)
        requires
            index.index_spec() < old(self).elements().len(),
        ensures
            final(self).elements() == old(self).elements().update(
                index.index_spec() as int,
                value,
            ),
    ;

    /// Adds `value` behind the last position, and returns its identifier.
    fn push(&mut self, value: T) -> (r: I)
        ensures
            final(self).elements() == old(self).elements().push(value),
            r.index_spec() == old(self).elements().len(),
    ;

    /// The number of values in the store.
    fn len(&self) -> (r: usize)
        ensures
            r == self.elements().len(),
    ;
}

impl<I: IndexType, T> IndexVec<I, T> for Vec<T> {
    open spec fn elements(&self) -> Seq<T> {
        self@
    }

    fn with_default_elements(num_elts: usize) -> (r: Self) where T: Default {
        let mut r: Vec<T> = Vec::new();
        let mut made: usize = 0;
        while made < num_elts
            invariant
                made <= num_elts,
                r.len() == made,
                forall|i: int| 0 <= i < made ==> call_ensures(T::default, (), #[trigger] r@[i]),
            decreases num_elts - made,
        {
            r.push(T::default());
            made += 1;
        }
        r
    }

    fn empty() -> (r: Self) {
        Vec::new()
    }

    fn get(&self, index: I) -> (r: &T) {
        &self[index.to_usize()]
    }

    fn get_mut(&mut self, index: I) -> (r: &mut T) {
        &mut self[index.to_usize()]
    }

    fn set(&mut self, index: I, value: T) {
        self[index.to_usize()] = value;
    }

    fn push(&mut self, value: T) -> (r: I) {
        let len = self.len();
        self.push(value);
        I::from_usize(len)
    }

    fn len(&self) -> (r: usize) {
        self.len()
    }
}

/// The choices that a relation leaves open: the type by which its users
/// name the nodes, and the stores that hold its nodes and its edges.
pub trait VecFamily: Sized {
    /// The identifiers by which the users of the relation name its nodes.
    type UserNode;

    /// The store of the nodes.
    type NodeVec: IndexVec<NodeIndex, NodeData>;

    /// The store of the edge slots.
    type EdgeVec: IndexVec<EdgeIndex, EdgeData>;

    /// The position of the node that `user` names.
    spec fn node_spec(user: Self::UserNode) -> usize;

    /// Whether the users have a name for the node at position `idx`.
    spec fn valid(idx: usize) -> bool;

    /// The node that `user` names.
    fn into_node(user: Self::UserNode) -> (node: NodeIndex)
        ensures
            node.index_spec() == Self::node_spec(user),
            Self::valid(node.index_spec()),
    ;

    /// The name that the users have for `node`.
    fn from_node(node: NodeIndex) -> (user: Self::UserNode)
        requires
            Self::valid(node.index_spec()),
        ensures
            Self::node_spec(user) == node.index_spec(),
    ;
}

/// The family that stores nodes and edges in vectors, for users that name
/// the nodes by identifiers of type `U`.
pub struct StdVec<U> {
    data: PhantomData<U>,
}

impl<U> Default for StdVec<U> {
    fn default() -> Self {
        Self { data: PhantomData }
    }
}

impl<U: Idx> VecFamily for StdVec<U> {
    type UserNode = U;

    type NodeVec = Vec<NodeData>;

    type EdgeVec = Vec<EdgeData>;

    open spec fn node_spec(user: U) -> usize {
        user.index_spec()
    }

    open spec fn valid(idx: usize) -> bool {
        U::valid(idx)
    }

    fn into_node(user: U) -> (node: NodeIndex) {
        let u: usize = user.index();
        NodeIndex::from_usize(u)
    }

    fn from_node(node: NodeIndex) -> (user: U) {
        U::new(node.to_usize())
    }
}

} // verus!
