//! The identifiers of nodes and of edge slots, and pairs of values of which
//! one belongs to each direction of an edge.

use crate::vec_family::IndexType;
use vstd::prelude::*;

verus! {

/// One of the two directions in which an edge is seen from a node.
#[derive(Clone, Copy, PartialEq, Eq, Structural, Debug)]
pub enum Direction {
    Incoming,
    Outgoing,
}

impl Direction {
    /// The other direction.
    pub open spec fn inverse(self) -> Direction {
        match self {
            Direction::Incoming => Direction::Outgoing,
            Direction::Outgoing => Direction::Incoming,
        }
    }

    /// The other direction.
    pub fn invert(self) -> (r: Direction)
        ensures
            r == self.inverse(),
    {
        match self {
            Direction::Incoming => Direction::Outgoing,
            Direction::Outgoing => Direction::Incoming,
        }
    }
}

/// The identifier of a node.
#[derive(Clone, Copy, PartialEq, Eq, Structural, PartialOrd, Ord, Hash)]
pub struct NodeIndex {
    value: usize,
}

/// The identifier of an edge slot.
#[derive(Clone, Copy, PartialEq, Eq, Structural, PartialOrd, Ord, Hash)]
pub struct EdgeIndex {
    value: usize,
}

impl IndexType for NodeIndex {
    closed spec fn index_spec(self) -> usize {
        self.value
    }

    fn to_usize(self) -> (r: usize) {
        self.value
    }

    fn from_usize(value: usize) -> (r: Self) {
        NodeIndex { value }
    }

    proof fn index_is_injective(a: Self, b: Self) {
    }
}

impl IndexType for EdgeIndex {
    closed spec fn index_spec(self) -> usize {
        self.value
    }

    fn to_usize(self) -> (r: usize) {
        self.value
    }

    fn from_usize(value: usize) -> (r: Self) {
        EdgeIndex { value }
    }

    proof fn index_is_injective(a: Self, b: Self) {
    }
}

/// Two values, one for each direction.
pub struct Indices<N> {
    pub incoming: N,
    pub outgoing: N,
}

impl<N: Copy> Clone for Indices<N> {
    fn clone(&self) -> (r: Self)
        ensures
            r == *self,
    {
        Indices { incoming: self.incoming, outgoing: self.outgoing }
    }
}

impl<N: Copy> Copy for Indices<N> {

}

impl<N> Indices<N> {
    /// The value for `direction`.
    pub open spec fn at(self, direction: Direction) -> N {
        match direction {
            Direction::Incoming => self.incoming,
            Direction::Outgoing => self.outgoing,
        }
    }

    /// The pair with `value` in the place for `direction`.
    pub open spec fn with(self, direction: Direction, value: N) -> Indices<N> {
        match direction {
            Direction::Incoming => Indices { incoming: value, outgoing: self.outgoing },
            Direction::Outgoing => Indices { incoming: self.incoming, outgoing: value },
        }
    }

    /// The pair of `incoming` and `outgoing`.
    pub fn new(incoming: N, outgoing: N) -> (r: Self)
        ensures
            r.incoming == incoming,
            r.outgoing == outgoing,
    {
        Indices { incoming, outgoing }
    }

    /// The value for the incoming direction.
    pub fn incoming(&self) -> (r: N) where N: Copy
        ensures
            r == self.incoming,
    {
        self.incoming
    }

    /// Replaces the value for the incoming direction.
    pub fn set_incoming(&mut self, value: N)
        ensures
            *final(self) == old(self).with(Direction::Incoming, value),
    {
        self.incoming = value;
    }

    /// The value for the outgoing direction.
    pub fn outgoing(&self) -> (r: N) where N: Copy
        ensures
            r == self.outgoing,
    {
        self.outgoing
    }

    /// Replaces the value for the outgoing direction.
    pub fn set_outgoing(&mut self, value: N)
        ensures
            *final(self) == old(self).with(Direction::Outgoing, value),
    {
        self.outgoing = value;
    }

    /// The value for `direction`.
    pub fn get(&self, direction: Direction) -> (r: N) where N: Copy
        ensures
            r == self.at(direction),
    {
        match direction {
            Direction::Incoming => self.incoming,
            Direction::Outgoing => self.outgoing,
        }
    }

    /// Replaces the value for `direction`.
    pub fn set(&mut self, direction: Direction, value: N)
        ensures
            *final(self) == old(self).with(direction, value),
    {
        match direction {
            Direction::Incoming => {
                self.incoming = value;
            },
            Direction::Outgoing => {
                self.outgoing = value;
            },
        }
    }
}

impl<N> Indices<Option<N>> {
    /// Takes the value for the outgoing direction out, and leaves none.
    pub fn take_outgoing(&mut self) -> (r: Option<N>)
        ensures
            r == old(self).outgoing,
            *final(self) == old(self).with(Direction::Outgoing, None),
    {
        let mut taken: Option<N> = None;
        core::mem::swap(&mut taken, &mut self.outgoing);
        taken
    }

    /// Takes the value for the incoming direction out, and leaves none.
    pub fn take_incoming(&mut self) -> (r: Option<N>)
        ensures
            r == old(self).incoming,
            *final(self) == old(self).with(Direction::Incoming, None),
    {
        let mut taken: Option<N> = None;
        core::mem::swap(&mut taken, &mut self.incoming);
        taken
    }
}

} // verus!
