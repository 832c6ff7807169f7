//! Directed graphs over a fixed set of nodes that keep reachability when a
//! node is deleted: removing `B` from `A -> B -> C` leaves `A -> C` behind.
//!
//! Two representations are offered. [`matrix::Relation`] keeps one sparse
//! bitset of successors per node and deletes a whole set of nodes at once.
//! [`list::Relation`] threads every edge through two intrusive linked lists
//! and deletes one node at a time by rewiring the edges in place.

pub mod idx;
pub mod bits;
pub mod keys;
pub mod bitvec;
pub mod graph;
mod fx;
pub mod text;
pub mod matrix;
pub mod indices;
pub mod vec_family;
pub mod chain;
pub mod list;
pub mod reach;
pub mod subset;
pub mod worklist;

