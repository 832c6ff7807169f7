use relation::idx::Idx;
use relation::indices::{Direction, EdgeIndex, Indices, NodeIndex};
use relation::list::{EdgeData, NodeData};
use relation::vec_family::{IndexType, IndexVec, StdVec, VecFamily};

#[test]
fn idx_of_usize_is_the_number() {
    assert_eq!(<usize as Idx>::new(17), 17usize);
    assert_eq!(Idx::index(17usize), 17);
}

#[test]
fn idx_of_u32_goes_both_ways() {
    assert_eq!(<u32 as Idx>::new(17), 17u32);
    assert_eq!(Idx::index(4_000_000_000u32), 4_000_000_000usize);
}

#[test]
fn direction_inverts() {
    assert!(matches!(Direction::Incoming.invert(), Direction::Outgoing));
    assert!(matches!(Direction::Outgoing.invert(), Direction::Incoming));
    assert!(matches!(Direction::Outgoing.invert().invert(), Direction::Outgoing));
}

#[test]
fn node_index_goes_both_ways() {
    let n = NodeIndex::from_usize(12);
    assert_eq!(n.to_usize(), 12);
    assert!(n == NodeIndex::from_usize(12));
    assert!(n != NodeIndex::from_usize(13));
    assert!(n < NodeIndex::from_usize(13));
}

#[test]
fn edge_index_goes_both_ways() {
    let e = EdgeIndex::from_usize(0);
    assert_eq!(e.to_usize(), 0);
    assert!(e == EdgeIndex::from_usize(0));
}

#[test]
fn indices_keep_the_two_values_apart() {
    let mut pair = Indices::new(1, 2);
    assert_eq!(pair.incoming(), 1);
    assert_eq!(pair.outgoing(), 2);
    assert_eq!(pair.get(Direction::Incoming), 1);
    assert_eq!(pair.get(Direction::Outgoing), 2);
    pair.set_incoming(10);
    assert_eq!((pair.incoming(), pair.outgoing()), (10, 2));
    pair.set_outgoing(20);
    assert_eq!((pair.incoming(), pair.outgoing()), (10, 20));
    pair.set(Direction::Incoming, 5);
    pair.set(Direction::Outgoing, 6);
    assert_eq!((pair.incoming(), pair.outgoing()), (5, 6));
}

#[test]
fn indices_take_leaves_none() {
    let mut pair = Indices::new(Some(1), Some(2));
    assert_eq!(pair.take_outgoing(), Some(2));
    assert_eq!(pair.outgoing(), None);
    assert_eq!(pair.incoming(), Some(1));
    assert_eq!(pair.take_incoming(), Some(1));
    assert_eq!(pair.incoming(), None);
    assert_eq!(pair.take_incoming(), None);
}

#[test]
fn node_data_starts_without_edges() {
    let data = NodeData::default();
    assert!(data.first_edges.incoming().is_none());
    assert!(data.first_edges.outgoing().is_none());
}

#[test]
fn index_vec_on_vec() {
    let mut v: Vec<NodeData> =
        <Vec<NodeData> as IndexVec<NodeIndex, NodeData>>::with_default_elements(2);
    assert_eq!(<Vec<NodeData> as IndexVec<NodeIndex, NodeData>>::len(&v), 2);
    let first = NodeIndex::from_usize(0);
    let e = EdgeIndex::from_usize(7);
    IndexVec::get_mut(&mut v, first).first_edges.set_outgoing(Some(e));
    assert!(IndexVec::get(&v, first).first_edges.outgoing() == Some(e));
    assert!(IndexVec::get(&v, NodeIndex::from_usize(1)).first_edges.outgoing().is_none());
    let at: NodeIndex = IndexVec::push(&mut v, NodeData::default());
    assert_eq!(at.to_usize(), 2);
    let mut changed = NodeData::default();
    changed.first_edges.set_incoming(Some(e));
    IndexVec::set(&mut v, at, changed);
    assert!(IndexVec::get(&v, at).first_edges.incoming() == Some(e));
}

#[test]
fn index_vec_of_edges_starts_empty() {
    let mut v: Vec<EdgeData> = <Vec<EdgeData> as IndexVec<EdgeIndex, EdgeData>>::empty();
    assert_eq!(<Vec<EdgeData> as IndexVec<EdgeIndex, EdgeData>>::len(&v), 0);
    let data = EdgeData {
        nodes: Indices::new(NodeIndex::from_usize(1), NodeIndex::from_usize(2)),
        next_edges: Indices::new(None, None),
    };
    let at: EdgeIndex = IndexVec::push(&mut v, data);
    assert_eq!(at.to_usize(), 0);
    assert_eq!(IndexVec::get(&v, at).nodes.outgoing().to_usize(), 2);
}

#[test]
fn std_vec_family_names_nodes_by_number() {
    let node = <StdVec<usize> as VecFamily>::into_node(9);
    assert_eq!(node.to_usize(), 9);
    assert_eq!(<StdVec<usize> as VecFamily>::from_node(node), 9);
    let node = <StdVec<u32> as VecFamily>::into_node(9u32);
    assert_eq!(<StdVec<u32> as VecFamily>::from_node(node), 9u32);
}
