use relation::bitvec::SparseBitSet;
use relation::subset::{EdgeSubsetRelation, MatrixRelation};

fn sorted(mut v: Vec<usize>) -> Vec<usize> {
    v.sort();
    v
}

fn edge_form(n: usize, edges: &[(usize, usize)]) -> EdgeSubsetRelation<usize> {
    let mut r = EdgeSubsetRelation::empty(n);
    for &(a, b) in edges {
        r.insert_one(a, b);
    }
    r
}

fn matrix_form(n: usize, edges: &[(usize, usize)]) -> MatrixRelation<usize> {
    let mut r = MatrixRelation::empty(n);
    for &(a, b) in edges {
        r.insert_one(a, b);
    }
    r
}

#[test]
fn edge_form_reaches_along_a_chain() {
    let r = edge_form(5, &[(0, 1), (1, 2), (3, 4)]);
    assert_eq!(r.for_each_reachable(0), vec![0, 1, 2]);
    assert_eq!(r.for_each_reachable(2), vec![2]);
    assert_eq!(r.for_each_reachable(3), vec![3, 4]);
}

#[test]
fn edge_form_reaches_each_node_of_a_cycle_once() {
    let r = edge_form(4, &[(0, 1), (1, 2), (2, 0), (2, 3), (0, 0), (1, 3)]);
    let found = r.for_each_reachable(1);
    assert_eq!(found[0], 1);
    assert_eq!(found.len(), 4);
    assert_eq!(sorted(found), vec![0, 1, 2, 3]);
    assert_eq!(r.for_each_reachable(3), vec![3]);
}

#[test]
fn edge_form_goes_into_depth_first() {
    // the successors of a node come newest first, and the last one found is
    // looked into first
    let r = edge_form(5, &[(0, 1), (0, 2), (1, 3), (2, 4)]);
    assert_eq!(r.for_each_reachable(0), vec![0, 1, 3, 2, 4]);
}

#[test]
fn edge_form_insert_one_reports_change() {
    let mut r: EdgeSubsetRelation<usize> = EdgeSubsetRelation::empty(3);
    assert!(r.insert_one(0, 1));
    assert!(!r.insert_one(0, 1));
    assert_eq!(r.for_each_reachable(0), vec![0, 1]);
}

#[test]
fn edge_form_kill_region_keeps_reachability() {
    let mut r = edge_form(4, &[(0, 1), (1, 2), (2, 3)]);
    r.kill_region(1);
    assert_eq!(r.for_each_reachable(0), vec![0, 2, 3]);
    assert_eq!(r.for_each_reachable(1), vec![1]);
    r.kill_region(2);
    assert_eq!(r.for_each_reachable(0), vec![0, 3]);
}

#[test]
fn edge_form_insert_all_takes_edges_of_live_nodes() {
    let mut r = edge_form(4, &[(0, 1)]);
    let other = edge_form(4, &[(0, 1), (0, 2), (1, 3), (2, 3)]);
    assert!(r.insert_all(&other, &[0, 2]));
    assert_eq!(sorted(r.for_each_reachable(0)), vec![0, 1, 2, 3]);
    assert_eq!(r.for_each_reachable(1), vec![1]);
    assert_eq!(r.for_each_reachable(2), vec![2, 3]);
    assert!(!r.insert_all(&other, &[0, 2]));
    assert!(!r.insert_all(&other, &[]));
    assert!(r.insert_all(&other, &[1]));
}

#[test]
fn edge_form_clone_is_independent() {
    let mut r = edge_form(3, &[(0, 1)]);
    let copy = r.clone();
    r.insert_one(1, 2);
    assert_eq!(copy.for_each_reachable(0), vec![0, 1]);
    assert_eq!(r.for_each_reachable(0), vec![0, 1, 2]);
}

#[test]
fn matrix_form_reaches_each_node_of_a_cycle_once() {
    let r = matrix_form(4, &[(0, 1), (1, 2), (2, 0), (2, 3), (0, 0), (1, 3)]);
    let found = r.for_each_reachable(1);
    assert_eq!(found[0], 1);
    assert_eq!(found.len(), 4);
    assert_eq!(sorted(found), vec![0, 1, 2, 3]);
    assert_eq!(r.for_each_reachable(3), vec![3]);
}

#[test]
fn matrix_form_goes_into_depth_first() {
    let r = matrix_form(5, &[(0, 1), (0, 2), (1, 3), (2, 4)]);
    assert_eq!(r.for_each_reachable(0), vec![0, 2, 4, 1, 3]);
}

#[test]
fn matrix_form_kill_region_keeps_reachability() {
    let mut r = matrix_form(4, &[(0, 1), (1, 2), (2, 3)]);
    let mut dead: SparseBitSet<usize> = SparseBitSet::new();
    dead.insert(1);
    dead.insert(2);
    r.kill_region(&[0, 3], &dead);
    assert_eq!(r.for_each_reachable(0), vec![0, 3]);
    assert_eq!(r.for_each_reachable(1), vec![1]);
}

#[test]
fn matrix_form_insert_all_takes_rows_of_live_nodes() {
    let mut r = matrix_form(4, &[(0, 1)]);
    let other = matrix_form(4, &[(0, 1), (0, 2), (1, 3), (2, 3)]);
    assert!(r.insert_all(&other, &[0, 2]));
    assert_eq!(sorted(r.for_each_reachable(0)), vec![0, 1, 2, 3]);
    assert_eq!(r.for_each_reachable(1), vec![1]);
    assert!(!r.insert_all(&other, &[0, 2]));
    assert!(r.insert_one(3, 0));
    assert!(!r.insert_one(3, 0));
}

#[test]
fn matrix_form_clone_is_independent() {
    let mut r = matrix_form(3, &[(0, 1)]);
    let copy = r.clone();
    r.insert_one(1, 2);
    assert_eq!(copy.for_each_reachable(0), vec![0, 1]);
    assert_eq!(r.for_each_reachable(0), vec![0, 1, 2]);
}

#[test]
fn both_forms_reach_the_same_nodes() {
    let edges = [(0, 3), (3, 5), (5, 0), (1, 2), (2, 6), (6, 6), (4, 1), (5, 4)];
    let a = edge_form(7, &edges);
    let b = matrix_form(7, &edges);
    for n in 0..7 {
        assert_eq!(sorted(a.for_each_reachable(n)), sorted(b.for_each_reachable(n)));
    }
}

#[test]
fn reachable_from_searches_either_relation() {
    let mut a: relation::list::Relation<relation::vec_family::StdVec<usize>> =
        relation::list::Relation::new(4);
    let mut b: relation::matrix::Relation<usize> = relation::matrix::Relation::new(4);
    for &(p, s) in [(0, 1), (1, 2), (2, 1), (3, 0)].iter() {
        a.add_edge(p, s);
        b.add_edge(p, s);
    }
    assert_eq!(relation::reach::reachable_from(&a, 0usize), vec![0, 1, 2]);
    assert_eq!(relation::reach::reachable_from(&b, 0usize), vec![0, 1, 2]);
    assert_eq!(sorted(relation::reach::reachable_from(&a, 3usize)), vec![0, 1, 2, 3]);
    assert_eq!(relation::reach::reachable_from(&b, 2usize), vec![2, 1]);
}
