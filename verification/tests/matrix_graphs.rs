use relation::bitvec::SparseBitSet;
use relation::matrix::Relation;

fn graph(n: usize, edges: &[(usize, usize)]) -> Relation<usize> {
    let mut r = Relation::new(n);
    for &(a, b) in edges {
        assert!(r.add_edge(a, b));
    }
    r
}

fn edges_of(r: &Relation<usize>, n: usize) -> Vec<(usize, usize)> {
    let mut out = Vec::new();
    for a in 0..n {
        for b in r.successors(a) {
            out.push((a, b));
        }
    }
    out
}

fn all_but(n: usize, dead: &[usize]) -> Vec<usize> {
    (0..n).filter(|x| !dead.contains(x)).collect()
}

#[test]
fn matrix_add_edge_twice_is_reported() {
    let mut r: Relation<usize> = Relation::new(3);
    assert!(r.add_edge(0, 1));
    assert!(!r.add_edge(0, 1));
    assert!(r.add_edge(1, 0));
    assert!(r.add_edge(2, 2));
    assert_eq!(edges_of(&r, 3), vec![(0, 1), (1, 0), (2, 2)]);
}

#[test]
fn matrix_chain_collapse() {
    let mut r = graph(3, &[(0, 1), (1, 2)]);
    r.kill(&[0, 2], &[1]);
    assert_eq!(edges_of(&r, 3), vec![(0, 2)]);
}

#[test]
fn matrix_fan_in_fan_out() {
    let mut r = graph(5, &[(0, 2), (1, 2), (4, 2), (2, 3)]);
    r.kill(&[0, 1, 3, 4], &[2]);
    assert_eq!(edges_of(&r, 5), vec![(0, 3), (1, 3), (4, 3)]);
}

#[test]
fn matrix_cycle_survival() {
    let mut r = graph(3, &[(0, 1), (1, 2), (2, 0)]);
    r.kill(&[0, 2], &[1]);
    assert_eq!(edges_of(&r, 3), vec![(0, 2), (2, 0)]);
    r.kill(&[1, 2], &[0]);
    assert_eq!(edges_of(&r, 3), vec![(2, 2)]);
}

#[test]
fn matrix_two_fan_outs() {
    let mut r = graph(4, &[(0, 1), (1, 2), (1, 3)]);
    r.kill(&[0, 2, 3], &[1]);
    assert_eq!(edges_of(&r, 4), vec![(0, 2), (0, 3)]);
}

#[test]
fn matrix_long_cycle() {
    let mut r = graph(5, &[(0, 1), (1, 2), (2, 3), (3, 4), (4, 0)]);
    r.kill(&[0, 2, 3, 4], &[1]);
    assert_eq!(edges_of(&r, 5), vec![(0, 2), (2, 3), (3, 4), (4, 0)]);
    r.kill(&[0, 1, 2, 4], &[3]);
    assert_eq!(edges_of(&r, 5), vec![(0, 2), (2, 4), (4, 0)]);
    r.kill(&[1, 2, 3, 4], &[0]);
    assert_eq!(edges_of(&r, 5), vec![(2, 4), (4, 2)]);
}

#[test]
fn matrix_multi_in_multi_out_edges() {
    let mut r = graph(5, &[(0, 2), (1, 2), (2, 3), (2, 4)]);
    r.kill(&[0, 1, 3, 4], &[2]);
    assert_eq!(edges_of(&r, 5), vec![(0, 3), (0, 4), (1, 3), (1, 4)]);
}

#[test]
fn matrix_removes_several_nodes_at_once() {
    // 0 -> 1 -> 2 -> 3 -> 4, with 1, 2 and 3 deleted together
    let mut r = graph(5, &[(0, 1), (1, 2), (2, 3), (3, 4)]);
    r.kill(&[0, 4], &[1, 2, 3]);
    assert_eq!(edges_of(&r, 5), vec![(0, 4)]);
}

#[test]
fn matrix_dead_cycle_is_passed_through() {
    // 0 -> 1 -> 2 -> 1, 2 -> 3: the dead nodes 1 and 2 form a cycle
    let mut r = graph(4, &[(0, 1), (1, 2), (2, 1), (2, 3)]);
    r.kill(&[0, 3], &[1, 2]);
    assert_eq!(edges_of(&r, 4), vec![(0, 3)]);
}

#[test]
fn matrix_dead_end_leaves_nothing() {
    let mut r = graph(3, &[(0, 1), (1, 1)]);
    r.kill(&[0, 2], &[1]);
    assert_eq!(edges_of(&r, 3), Vec::<(usize, usize)>::new());
}

#[test]
fn matrix_shared_dead_target() {
    // two live sources reach the same dead node
    let mut r = graph(200, &[(0, 150), (1, 150), (150, 151), (151, 2), (150, 199)]);
    r.kill(&all_but(200, &[150, 151]), &[150, 151]);
    assert_eq!(edges_of(&r, 200), vec![(0, 2), (0, 199), (1, 2), (1, 199)]);
}

#[test]
fn matrix_node_that_is_not_listed_keeps_its_row() {
    // node 3 is neither live nor dead: its row stays, dead target and all
    let mut r = graph(4, &[(0, 1), (1, 2), (3, 1)]);
    r.kill(&[0, 2], &[1]);
    assert_eq!(edges_of(&r, 4), vec![(0, 2), (3, 1)]);
}

#[test]
fn matrix_live_node_listed_twice() {
    let mut r = graph(3, &[(0, 1), (1, 2)]);
    r.kill(&[0, 0, 2, 0], &[1]);
    assert_eq!(edges_of(&r, 3), vec![(0, 2)]);
}

#[test]
fn matrix_remove_idle_node_changes_nothing() {
    let mut r = graph(4, &[(0, 1), (1, 2)]);
    r.kill(&[0, 1, 2], &[3]);
    assert_eq!(edges_of(&r, 4), vec![(0, 1), (1, 2)]);
    r.kill(&[0, 1, 2], &[]);
    assert_eq!(edges_of(&r, 4), vec![(0, 1), (1, 2)]);
}

#[test]
fn matrix_remove_twice_is_remove_once() {
    let mut r = graph(4, &[(0, 1), (1, 2), (1, 3), (3, 1)]);
    r.kill(&[0, 2, 3], &[1]);
    let once = edges_of(&r, 4);
    r.kill(&[0, 2, 3], &[1]);
    assert_eq!(edges_of(&r, 4), once);
    assert_eq!(once, vec![(0, 2), (0, 3), (3, 2), (3, 3)]);
}

#[test]
fn matrix_leaf_round_trip() {
    let mut r = graph(4, &[(0, 1), (1, 2)]);
    r.add_edge(0, 3);
    r.add_edge(2, 3);
    r.kill(&[0, 1, 2], &[3]);
    assert_eq!(edges_of(&r, 4), vec![(0, 1), (1, 2)]);
}

#[test]
fn matrix_find_live_targets() {
    let r = graph(6, &[(1, 2), (2, 3), (2, 1), (1, 4), (3, 5)]);
    let mut dead: SparseBitSet<usize> = SparseBitSet::new();
    dead.insert(1);
    dead.insert(2);
    assert_eq!(r.find_live_targets(1, &dead).iter(), vec![3, 4]);
    assert_eq!(r.find_live_targets(2, &dead).iter(), vec![3, 4]);
}

#[test]
fn matrix_remove_dead_nodes_with_bitset() {
    let mut r = graph(300, &[(0, 1), (1, 299), (299, 2)]);
    let mut dead: SparseBitSet<usize> = SparseBitSet::new();
    dead.insert(1);
    dead.insert(299);
    r.remove_dead_nodes(&[0, 2], &dead);
    assert_eq!(edges_of(&r, 300), vec![(0, 2)]);
}

#[test]
fn matrix_add_rows_copies_chosen_rows() {
    let mut r = graph(4, &[(0, 1)]);
    let other = graph(4, &[(0, 1), (0, 2), (1, 3), (2, 3)]);
    assert!(r.add_rows(&other, &[0, 2]));
    assert_eq!(edges_of(&r, 4), vec![(0, 1), (0, 2), (2, 3)]);
    assert!(!r.add_rows(&other, &[0, 2]));
    assert!(!r.add_rows(&other, &[]));
}

#[test]
fn matrix_dump_shows_numbers_of_any_length() {
    let r = graph(1235, &[(10, 0), (1234, 1234), (7, 100)]);
    assert_eq!(r.dump_and_assert(), vec!["7 --> 100", "10 --> 0", "1234 --> 1234"]);
}

#[test]
fn matrix_clone_is_independent() {
    let mut r = graph(3, &[(0, 1)]);
    let copy = r.clone();
    r.add_edge(1, 2);
    assert_eq!(edges_of(&copy, 3), vec![(0, 1)]);
    assert_eq!(edges_of(&r, 3), vec![(0, 1), (1, 2)]);
}
