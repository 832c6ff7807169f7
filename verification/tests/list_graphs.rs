use relation::list::Relation;
use relation::vec_family::StdVec;

type R = Relation<StdVec<usize>>;

fn graph(n: usize, edges: &[(usize, usize)]) -> R {
    let mut r = R::new(n);
    for &(a, b) in edges {
        assert!(r.add_edge(a, b));
    }
    r
}

fn edges_of(r: &R, n: usize) -> Vec<(usize, usize)> {
    let mut out = Vec::new();
    for a in 0..n {
        for b in r.successors(a) {
            out.push((a, b));
        }
    }
    out.sort();
    out
}

fn edges_by_predecessors(r: &R, n: usize) -> Vec<(usize, usize)> {
    let mut out = Vec::new();
    for b in 0..n {
        for a in r.predecessors(b) {
            out.push((relation::vec_family::IndexType::to_usize(a), b));
        }
    }
    out.sort();
    out
}

fn slots_shown(r: &R) -> Vec<String> {
    // the slot that each line of the dump is about
    r.dump_and_assert()
        .iter()
        .map(|line| {
            let from = line.find("E(").unwrap();
            let to = from + line[from..].find(')').unwrap();
            line[from + 2..to].to_string()
        })
        .collect()
}

fn check_consistent(r: &R, n: usize) {
    let by_succ = edges_of(r, n);
    let by_pred = edges_by_predecessors(r, n);
    assert_eq!(by_succ, by_pred);
    let mut unique = by_succ.clone();
    unique.dedup();
    assert_eq!(unique, by_succ);
    let mut slots = slots_shown(r);
    let count = slots.len();
    slots.sort();
    slots.dedup();
    assert_eq!(slots.len(), count);
}

#[test]
fn list_add_edge_twice_is_reported() {
    let mut r = R::new(3);
    assert!(r.add_edge(0, 1));
    assert!(!r.add_edge(0, 1));
    assert!(r.add_edge(1, 0));
    assert!(r.add_edge(0, 2));
    assert!(!r.add_edge(0, 2));
    assert!(r.add_edge(2, 2));
    assert!(!r.add_edge(2, 2));
    assert_eq!(edges_of(&r, 3), vec![(0, 1), (0, 2), (1, 0), (2, 2)]);
    check_consistent(&r, 3);
}

#[test]
fn list_chain_collapse() {
    let mut r = graph(3, &[(0, 1), (1, 2)]);
    r.remove_edges(1);
    assert_eq!(edges_of(&r, 3), vec![(0, 2)]);
    check_consistent(&r, 3);
}

#[test]
fn list_fan_in_fan_out() {
    let mut r = graph(5, &[(0, 2), (1, 2), (4, 2), (2, 3)]);
    r.remove_edges(2);
    assert_eq!(edges_of(&r, 5), vec![(0, 3), (1, 3), (4, 3)]);
    check_consistent(&r, 5);
}

#[test]
fn list_cycle_survival() {
    let mut r = graph(3, &[(0, 1), (1, 2), (2, 0)]);
    r.remove_edges(1);
    assert_eq!(edges_of(&r, 3), vec![(0, 2), (2, 0)]);
    r.remove_edges(0);
    assert_eq!(edges_of(&r, 3), vec![(2, 2)]);
    check_consistent(&r, 3);
}

#[test]
fn list_two_fan_outs() {
    let mut r = graph(4, &[(0, 1), (1, 2), (1, 3)]);
    r.remove_edges(1);
    assert_eq!(edges_of(&r, 4), vec![(0, 2), (0, 3)]);
    check_consistent(&r, 4);
}

#[test]
fn list_long_cycle() {
    let mut r = graph(5, &[(0, 1), (1, 2), (2, 3), (3, 4), (4, 0)]);
    r.remove_edges(1);
    assert_eq!(edges_of(&r, 5), vec![(0, 2), (2, 3), (3, 4), (4, 0)]);
    r.remove_edges(3);
    assert_eq!(edges_of(&r, 5), vec![(0, 2), (2, 4), (4, 0)]);
    r.remove_edges(0);
    assert_eq!(edges_of(&r, 5), vec![(2, 4), (4, 2)]);
    check_consistent(&r, 5);
}

#[test]
fn list_multi_in_multi_out_edges() {
    let mut r = graph(5, &[(0, 2), (1, 2), (2, 3), (2, 4)]);
    r.remove_edges(2);
    assert_eq!(edges_of(&r, 5), vec![(0, 3), (0, 4), (1, 3), (1, 4)]);
    check_consistent(&r, 5);
}

#[test]
fn list_redirected_edge_that_exists_is_not_doubled() {
    // 0 -> 1 -> 2 and 0 -> 2: after 1 is removed there is one edge 0 -> 2
    let mut r = graph(3, &[(0, 1), (1, 2), (0, 2)]);
    r.remove_edges(1);
    assert_eq!(edges_of(&r, 3), vec![(0, 2)]);
    assert_eq!(r.successors(0), vec![2]);
    check_consistent(&r, 3);
    // and the same with one predecessor and several successors
    let mut r = graph(4, &[(0, 1), (1, 2), (1, 3), (0, 3)]);
    r.remove_edges(1);
    assert_eq!(edges_of(&r, 4), vec![(0, 2), (0, 3)]);
    check_consistent(&r, 4);
}

#[test]
fn list_many_to_many_with_existing_edges() {
    let mut r = graph(5, &[(0, 2), (1, 2), (2, 3), (2, 4), (0, 3), (1, 4)]);
    r.remove_edges(2);
    assert_eq!(edges_of(&r, 5), vec![(0, 3), (0, 4), (1, 3), (1, 4)]);
    check_consistent(&r, 5);
}

#[test]
fn list_node_with_only_a_loop() {
    let mut r = graph(2, &[(1, 1)]);
    r.remove_edges(1);
    assert_eq!(edges_of(&r, 2), Vec::<(usize, usize)>::new());
    assert_eq!(r.dump_and_assert(), vec!["free edge E(0)"]);
    check_consistent(&r, 2);
}

#[test]
fn list_node_with_a_loop_and_other_edges() {
    // one predecessor, the node itself among two successors
    let mut r = graph(3, &[(0, 1), (1, 1), (1, 2)]);
    r.remove_edges(1);
    assert_eq!(edges_of(&r, 3), vec![(0, 2)]);
    check_consistent(&r, 3);
    // the loop and predecessors only
    let mut r = graph(3, &[(0, 1), (2, 1), (1, 1)]);
    r.remove_edges(1);
    assert_eq!(edges_of(&r, 3), Vec::<(usize, usize)>::new());
    check_consistent(&r, 3);
    // the loop and successors only
    let mut r = graph(3, &[(1, 1), (1, 0), (1, 2)]);
    r.remove_edges(1);
    assert_eq!(edges_of(&r, 3), Vec::<(usize, usize)>::new());
    check_consistent(&r, 3);
    // the loop, two predecessors and two successors
    let mut r = graph(5, &[(0, 2), (1, 2), (2, 2), (2, 3), (2, 4)]);
    r.remove_edges(2);
    assert_eq!(edges_of(&r, 5), vec![(0, 3), (0, 4), (1, 3), (1, 4)]);
    check_consistent(&r, 5);
}

#[test]
fn list_removed_node_has_no_edges() {
    let mut r = graph(4, &[(0, 1), (1, 2), (1, 3), (3, 1), (1, 1)]);
    r.remove_edges(1);
    assert_eq!(r.successors(1), Vec::<usize>::new());
    assert_eq!(r.predecessors(1).len(), 0);
    assert_eq!(edges_of(&r, 4), vec![(0, 2), (0, 3), (3, 2), (3, 3)]);
    check_consistent(&r, 4);
}

#[test]
fn list_remove_twice_is_remove_once() {
    let mut r = graph(4, &[(0, 1), (1, 2), (1, 3), (3, 1)]);
    r.remove_edges(1);
    let once = r.dump_and_assert();
    r.remove_edges(1);
    assert_eq!(r.dump_and_assert(), once);
}

#[test]
fn list_remove_idle_node_changes_nothing() {
    let mut r = graph(4, &[(0, 1), (1, 2)]);
    let before = r.dump_and_assert();
    r.remove_edges(3);
    assert_eq!(r.dump_and_assert(), before);
}

#[test]
fn list_leaf_round_trip() {
    let mut r = graph(4, &[(0, 1), (1, 2)]);
    r.add_edge(0, 3);
    r.add_edge(2, 3);
    r.remove_edges(3);
    assert_eq!(edges_of(&r, 4), vec![(0, 1), (1, 2)]);
    r.add_edge(3, 0);
    r.remove_edges(3);
    assert_eq!(edges_of(&r, 4), vec![(0, 1), (1, 2)]);
    check_consistent(&r, 4);
}

#[test]
fn list_free_slots_are_used_again() {
    let mut r = graph(3, &[(0, 1), (1, 2)]);
    r.remove_edges(1);
    assert_eq!(r.dump_and_assert(), vec!["N(0) --E(0)--> N(2)", "free edge E(1)"]);
    r.add_edge(2, 1);
    assert_eq!(r.dump_and_assert(), vec!["N(0) --E(0)--> N(2)", "N(2) --E(1)--> N(1)"]);
    r.add_edge(1, 0);
    assert_eq!(
        r.dump_and_assert(),
        vec!["N(0) --E(0)--> N(2)", "N(1) --E(2)--> N(0)", "N(2) --E(1)--> N(1)"]
    );
}

#[test]
fn list_successors_and_predecessors_show_the_same_edges() {
    let mut r = graph(6, &[(0, 1), (1, 2), (2, 0), (3, 1), (1, 4), (4, 4), (5, 0)]);
    check_consistent(&r, 6);
    for n in [1usize, 4, 0, 2].iter() {
        r.remove_edges(*n);
        check_consistent(&r, 6);
    }
}

#[test]
fn list_nodes_are_listed_in_order() {
    let r = R::new(4);
    let nodes: Vec<usize> = r
        .nodes()
        .iter()
        .map(|n| relation::vec_family::IndexType::to_usize(*n))
        .collect();
    assert_eq!(nodes, vec![0, 1, 2, 3]);
    assert_eq!(R::new(0).nodes().len(), 0);
}

#[test]
fn list_dump_shows_numbers_of_any_length() {
    let r = graph(1235, &[(10, 0), (1234, 1234), (7, 100)]);
    assert_eq!(
        r.dump_and_assert(),
        vec!["N(7) --E(2)--> N(100)", "N(10) --E(0)--> N(0)", "N(1234) --E(1)--> N(1234)"]
    );
}

#[test]
fn list_clone_is_independent() {
    let mut r = graph(3, &[(0, 1), (1, 2)]);
    r.remove_edges(1);
    let copy = r.clone();
    r.add_edge(2, 0);
    assert_eq!(copy.dump_and_assert(), vec!["N(0) --E(0)--> N(2)", "free edge E(1)"]);
    assert_eq!(r.dump_and_assert(), vec!["N(0) --E(0)--> N(2)", "N(2) --E(1)--> N(0)"]);
}

#[test]
fn list_with_u32_names() {
    let mut r: Relation<StdVec<u32>> = Relation::new(3);
    r.add_edge(0u32, 1u32);
    r.add_edge(1u32, 2u32);
    r.remove_edges(1u32);
    assert_eq!(r.successors(0u32), vec![2u32]);
}
