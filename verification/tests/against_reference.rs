use rand::distributions::range::Range;
use rand::distributions::IndependentSample;
use rand::SeedableRng;
use relation::list;
use relation::matrix;
use relation::vec_family::StdVec;
use std::collections::BTreeSet;

// The reference: the edges as a plain set, and removal by its definition.
fn removed(edges: &BTreeSet<(usize, usize)>, n: usize) -> BTreeSet<(usize, usize)> {
    let mut out = BTreeSet::new();
    for &(a, b) in edges {
        if a != n && b != n {
            out.insert((a, b));
        }
    }
    for &(a, x) in edges {
        for &(y, b) in edges {
            if x == n && y == n && a != n && b != n {
                out.insert((a, b));
            }
        }
    }
    out
}

fn reaches(edges: &BTreeSet<(usize, usize)>, from: usize, to: usize, nodes: usize) -> bool {
    // a walk of at least one edge
    let mut seen = vec![false; nodes];
    let mut stack = vec![from];
    while let Some(p) = stack.pop() {
        for &(a, b) in edges {
            if a == p {
                if b == to {
                    return true;
                }
                if !seen[b] {
                    seen[b] = true;
                    stack.push(b);
                }
            }
        }
    }
    false
}

fn list_edges(r: &list::Relation<StdVec<usize>>, n: usize) -> Vec<(usize, usize)> {
    let mut out = Vec::new();
    for a in 0..n {
        for b in r.successors(a) {
            out.push((a, b));
        }
    }
    out.sort();
    out
}

fn matrix_edges(r: &matrix::Relation<usize>, n: usize) -> Vec<(usize, usize)> {
    let mut out = Vec::new();
    for a in 0..n {
        for b in r.successors(a) {
            out.push((a, b));
        }
    }
    out
}

#[test]
fn list_agrees_with_reference_on_random_operations() {
    let nodes = 12;
    let range = Range::new(0, nodes);
    let choice = Range::new(0, 4);
    for seed in 1..40usize {
        let mut rng = rand::StdRng::from_seed(&[seed, 7, 11]);
        let mut r: list::Relation<StdVec<usize>> = list::Relation::new(nodes);
        let mut reference: BTreeSet<(usize, usize)> = BTreeSet::new();
        for _ in 0..120 {
            if choice.ind_sample(&mut rng) == 0 {
                let n = range.ind_sample(&mut rng);
                r.remove_edges(n);
                reference = removed(&reference, n);
            } else {
                let a = range.ind_sample(&mut rng);
                let b = range.ind_sample(&mut rng);
                let added = r.add_edge(a, b);
                assert_eq!(added, reference.insert((a, b)));
            }
            let expected: Vec<(usize, usize)> = reference.iter().cloned().collect();
            assert_eq!(list_edges(&r, nodes), expected);
        }
    }
}

#[test]
fn matrix_agrees_with_reference_on_random_operations() {
    let nodes = 140;
    let range = Range::new(0, nodes);
    let choice = Range::new(0, 4);
    for seed in 1..20usize {
        let mut rng = rand::StdRng::from_seed(&[seed, 3, 5]);
        let mut r: matrix::Relation<usize> = matrix::Relation::new(nodes);
        let mut reference: BTreeSet<(usize, usize)> = BTreeSet::new();
        for _ in 0..150 {
            if choice.ind_sample(&mut rng) == 0 {
                let n = range.ind_sample(&mut rng);
                let live: Vec<usize> = (0..nodes).filter(|&x| x != n).collect();
                r.kill(&live, &[n]);
                reference = removed(&reference, n);
            } else {
                let a = range.ind_sample(&mut rng);
                let b = range.ind_sample(&mut rng);
                let added = r.add_edge(a, b);
                assert_eq!(added, reference.insert((a, b)));
            }
            let expected: Vec<(usize, usize)> = reference.iter().cloned().collect();
            assert_eq!(matrix_edges(&r, nodes), expected);
        }
    }
}

#[test]
fn matrix_bulk_removal_is_removal_one_by_one() {
    let nodes = 20;
    let range = Range::new(0, nodes);
    for seed in 1..30usize {
        let mut rng = rand::StdRng::from_seed(&[seed, 13]);
        let mut r: matrix::Relation<usize> = matrix::Relation::new(nodes);
        let mut reference: BTreeSet<(usize, usize)> = BTreeSet::new();
        for _ in 0..40 {
            let a = range.ind_sample(&mut rng);
            let b = range.ind_sample(&mut rng);
            r.add_edge(a, b);
            reference.insert((a, b));
        }
        let mut dead: Vec<usize> = Vec::new();
        for _ in 0..6 {
            let d = range.ind_sample(&mut rng);
            if !dead.contains(&d) {
                dead.push(d);
            }
        }
        let live: Vec<usize> = (0..nodes).filter(|x| !dead.contains(x)).collect();
        r.kill(&live, &dead);
        for &d in dead.iter() {
            reference = removed(&reference, d);
        }
        let expected: Vec<(usize, usize)> = reference.iter().cloned().collect();
        assert_eq!(matrix_edges(&r, nodes), expected);
    }
}

#[test]
fn removal_keeps_reachability_between_the_other_nodes() {
    let nodes = 10;
    let range = Range::new(0, nodes);
    for seed in 1..25usize {
        let mut rng = rand::StdRng::from_seed(&[seed, 17]);
        let mut r: list::Relation<StdVec<usize>> = list::Relation::new(nodes);
        let mut before: BTreeSet<(usize, usize)> = BTreeSet::new();
        for _ in 0..18 {
            let a = range.ind_sample(&mut rng);
            let b = range.ind_sample(&mut rng);
            r.add_edge(a, b);
            before.insert((a, b));
        }
        let n = range.ind_sample(&mut rng);
        r.remove_edges(n);
        let after: BTreeSet<(usize, usize)> = list_edges(&r, nodes).into_iter().collect();
        for a in 0..nodes {
            for b in 0..nodes {
                if a != n && b != n {
                    assert_eq!(
                        reaches(&after, a, b, nodes),
                        reaches(&before, a, b, nodes)
                    );
                }
            }
        }
        for &(a, b) in after.iter() {
            assert!(a != n && b != n);
        }
    }
}
