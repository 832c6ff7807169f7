//! Directed graphs as sets of edges: walks, and what deleting nodes leaves
//! behind.

use vstd::prelude::*;
use vstd::set_lib::{lemma_len_subset, lemma_subset_equality};

verus! {

/// Whether each node of `p` has an edge to the next one. A walk has at least
/// one node.
pub open spec fn is_walk(edges: Set<(nat, nat)>, p: Seq<nat>) -> bool {
    &&& p.len() >= 1
    &&& forall|i: int| 0 <= i < p.len() - 1 ==> #[trigger] edges.contains((p[i], p[i + 1]))
}

/// Whether there is a walk of at least one edge from `a` to `b`.
pub open spec fn connected(edges: Set<(nat, nat)>, a: nat, b: nat) -> bool {
    exists|p: Seq<nat>|
        #![auto]
        p.len() >= 2 && is_walk(edges, p) && p.first() == a && p.last() == b
}

/// Whether `p` is a walk of at least one edge from `a` to `b` whose nodes
/// between the first and the last are all in `through`.
pub open spec fn is_bridge(
    edges: Set<(nat, nat)>,
    through: Set<nat>,
    p: Seq<nat>,
    a: nat,
    b: nat,
) -> bool {
    &&& p.len() >= 2
    &&& is_walk(edges, p)
    &&& p.first() == a
    &&& p.last() == b
    &&& forall|i: int| 0 < i < p.len() - 1 ==> through.contains(#[trigger] p[i])
}

/// Whether there is a walk of at least one edge from `a` to `b` that passes
/// only through nodes of `through`.
pub open spec fn connected_through(
    edges: Set<(nat, nat)>,
    through: Set<nat>,
    a: nat,
    b: nat,
) -> bool {
    exists|p: Seq<nat>| is_bridge(edges, through, p, a, b)
}

/// Whether `p` is a walk from `start` to `x` whose nodes before the last are
/// all in `through`.
pub open spec fn is_trail(
    edges: Set<(nat, nat)>,
    through: Set<nat>,
    p: Seq<nat>,
    start: nat,
    x: nat,
) -> bool {
    &&& is_walk(edges, p)
    &&& p.first() == start
    &&& p.last() == x
    &&& forall|i: int| 0 <= i < p.len() - 1 ==> through.contains(#[trigger] p[i])
}

/// The nodes that a walk from `start` reaches while every node before the
/// last is in `through`. `start` itself is among them.
pub open spec fn reach_via(edges: Set<(nat, nat)>, through: Set<nat>, start: nat) -> Set<nat> {
    Set::new(|x: nat| exists|p: Seq<nat>| is_trail(edges, through, p, start, x))
}

/// The graph that is left when the nodes of `dead` are deleted and what
/// they connected stays connected: an edge from `a` to `b`, neither of them
/// in `dead`, for each walk from `a` to `b` that passes only through nodes
/// of `dead`.
pub open spec fn bridged(edges: Set<(nat, nat)>, dead: Set<nat>) -> Set<(nat, nat)> {
    Set::new(
        |e: (nat, nat)|
            !dead.contains(e.0) && !dead.contains(e.1) && connected_through(
                edges,
                dead,
                e.0,
                e.1,
            ),
    )
}

/// The graph that is left when the single node `n` is deleted and what it
/// connected stays connected.
pub open spec fn without_node(edges: Set<(nat, nat)>, n: nat) -> Set<(nat, nat)> {
    Set::new(
        |e: (nat, nat)|
            e.0 != n && e.1 != n && (edges.contains(e) || (edges.contains((e.0, n))
                && edges.contains((n, e.1)))),
    )
}

/// The start of a search is reached.
pub proof fn lemma_reach_via_start(edges: Set<(nat, nat)>, through: Set<nat>, start: nat)
    ensures
        reach_via(edges, through, start).contains(start),
{
    assert(is_trail(edges, through, seq![start], start, start));
}

/// One more edge out of a reached node of `through` reaches its target.
pub proof fn lemma_reach_via_step(
    edges: Set<(nat, nat)>,
    through: Set<nat>,
    start: nat,
    x: nat,
    y: nat,
)
    requires
        reach_via(edges, through, start).contains(x),
        through.contains(x),
        edges.contains((x, y)),
    ensures
        reach_via(edges, through, start).contains(y),
{
    let p = choose|p: Seq<nat>| is_trail(edges, through, p, start, x);
    let q = p.push(y);
    assert forall|i: int| 0 <= i < q.len() - 1 implies #[trigger] edges.contains(
        (q[i], q[i + 1]),
    ) by {
        if i < p.len() - 1 {
            assert(edges.contains((p[i], p[i + 1])));
        }
    }
    assert forall|i: int| 0 <= i < q.len() - 1 implies through.contains(#[trigger] q[i]) by {
        if i < p.len() - 1 {
            assert(through.contains(p[i]));
        }
    }
    assert(is_trail(edges, through, q, start, y));
}

/// A set that holds `start`, and with each of its nodes in `through` the
/// targets of that node's edges, holds all that is reached from `start`.
pub proof fn lemma_reach_via_least(
    edges: Set<(nat, nat)>,
    through: Set<nat>,
    start: nat,
    closed: Set<nat>,
)
    requires
        closed.contains(start),
        forall|x: nat, y: nat|
            closed.contains(x) && through.contains(x) && #[trigger] edges.contains((x, y))
                ==> closed.contains(y),
    ensures
        reach_via(edges, through, start).subset_of(closed),
{
    assert forall|x: nat| reach_via(edges, through, start).contains(x) implies closed.contains(
        x,
    ) by {
        let p = choose|p: Seq<nat>| is_trail(edges, through, p, start, x);
        lemma_trail_stays(edges, through, start, closed, p, p.len() - 1);
    }
}

proof fn lemma_trail_stays(
    edges: Set<(nat, nat)>,
    through: Set<nat>,
    start: nat,
    closed: Set<nat>,
    p: Seq<nat>,
    i: int,
)
    requires
        closed.contains(start),
        forall|x: nat, y: nat|
            closed.contains(x) && through.contains(x) && #[trigger] edges.contains((x, y))
                ==> closed.contains(y),
        is_trail(edges, through, p, start, p.last()),
        0 <= i < p.len(),
    ensures
        closed.contains(p[i]),
    decreases i,
{
    if i > 0 {
        lemma_trail_stays(edges, through, start, closed, p, i - 1);
        assert(through.contains(p[i - 1]));
        assert(edges.contains((p[i - 1], p[i - 1 + 1])));
    }
}

/// A walk from `a` to `b` through `through` is an edge from `a` to `b`, or
/// an edge from `a` to a node of `through` from which `b` is reached.
pub proof fn lemma_connected_through_split(
    edges: Set<(nat, nat)>,
    through: Set<nat>,
    a: nat,
    b: nat,
)
    ensures
        connected_through(edges, through, a, b) <==> (edges.contains((a, b)) || exists|d: nat|
            through.contains(d) && #[trigger] edges.contains((a, d)) && reach_via(
                edges,
                through,
                d,
            ).contains(b)),
{
    if connected_through(edges, through, a, b) {
        let p = choose|p: Seq<nat>| is_bridge(edges, through, p, a, b);
        assert(edges.contains((p[0int], p[0int + 1])));
        if p.len() > 2 {
            let d = p[1];
            let q = p.subrange(1, p.len() as int);
            assert forall|i: int| 0 <= i < q.len() - 1 implies #[trigger] edges.contains(
                (q[i], q[i + 1]),
            ) by {
                assert(edges.contains((p[i + 1], p[i + 1 + 1])));
            }
            assert forall|i: int| 0 <= i < q.len() - 1 implies through.contains(
                #[trigger] q[i],
            ) by {
                assert(through.contains(p[i + 1]));
            }
            assert(is_trail(edges, through, q, d, b));
            assert(through.contains(d) && edges.contains((a, d)) && reach_via(
                edges,
                through,
                d,
            ).contains(b));
        }
    }
    if edges.contains((a, b)) {
        let p = seq![a, b];
        assert(is_bridge(edges, through, p, a, b));
    }
    if exists|d: nat|
        through.contains(d) && #[trigger] edges.contains((a, d)) && reach_via(
            edges,
            through,
            d,
        ).contains(b) {
        let d = choose|d: nat|
            through.contains(d) && #[trigger] edges.contains((a, d)) && reach_via(
                edges,
                through,
                d,
            ).contains(b);
        let q = choose|q: Seq<nat>| is_trail(edges, through, q, d, b);
        let p = seq![a] + q;
        assert forall|i: int| 0 <= i < p.len() - 1 implies #[trigger] edges.contains(
            (p[i], p[i + 1]),
        ) by {
            if i > 0 {
                assert(edges.contains((q[i - 1], q[i - 1 + 1])));
            }
        }
        assert forall|i: int| 0 < i < p.len() - 1 implies through.contains(#[trigger] p[i]) by {
            assert(through.contains(q[i - 1]));
        }
        assert(is_bridge(edges, through, p, a, b));
    }
}

/// What is reached from the only node of `through` is that node and the
/// targets of its edges.
pub proof fn lemma_reach_via_single(edges: Set<(nat, nat)>, n: nat, x: nat)
    ensures
        reach_via(edges, set![n], n).contains(x) <==> (x == n || edges.contains((n, x))),
{
    let closed = Set::new(|y: nat| y == n || edges.contains((n, y)));
    lemma_reach_via_least(edges, set![n], n, closed);
    lemma_reach_via_start(edges, set![n], n);
    if edges.contains((n, x)) {
        lemma_reach_via_step(edges, set![n], n, n, x);
    }
}

/// Deleting one node is deleting the set that holds only that node.
pub proof fn lemma_without_node_is_bridged(edges: Set<(nat, nat)>, n: nat)
    ensures
        without_node(edges, n) == bridged(edges, set![n]),
{
    assert forall|e: (nat, nat)| without_node(edges, n).contains(e) == bridged(
        edges,
        set![n],
    ).contains(e) by {
        lemma_connected_through_split(edges, set![n], e.0, e.1);
        lemma_reach_via_single(edges, n, e.1);
    }
    assert(without_node(edges, n) =~= bridged(edges, set![n]));
}

/// A walk that passes only through chosen nodes is a walk.
pub proof fn lemma_connected_through_is_connected(
    edges: Set<(nat, nat)>,
    through: Set<nat>,
    a: nat,
    b: nat,
)
    requires
        connected_through(edges, through, a, b),
    ensures
        connected(edges, a, b),
{
    let p = choose|p: Seq<nat>| is_bridge(edges, through, p, a, b);
    assert(p.len() >= 2 && is_walk(edges, p) && p.first() == a && p.last() == b);
}

/// An edge of the graph that is left stands for a walk in the graph that
/// was: nothing is connected afterwards that was not connected before.
pub proof fn lemma_no_phantom_edge(edges: Set<(nat, nat)>, dead: Set<nat>, a: nat, b: nat)
    requires
        bridged(edges, dead).contains((a, b)),
    ensures
        connected(edges, a, b),
{
    lemma_connected_through_is_connected(edges, dead, a, b);
}

/// Walks that follow one another make a walk.
pub proof fn lemma_connected_transitive(edges: Set<(nat, nat)>, a: nat, b: nat, c: nat)
    requires
        connected(edges, a, b),
        connected(edges, b, c),
    ensures
        connected(edges, a, c),
{
    let p = choose|p: Seq<nat>|
        #![auto]
        p.len() >= 2 && is_walk(edges, p) && p.first() == a && p.last() == b;
    let q = choose|q: Seq<nat>|
        #![auto]
        q.len() >= 2 && is_walk(edges, q) && q.first() == b && q.last() == c;
    let r = p + q.drop_first();
    assert forall|i: int| 0 <= i < r.len() - 1 implies #[trigger] edges.contains(
        (r[i], r[i + 1]),
    ) by {
        if i < p.len() - 1 {
            assert(edges.contains((p[i], p[i + 1])));
        } else {
            let j = i - (p.len() - 1);
            assert(edges.contains((q[j], q[j + 1])));
        }
    }
    assert(r.len() >= 2 && is_walk(edges, r) && r.first() == a && r.last() == c);
}

/// A walk in the graph that is left stands for a walk in the graph that
/// was.
proof fn lemma_bridged_walk(edges: Set<(nat, nat)>, dead: Set<nat>, p: Seq<nat>)
    requires
        p.len() >= 2,
        is_walk(bridged(edges, dead), p),
    ensures
        connected(edges, p.first(), p.last()),
    decreases p.len(),
{
    assert(bridged(edges, dead).contains((p[0int], p[0int + 1])));
    lemma_no_phantom_edge(edges, dead, p[0], p[1]);
    if p.len() > 2 {
        let q = p.drop_first();
        assert forall|i: int| 0 <= i < q.len() - 1 implies #[trigger] bridged(
            edges,
            dead,
        ).contains((q[i], q[i + 1])) by {
            assert(bridged(edges, dead).contains((p[i + 1], p[i + 1 + 1])));
        }
        lemma_bridged_walk(edges, dead, q);
        lemma_connected_transitive(edges, p[0], p[1], p.last());
    }
}

/// A walk in the graph that was, between nodes that stay, stands for a
/// walk in the graph that is left.
proof fn lemma_walk_bridged(edges: Set<(nat, nat)>, dead: Set<nat>, p: Seq<nat>)
    requires
        p.len() >= 2,
        is_walk(edges, p),
        !dead.contains(p.first()),
        !dead.contains(p.last()),
    ensures
        connected(bridged(edges, dead), p.first(), p.last()),
    decreases p.len(),
{
    let k = lemma_first_live(dead, p, 1);
    let head = p.subrange(0, k + 1);
    assert forall|i: int| 0 <= i < head.len() - 1 implies #[trigger] edges.contains(
        (head[i], head[i + 1]),
    ) by {
        assert(edges.contains((p[i], p[i + 1])));
    }
    assert(is_bridge(edges, dead, head, p[0], p[k]));
    assert(bridged(edges, dead).contains((p[0], p[k])));
    let step = seq![p[0], p[k]];
    assert(is_walk(bridged(edges, dead), step));
    assert(step.len() >= 2 && step.first() == p[0] && step.last() == p[k]);
    assert(connected(bridged(edges, dead), p[0], p[k]));
    if k < p.len() - 1 {
        let rest = p.subrange(k, p.len() as int);
        assert forall|i: int| 0 <= i < rest.len() - 1 implies #[trigger] edges.contains(
            (rest[i], rest[i + 1]),
        ) by {
            assert(edges.contains((p[k + i], p[k + i + 1])));
        }
        lemma_walk_bridged(edges, dead, rest);
        lemma_connected_transitive(bridged(edges, dead), p[0], p[k], p.last());
    }
}

/// The first position from `from` on at which the walk `p`, which ends at
/// a node that stays, is at a node that stays.
proof fn lemma_first_live(dead: Set<nat>, p: Seq<nat>, from: int) -> (k: int)
    requires
        1 <= from < p.len(),
        !dead.contains(p.last()),
    ensures
        from <= k < p.len(),
        !dead.contains(p[k]),
        forall|i: int| from <= i < k ==> dead.contains(#[trigger] p[i]),
    decreases p.len() - from,
{
    if !dead.contains(p[from]) {
        from
    } else {
        lemma_first_live(dead, p, from + 1)
    }
}

/// Deleting nodes keeps what they connected: between two nodes that stay
/// there is a walk in the graph that is left exactly when there was one in
/// the graph that was.
pub proof fn lemma_bridging_keeps_reachability(
    edges: Set<(nat, nat)>,
    dead: Set<nat>,
    a: nat,
    b: nat,
)
    requires
        !dead.contains(a),
        !dead.contains(b),
    ensures
        connected(bridged(edges, dead), a, b) <==> connected(edges, a, b),
{
    if connected(bridged(edges, dead), a, b) {
        let p = choose|p: Seq<nat>|
            #![auto]
            p.len() >= 2 && is_walk(bridged(edges, dead), p) && p.first() == a && p.last() == b;
        lemma_bridged_walk(edges, dead, p);
    }
    if connected(edges, a, b) {
        let p = choose|p: Seq<nat>|
            #![auto]
            p.len() >= 2 && is_walk(edges, p) && p.first() == a && p.last() == b;
        lemma_walk_bridged(edges, dead, p);
    }
}

/// The first position behind the start at which the walk `p` is at the
/// node `n`, where it is there at position `m`.
proof fn lemma_first_visit(p: Seq<nat>, n: nat, m: int) -> (i: int)
    requires
        1 <= m < p.len(),
        p[m] == n,
    ensures
        1 <= i <= m,
        p[i] == n,
        forall|k: int| 1 <= k < i ==> #[trigger] p[k] != n,
    decreases m,
{
    if forall|k: int| 1 <= k < m ==> #[trigger] p[k] != n {
        m
    } else {
        let k = choose|k: int| 1 <= k < m && #[trigger] p[k] == n;
        lemma_first_visit(p, n, k)
    }
}

/// The last position before the end at which the walk `p` is at the node
/// `n`, where it is there at position `m`.
proof fn lemma_last_visit(p: Seq<nat>, n: nat, m: int) -> (j: int)
    requires
        0 <= m < p.len() - 1,
        p[m] == n,
    ensures
        m <= j < p.len() - 1,
        p[j] == n,
        forall|k: int| j < k < p.len() - 1 ==> #[trigger] p[k] != n,
    decreases p.len() - m,
{
    if forall|k: int| m < k < p.len() - 1 ==> #[trigger] p[k] != n {
        m
    } else {
        let k = choose|k: int| m < k < p.len() - 1 && #[trigger] p[k] == n;
        lemma_last_visit(p, n, k)
    }
}

/// Deleting a set of nodes at once leaves what deleting them one after
/// the other leaves: the graph that is left when `dead` and one more node
/// `n` are deleted is the graph that is left when `n` is deleted from what
/// deleting `dead` left.
pub proof fn lemma_bridged_one_more(edges: Set<(nat, nat)>, dead: Set<nat>, n: nat)
    requires
        !dead.contains(n),
    ensures
        bridged(edges, dead.insert(n)) == without_node(bridged(edges, dead), n),
{
    let more = dead.insert(n);
    let left = bridged(edges, dead);
    assert forall|e: (nat, nat)| bridged(edges, more).contains(e) == without_node(
        left,
        n,
    ).contains(e) by {
        let a = e.0;
        let b = e.1;
        if bridged(edges, more).contains(e) {
            let p = choose|p: Seq<nat>| is_bridge(edges, more, p, a, b);
            if forall|k: int| 0 < k < p.len() - 1 ==> #[trigger] p[k] != n {
                assert forall|k: int| 0 < k < p.len() - 1 implies dead.contains(
                    #[trigger] p[k],
                ) by {
                    assert(more.contains(p[k]));
                }
                assert(is_bridge(edges, dead, p, a, b));
                assert(left.contains((a, b)));
            } else {
                let m = choose|m: int| 0 < m < p.len() - 1 && #[trigger] p[m] == n;
                let i = lemma_first_visit(p, n, m);
                let j = lemma_last_visit(p, n, m);
                let head = p.subrange(0, i + 1);
                let tail = p.subrange(j, p.len() as int);
                assert forall|k: int| 0 <= k < head.len() - 1 implies #[trigger] edges.contains(
                    (head[k], head[k + 1]),
                ) by {
                    assert(edges.contains((p[k], p[k + 1])));
                }
                assert forall|k: int| 0 < k < head.len() - 1 implies dead.contains(
                    #[trigger] head[k],
                ) by {
                    assert(more.contains(p[k]));
                    assert(p[k] != n);
                }
                assert(is_bridge(edges, dead, head, a, n));
                assert forall|k: int| 0 <= k < tail.len() - 1 implies #[trigger] edges.contains(
                    (tail[k], tail[k + 1]),
                ) by {
                    assert(edges.contains((p[j + k], p[j + k + 1])));
                }
                assert forall|k: int| 0 < k < tail.len() - 1 implies dead.contains(
                    #[trigger] tail[k],
                ) by {
                    assert(more.contains(p[j + k]));
                    assert(p[j + k] != n);
                }
                assert(is_bridge(edges, dead, tail, n, b));
                assert(left.contains((a, n)) && left.contains((n, b)));
            }
        }
        if without_node(left, n).contains(e) {
            if left.contains(e) {
                let p = choose|p: Seq<nat>| is_bridge(edges, dead, p, a, b);
                assert forall|k: int| 0 < k < p.len() - 1 implies more.contains(
                    #[trigger] p[k],
                ) by {
                    assert(dead.contains(p[k]));
                }
                assert(is_bridge(edges, more, p, a, b));
            } else {
                let p = choose|p: Seq<nat>| is_bridge(edges, dead, p, a, n);
                let q = choose|q: Seq<nat>| is_bridge(edges, dead, q, n, b);
                let r = p + q.drop_first();
                assert forall|k: int| 0 <= k < r.len() - 1 implies #[trigger] edges.contains(
                    (r[k], r[k + 1]),
                ) by {
                    if k < p.len() - 1 {
                        assert(edges.contains((p[k], p[k + 1])));
                    } else {
                        let t = k - (p.len() - 1);
                        assert(edges.contains((q[t], q[t + 1])));
                    }
                }
                assert forall|k: int| 0 < k < r.len() - 1 implies more.contains(
                    #[trigger] r[k],
                ) by {
                    if k < p.len() - 1 {
                        assert(dead.contains(p[k]));
                    } else if k > p.len() - 1 {
                        let t = k - (p.len() - 1);
                        assert(dead.contains(q[t]));
                    }
                }
                assert(is_bridge(edges, more, r, a, b));
            }
        }
    }
    assert(bridged(edges, more) =~= without_node(left, n));
}

/// Deleting a node a second time changes nothing.
pub proof fn lemma_without_node_idempotent(edges: Set<(nat, nat)>, n: nat)
    ensures
        without_node(without_node(edges, n), n) == without_node(edges, n),
{
    assert(without_node(without_node(edges, n), n) =~= without_node(edges, n));
}

/// Giving a node edges that all enter it, or edges that all leave it, and
/// deleting the node then leaves the graph as it was before.
pub proof fn lemma_round_trip(edges: Set<(nat, nat)>, n: nat, extra: Set<(nat, nat)>)
    requires
        forall|e: (nat, nat)| edges.contains(e) ==> e.0 != n && e.1 != n,
        (forall|e: (nat, nat)| extra.contains(e) ==> e.1 == n && e.0 != n) || (forall|
            e: (nat, nat),
        |
            extra.contains(e) ==> e.0 == n && e.1 != n),
    ensures
        without_node(edges.union(extra), n) == edges,
{
    assert(without_node(edges.union(extra), n) =~= edges);
}

/// The integers below `n`.
pub open spec fn below(n: nat) -> Set<nat> {
    Set::new(|m: nat| m < n)
}

/// There are `n` integers below `n`.
pub proof fn lemma_below(n: nat)
    ensures
        below(n).finite(),
        below(n).len() == n,
    decreases n,
{
    if n == 0 {
        assert(below(n) =~= Set::empty());
    } else {
        lemma_below((n - 1) as nat);
        assert(below((n - 1) as nat).insert((n - 1) as nat) =~= below(n));
    }
}

/// A set of integers below `n` has at most `n` members.
pub proof fn lemma_bounded_set(s: Set<nat>, n: nat)
    requires
        s.subset_of(below(n)),
    ensures
        s.finite(),
        s.len() <= n,
{
    lemma_below(n);
    lemma_len_subset(s, below(n));
}

/// A set of integers below `n` that has grown has more members.
pub proof fn lemma_grown_set(s: Set<nat>, t: Set<nat>, n: nat)
    requires
        s.subset_of(t),
        t.subset_of(below(n)),
        s != t,
    ensures
        s.len() < t.len() <= n,
{
    lemma_bounded_set(t, n);
    lemma_len_subset(s, t);
    if s.len() == t.len() {
        lemma_subset_equality(s, t);
    }
}

} // verus!
