//! A relation that stores, for each node, the set of its successors as a
//! sparse bitset, and deletes a whole set of nodes at once.

use crate::bitvec::{lists_chunks, lists_in_order, SparseBitMatrix, SparseBitSet, SparseChunk};
use crate::fx::{map_get, map_insert, map_new};
use crate::graph::{
    below, bridged, connected_through, lemma_bounded_set, lemma_connected_through_split,
    lemma_grown_set, lemma_reach_via_least, lemma_reach_via_start, lemma_reach_via_step,
    reach_via, is_bridge, is_trail,
};
use crate::idx::{ids, Idx};
use crate::reach::Graph;
use crate::text::{decimal_text, push_decimal};
use fxhash::FxHashMap;
use vstd::prelude::*;
use vstd::string::StringExecFns;

verus! {

/// The number of chunks in `q` that are not empty.
pub open spec fn nonempty_count<R: Idx>(q: Seq<SparseChunk<R>>) -> nat
    decreases q.len(),
{
    if q.len() == 0 {
        0
    } else {
        nonempty_count(q.drop_last()) + if q.last().bits() != 0 {
            1nat
        } else {
            0nat
        }
    }
}

/// Whether a chunk of `q` holds `x`.
pub open spec fn queued<R: Idx>(q: Seq<SparseChunk<R>>, x: nat) -> bool {
    exists|i: int| 0 <= i < q.len() && (#[trigger] q[i]).members().contains(x)
}

/// The nodes outside `dead` that are reached from the node `d` by a walk
/// whose nodes before the last are all in `dead`.
pub open spec fn frontier(edges: Set<(nat, nat)>, dead: Set<nat>, d: nat) -> Set<nat> {
    reach_via(edges, dead, d).difference(dead)
}

/// What is reached from a node of `through` depends only on the edges that
/// leave the nodes of `through`.
pub proof fn lemma_reach_via_same(
    e1: Set<(nat, nat)>,
    e2: Set<(nat, nat)>,
    through: Set<nat>,
    start: nat,
)
    requires
        forall|x: nat, y: nat| through.contains(x) ==> (e1.contains((x, y)) <==> e2.contains((x, y))),
    ensures
        reach_via(e1, through, start) == reach_via(e2, through, start),
{
    assert forall|x: nat| reach_via(e1, through, start).contains(x) == reach_via(
        e2,
        through,
        start,
    ).contains(x) by {
        if reach_via(e1, through, start).contains(x) {
            let p = choose|p: Seq<nat>| is_trail(e1, through, p, start, x);
            assert forall|i: int| 0 <= i < p.len() - 1 implies #[trigger] e2.contains(
                (p[i], p[i + 1]),
            ) by {
                assert(through.contains(p[i]));
                assert(e1.contains((p[i], p[i + 1])));
            }
            assert(is_trail(e2, through, p, start, x));
        }
        if reach_via(e2, through, start).contains(x) {
            let p = choose|p: Seq<nat>| is_trail(e2, through, p, start, x);
            assert forall|i: int| 0 <= i < p.len() - 1 implies #[trigger] e1.contains(
                (p[i], p[i + 1]),
            ) by {
                assert(through.contains(p[i]));
                assert(e2.contains((p[i], p[i + 1])));
            }
            assert(is_trail(e1, through, p, start, x));
        }
    }
    assert(reach_via(e1, through, start) =~= reach_via(e2, through, start));
}

/// The nodes that the frontier of some node of `seen` holds.
pub open spec fn gathered(edges: Set<(nat, nat)>, dead: Set<nat>, seen: Set<nat>) -> Set<nat> {
    Set::new(
        |b: nat| exists|d: nat| seen.contains(d) && #[trigger] frontier(edges, dead, d).contains(b),
    )
}

/// The successors of `a` in the graph that is left when `dead` is deleted.
pub open spec fn bridged_row(edges: Set<(nat, nat)>, dead: Set<nat>, a: nat) -> Set<nat> {
    Set::new(|b: nat| bridged(edges, dead).contains((a, b)))
}

/// The graph that is left when the nodes of `dead` are deleted and only the
/// nodes of `live` are given the edges that keep them connected: a node of
/// `dead` loses its edges, a node of `live` gets the edges it has in
/// `bridged`, and any other node keeps the edges it has.
pub open spec fn after_removal(
    edges: Set<(nat, nat)>,
    live: Set<nat>,
    dead: Set<nat>,
) -> Set<(nat, nat)> {
    Set::new(
        |e: (nat, nat)|
            if dead.contains(e.0) {
                false
            } else if live.contains(e.0) {
                bridged(edges, dead).contains(e)
            } else {
                edges.contains(e)
            },
    )
}

/// Where every node that has an edge is in `live` or in `dead`, the graph
/// that is left is `bridged`.
pub proof fn lemma_after_removal_of_partition(
    edges: Set<(nat, nat)>,
    live: Set<nat>,
    dead: Set<nat>,
)
    requires
        forall|a: nat, b: nat| #[trigger]
            edges.contains((a, b)) ==> live.contains(a) || dead.contains(a),
    ensures
        after_removal(edges, live, dead) == bridged(edges, dead),
{
    assert forall|e: (nat, nat)| after_removal(edges, live, dead).contains(e) == bridged(
        edges,
        dead,
    ).contains(e) by {
        if !dead.contains(e.0) && !live.contains(e.0) {
            if connected_through(edges, dead, e.0, e.1) {
                let p = choose|p: Seq<nat>| is_bridge(edges, dead, p, e.0, e.1);
                assert(edges.contains((p[0int], p[0int + 1])));
            }
        }
    }
    assert(after_removal(edges, live, dead) =~= bridged(edges, dead));
}

/// The frontier of one more node is gathered.
pub proof fn lemma_gather_one(edges: Set<(nat, nat)>, dead: Set<nat>, seen: Set<nat>, d: nat)
    ensures
        gathered(edges, dead, seen.insert(d)) == gathered(edges, dead, seen).union(
            frontier(edges, dead, d),
        ),
{
    assert forall|b: nat|
        gathered(edges, dead, seen.insert(d)).contains(b) == gathered(edges, dead, seen).union(
            frontier(edges, dead, d),
        ).contains(b) by {
        if gathered(edges, dead, seen.insert(d)).contains(b) {
            let x = choose|x: nat|
                seen.insert(d).contains(x) && #[trigger] frontier(edges, dead, x).contains(b);
            if x != d {
                assert(seen.contains(x));
            }
        }
        if gathered(edges, dead, seen).contains(b) {
            let x = choose|x: nat|
                seen.contains(x) && #[trigger] frontier(edges, dead, x).contains(b);
            assert(seen.insert(d).contains(x));
        }
        if frontier(edges, dead, d).contains(b) {
            assert(seen.insert(d).contains(d));
        }
    }
    assert(gathered(edges, dead, seen.insert(d)) =~= gathered(edges, dead, seen).union(
        frontier(edges, dead, d),
    ));
}

/// One chunk of dead nodes is taken out of a row after the frontiers of the
/// dead nodes that the row holds in that chunk were added to it.
pub proof fn lemma_clear_chunk(
    edges: Set<(nat, nat)>,
    dead: Set<nat>,
    base: Set<nat>,
    cleared: Set<nat>,
    chunk: Set<nat>,
    row: Set<nat>,
)
    requires
        row == base.difference(cleared).union(gathered(edges, dead, base.intersect(cleared))),
        chunk.subset_of(dead),
        chunk.disjoint(cleared),
    ensures
        row.intersect(chunk) == base.intersect(chunk),
        row.union(gathered(edges, dead, row.intersect(chunk))).difference(chunk)
            == base.difference(cleared.union(chunk)).union(
            gathered(edges, dead, base.intersect(cleared.union(chunk))),
        ),
{
    assert(row.intersect(chunk) =~= base.intersect(chunk));
    let after = row.union(gathered(edges, dead, row.intersect(chunk))).difference(chunk);
    let goal = base.difference(cleared.union(chunk)).union(
        gathered(edges, dead, base.intersect(cleared.union(chunk))),
    );
    assert forall|b: nat| after.contains(b) == goal.contains(b) by {
        if gathered(edges, dead, base.intersect(cleared)).contains(b) {
            let x = choose|x: nat|
                base.intersect(cleared).contains(x) && #[trigger] frontier(edges, dead, x).contains(
                    b,
                );
            assert(base.intersect(cleared.union(chunk)).contains(x));
        }
        if gathered(edges, dead, base.intersect(chunk)).contains(b) {
            let x = choose|x: nat|
                base.intersect(chunk).contains(x) && #[trigger] frontier(edges, dead, x).contains(b);
            assert(base.intersect(cleared.union(chunk)).contains(x));
        }
        if gathered(edges, dead, base.intersect(cleared.union(chunk))).contains(b) {
            let x = choose|x: nat|
                base.intersect(cleared.union(chunk)).contains(x) && #[trigger] frontier(
                    edges,
                    dead,
                    x,
                ).contains(b);
            if cleared.contains(x) {
                assert(base.intersect(cleared).contains(x));
            } else {
                assert(base.intersect(chunk).contains(x));
            }
        }
    }
    assert(after =~= goal);
}

/// A row from which all of `dead` was cleared in this way is the row of the
/// graph that is left.
pub proof fn lemma_cleared_row(edges: Set<(nat, nat)>, dead: Set<nat>, a: nat, base: Set<nat>)
    requires
        !dead.contains(a),
        forall|b: nat| base.contains(b) <==> edges.contains((a, b)),
    ensures
        base.difference(dead).union(gathered(edges, dead, base.intersect(dead))) == bridged_row(
            edges,
            dead,
            a,
        ),
{
    let row = base.difference(dead).union(gathered(edges, dead, base.intersect(dead)));
    assert forall|b: nat| row.contains(b) == bridged_row(edges, dead, a).contains(b) by {
        lemma_connected_through_split(edges, dead, a, b);
        if gathered(edges, dead, base.intersect(dead)).contains(b) {
            let x = choose|x: nat|
                base.intersect(dead).contains(x) && #[trigger] frontier(edges, dead, x).contains(b);
            assert(dead.contains(x) && edges.contains((a, x)) && reach_via(
                edges,
                dead,
                x,
            ).contains(b));
        }
        if bridged_row(edges, dead, a).contains(b) && !edges.contains((a, b)) {
            let d = choose|d: nat|
                dead.contains(d) && #[trigger] edges.contains((a, d)) && reach_via(
                    edges,
                    dead,
                    d,
                ).contains(b);
            assert(base.intersect(dead).contains(d));
            assert(frontier(edges, dead, d).contains(b));
        }
    }
    assert(row =~= bridged_row(edges, dead, a));
}

/// The line that shows the edge from `pred` to `succ`.
pub open spec fn edge_text(pred: nat, succ: nat) -> Seq<char> {
    decimal_text(pred) + " --> "@ + decimal_text(succ)
}

/// Whether `es` lists the edges of `edges`, each once, ordered by source
/// and then by target.
pub open spec fn lists_edges(es: Seq<(nat, nat)>, edges: Set<(nat, nat)>) -> bool {
    &&& forall|i: int, j: int|
        0 <= i < j < es.len() ==> (#[trigger] es[i]).0 < (#[trigger] es[j]).0 || (es[i].0
            == es[j].0 && es[i].1 < es[j].1)
    &&& forall|i: int| 0 <= i < es.len() ==> edges.contains(#[trigger] es[i])
    &&& forall|e: (nat, nat)| #[trigger]
        edges.contains(e) ==> exists|i: int| 0 <= i < es.len() && #[trigger] es[i] == e
}

/// Whether `lines` shows the edges of `edges`, one line for each, ordered by
/// source and then by target.
pub open spec fn is_dump_of(lines: Seq<String>, edges: Set<(nat, nat)>) -> bool {
    exists|es: Seq<(nat, nat)>|
        lists_edges(es, edges) && lines.len() == es.len() && forall|i: int|
            0 <= i < es.len() ==> (#[trigger] lines[i])@ == edge_text(es[i].0, es[i].1)
}

/// A directed graph on the nodes `0 .. num_nodes` that keeps what a deleted
/// node connected: deleting `B` from `A -> B -> C` leaves `A -> C`.
pub struct Relation<R> {
    adjacency: SparseBitMatrix<R, R>,
}

impl<R: Idx> Relation<R> {
    /// The successors of each node.
    pub closed spec fn rows(self) -> Seq<Set<nat>> {
        self.adjacency@
    }

    /// The number of nodes.
    pub open spec fn num_nodes(self) -> nat {
        self.rows().len()
    }

    /// The edges of the graph.
    pub open spec fn edge_set(self) -> Set<(nat, nat)> {
        Set::new(|e: (nat, nat)| e.0 < self.num_nodes() && self.rows()[e.0 as int].contains(e.1))
    }

    /// The rows are well formed and every edge ends at a node.
    pub closed spec fn wf(self) -> bool {
        &&& self.adjacency.wf()
        &&& self.num_nodes() / 128 <= u32::MAX
        &&& forall|a: int, b: nat|
            0 <= a < self.num_nodes() && #[trigger] self.rows()[a].contains(b) ==> b
                < self.num_nodes()
    }

    /// Every edge joins two nodes, and every node fits a chunk key.
    pub proof fn lemma_edges_in_range(self)
        requires
            self.wf(),
        ensures
            self.num_nodes() / 128 <= u32::MAX,
            forall|a: nat, b: nat| #[trigger]
                self.edge_set().contains((a, b)) ==> a < self.num_nodes() && b < self.num_nodes(),
    {
    }

    /// A relation on `rows` nodes without edges.
    pub fn new(rows: usize) -> (r: Relation<R>)
        requires
            R::valid(rows),
            rows / 128 <= u32::MAX,
        ensures
            r.wf(),
            r.num_nodes() == rows,
            r.edge_set() == Set::<(nat, nat)>::empty(),
    {
        let r = Relation { adjacency: SparseBitMatrix::new(R::new(rows), R::new(rows)) };
        proof {
            assert(r.edge_set() =~= Set::<(nat, nat)>::empty());
        }
        r
    }

    /// Adds the edge from `row1` to `row2`, and says whether it was absent.
    pub fn add_edge(&mut self, row1: R, row2: R) -> (changed: bool)
        requires
            old(self).wf(),
            row1.index_spec() < old(self).num_nodes(),
            row2.index_spec() < old(self).num_nodes(),
        ensures
            final(self).wf(),
            final(self).num_nodes() == old(self).num_nodes(),
            final(self).edge_set() == old(self).edge_set().insert(
                (row1.index_spec() as nat, row2.index_spec() as nat),
            ),
            changed == !old(self).edge_set().contains(
                (row1.index_spec() as nat, row2.index_spec() as nat),
            ),
    {
        let ghost before = *self;
        let changed = self.adjacency.add(row1, row2);
        proof {
            assert(self.edge_set() =~= before.edge_set().insert(
                (row1.index_spec() as nat, row2.index_spec() as nat),
            ));
        }
        changed
    }

    /// The successors of `node`, in increasing order.
    pub fn successors(&self, node: R) -> (r: Vec<R>)
        requires
            self.wf(),
            node.index_spec() < self.num_nodes(),
        ensures
            lists_in_order(
                r@,
                Set::new(|b: nat| self.edge_set().contains((node.index_spec() as nat, b))),
            ),
    {
        let r = self.adjacency.iter(node);
        proof {
            assert(self.rows()[node.index_spec() as int] =~= Set::new(
                |b: nat| self.edge_set().contains((node.index_spec() as nat, b)),
            ));
        }
        r
    }

    /// The nodes outside `dead_nodes` that are reached from `dead_target` by
    /// a walk whose nodes before the last are all in `dead_nodes`.
    pub fn find_live_targets(&self, dead_target: R, dead_nodes: &SparseBitSet<R>) -> (result:
        SparseBitSet<R>)
        requires
            self.wf(),
            dead_nodes.wf(),
            dead_nodes@.contains(dead_target.index_spec() as nat),
            dead_nodes@.subset_of(below(self.num_nodes())),
        ensures
            result.wf(),
            result@ == frontier(self.edge_set(), dead_nodes@, dead_target.index_spec() as nat),
    {
        let ghost n = self.num_nodes();
        let ghost edges = self.edge_set();
        let ghost dead = dead_nodes@;
        let ghost start = dead_target.index_spec() as nat;
        let ghost reach = reach_via(edges, dead, start);
        let mut result = SparseBitSet::new();
        let first = SparseChunk::one(dead_target);
        result.insert_chunk(first);
        let mut queue: Vec<SparseChunk<R>> = Vec::new();
        queue.push(first);
        proof {
            lemma_reach_via_start(edges, dead, start);
            assert(first.members().contains(start));
            assert(queue@[0].members().contains(start));
            assert(queued(queue@, start));
            assert(result@ =~= set![start]);
        }
        while queue.len() > 0
            invariant
                self.wf(),
                dead_nodes.wf(),
                result.wf(),
                n == self.num_nodes(),
                edges == self.edge_set(),
                dead == dead_nodes@,
                reach == reach_via(edges, dead, start),
                dead.subset_of(below(n)),
                result@.contains(start),
                result@.subset_of(reach),
                result@.subset_of(below(n)),
                forall|i: int|
                    0 <= i < queue.len() ==> (#[trigger] queue[i]).wf()
                        && queue[i].members().subset_of(dead) && queue[i].members().subset_of(
                        result@,
                    ),
                forall|x: nat, y: nat|
                    result@.contains(x) && dead.contains(x) && #[trigger] edges.contains((x, y))
                        ==> result@.contains(y) || queued(queue@, x),
            decreases n - result@.len(), nonempty_count(queue@), queue.len(),
        {
            let ghost result0 = result@;
            let ghost queue0 = queue@;
            let dead_targets = queue.pop().unwrap();
            let targets = dead_targets.iter();
            proof {
                assert(queue@ =~= queue0.drop_last());
                dead_targets.lemma_empty_chunk();
                if targets.len() > 0 {
                    assert(dead_targets.members().contains(targets[0].index_spec() as nat));
                }
                assert forall|x: nat, y: nat|
                    result@.contains(x) && dead.contains(x) && #[trigger] edges.contains(
                        (x, y),
                    ) implies result@.contains(y) || queued(queue@, x) || exists|k: int|
                    0 <= k < targets.len() && (#[trigger] targets[k]).index_spec() == x by {
                    if !result@.contains(y) {
                        let i = choose|i: int|
                            0 <= i < queue0.len() && (#[trigger] queue0[i]).members().contains(x);
                        if i == queue0.len() - 1 {
                            assert(dead_targets.members().contains(x));
                        } else {
                            assert(queue@[i].members().contains(x));
                        }
                    }
                }
            }
            let mut t: usize = 0;
            while t < targets.len()
                invariant
                    self.wf(),
                    dead_nodes.wf(),
                    result.wf(),
                    n == self.num_nodes(),
                    edges == self.edge_set(),
                    dead == dead_nodes@,
                    reach == reach_via(edges, dead, start),
                    dead.subset_of(below(n)),
                    result@.subset_of(reach),
                    result@.subset_of(below(n)),
                    result0.subset_of(result@),
                    queue0.len() > 0,
                    dead_targets.wf(),
                    dead_targets.members().subset_of(dead),
                    dead_targets.members().subset_of(result@),
                    lists_in_order(targets@, dead_targets.members()),
                    t <= targets.len(),
                    queue.len() >= queue0.len() - 1,
                    targets.len() == 0 ==> queue@ == queue0.drop_last(),
                    result@ == result0 ==> nonempty_count(queue@) == nonempty_count(
                        queue0.drop_last(),
                    ),
                    forall|i: int|
                        0 <= i < queue.len() ==> (#[trigger] queue[i]).wf()
                            && queue[i].members().subset_of(dead) && queue[i].members().subset_of(
                            result@,
                        ),
                    forall|x: nat, y: nat|
                        result@.contains(x) && dead.contains(x) && #[trigger] edges.contains((x, y))
                            ==> result@.contains(y) || queued(queue@, x) || exists|k: int|
                            t <= k < targets.len() && (#[trigger] targets[k]).index_spec() == x,
                decreases targets.len() - t,
            {
                let target = targets[t];
                let ghost tx = target.index_spec() as nat;
                proof {
                    assert(dead_targets.members().contains(tx));
                }
                let next_nodes = self.adjacency.row(target);
                let chunks = next_nodes.chunks();
                proof {
                    next_nodes.lemma_chunks_cover(chunks@);
                    assert(next_nodes@ == self.rows()[tx as int]);
                }
                let mut c: usize = 0;
                while c < chunks.len()
                    invariant
                        self.wf(),
                        dead_nodes.wf(),
                        result.wf(),
                        n == self.num_nodes(),
                        edges == self.edge_set(),
                        dead == dead_nodes@,
                        reach == reach_via(edges, dead, start),
                        dead.subset_of(below(n)),
                        result@.subset_of(reach),
                        result@.subset_of(below(n)),
                        result0.subset_of(result@),
                        result@.contains(tx),
                        dead.contains(tx),
                        dead_targets.members().subset_of(result@),
                        queue0.len() > 0,
                        tx < n,
                        tx == target.index_spec(),
                        t < targets.len(),
                        target == targets[t as int],
                        c <= chunks.len(),
                        next_nodes.wf(),
                        next_nodes@ == self.rows()[tx as int],
                        lists_chunks(chunks@, next_nodes.chunk_map()),
                        forall|a: int| 0 <= a < chunks.len() ==> (#[trigger] chunks[a]).wf(),
                        forall|a: int|
                            0 <= a < c ==> (#[trigger] chunks[a]).members().subset_of(result@),
                        queue.len() >= queue0.len() - 1,
                        result@ == result0 ==> nonempty_count(queue@) == nonempty_count(
                            queue0.drop_last(),
                        ),
                        forall|i: int|
                            0 <= i < queue.len() ==> (#[trigger] queue[i]).wf()
                                && queue[i].members().subset_of(dead)
                                && queue[i].members().subset_of(result@),
                        forall|x: nat, y: nat|
                            result@.contains(x) && dead.contains(x) && #[trigger] edges.contains(
                                (x, y),
                            ) ==> result@.contains(y) || queued(queue@, x) || exists|k: int|
                                t <= k < targets.len() && (#[trigger] targets[k]).index_spec()
                                    == x,
                    decreases chunks.len() - c,
                {
                    let next_chunk = chunks[c];
                    let ghost result1 = result@;
                    let ghost queue1 = queue@;
                    proof {
                        next_nodes.lemma_chunk_within(next_chunk.key());
                    }
                    let new_chunk = result.insert_chunk(next_chunk);
                    let new_dead_targets = dead_nodes.contains_chunk(new_chunk);
                    queue.push(new_dead_targets);
                    proof {
                        assert(queue@.drop_last() =~= queue1);
                        new_chunk.lemma_empty_chunk();
                        new_dead_targets.lemma_empty_chunk();
                        assert forall|y: nat| result@.contains(y) implies reach.contains(y) && y
                            < n by {
                            if !result1.contains(y) {
                                assert(next_chunk.members().contains(y));
                                assert(self.rows()[tx as int].contains(y));
                                assert(edges.contains((tx, y)));
                                lemma_reach_via_step(edges, dead, start, tx, y);
                            }
                        }
                        if result@ == result0 {
                            assert(result1 =~= result0);
                            assert(new_chunk.members() =~= Set::empty());
                            assert(new_dead_targets.members() =~= Set::empty());
                        }
                        assert forall|i: int| 0 <= i < queue.len() implies (#[trigger] queue[i]).wf()
                            && queue[i].members().subset_of(dead) && queue[i].members().subset_of(
                            result@,
                        ) by {
                            if i < queue1.len() {
                                assert(queue[i] == queue1[i]);
                            }
                        }
                        assert forall|x: nat, y: nat|
                            result@.contains(x) && dead.contains(x) && #[trigger] edges.contains(
                                (x, y),
                            ) implies result@.contains(y) || queued(queue@, x) || exists|k: int|
                            t <= k < targets.len() && (#[trigger] targets[k]).index_spec()
                                == x by {
                            if result1.contains(x) {
                                if queued(queue1, x) {
                                    let i = choose|i: int|
                                        0 <= i < queue1.len() && (
                                        #[trigger] queue1[i]).members().contains(x);
                                    assert(queue@[i].members().contains(x));
                                }
                            } else {
                                assert(new_dead_targets.members().contains(x));
                                assert(queue@[queue.len() - 1].members().contains(x));
                            }
                        }
                    }
                    c += 1;
                }
                proof {
                    assert forall|x: nat, y: nat|
                        result@.contains(x) && dead.contains(x) && #[trigger] edges.contains(
                            (x, y),
                        ) implies result@.contains(y) || queued(queue@, x) || exists|k: int|
                        t + 1 <= k < targets.len() && (#[trigger] targets[k]).index_spec()
                            == x by {
                        if x == tx {
                            assert(next_nodes@.contains(y));
                            let a = choose|a: int|
                                0 <= a < chunks.len() && (#[trigger] chunks[a]).members().contains(
                                    y,
                                );
                            assert(chunks[a].members().subset_of(result@));
                        } else if !result@.contains(y) && !queued(queue@, x) {
                            let k = choose|k: int|
                                t <= k < targets.len() && (#[trigger] targets[k]).index_spec() == x;
                            assert(k != t);
                        }
                    }
                }
                t += 1;
            }
            proof {
                lemma_bounded_set(result@, n);
                lemma_bounded_set(result0, n);
                if result@ != result0 {
                    lemma_grown_set(result0, result@, n);
                }
                assert(queue0.last() == dead_targets);
            }
        }
        proof {
            assert forall|x: nat, y: nat|
                result@.contains(x) && dead.contains(x) && #[trigger] edges.contains(
                    (x, y),
                ) implies result@.contains(y) by {
                assert(!queued(queue@, x));
            }
            lemma_reach_via_least(edges, dead, start, result@);
            assert(result@ =~= reach);
        }
        let dead_chunks = dead_nodes.chunks();
        let mut j: usize = 0;
        let ghost cleared: Set<nat> = Set::empty();
        proof {
            dead_nodes.lemma_chunks_cover(dead_chunks@);
            assert(result@ =~= reach.difference(cleared));
        }
        while j < dead_chunks.len()
            invariant
                j <= dead_chunks.len(),
                result.wf(),
                result@ == reach.difference(cleared),
                cleared.subset_of(dead),
                forall|a: int|
                    0 <= a < dead_chunks.len() ==> (#[trigger] dead_chunks[a]).members().subset_of(
                        dead,
                    ),
                forall|a: int|
                    0 <= a < j ==> (#[trigger] dead_chunks[a]).members().subset_of(cleared),
            decreases dead_chunks.len() - j,
        {
            result.remove_chunk(dead_chunks[j]);
            proof {
                cleared = cleared.union(dead_chunks[j as int].members());
                assert(result@ =~= reach.difference(cleared));
            }
            j += 1;
        }
        proof {
            assert forall|m: nat| dead.contains(m) implies cleared.contains(m) by {
                let a = choose|a: int|
                    0 <= a < dead_chunks.len() && (#[trigger] dead_chunks[a]).members().contains(m);
                assert(dead_chunks[a].members().subset_of(cleared));
            }
            assert(cleared =~= dead);
        }
        result
    }

    /// What is reached through `dead` from a node of `dead` lies among the
    /// nodes, and is the same in every graph that agrees with this one on the
    /// rows of `dead`.
    proof fn lemma_frontier_of(self, rows0: Seq<Set<nat>>, e0: Set<(nat, nat)>, dead: Set<nat>, d: nat)
        requires
            self.wf(),
            dead.subset_of(below(self.num_nodes())),
            dead.contains(d),
            rows0.len() == self.num_nodes(),
            forall|e: (nat, nat)|
                e0.contains(e) <==> e.0 < rows0.len() && rows0[e.0 as int].contains(e.1),
            forall|x: nat| dead.contains(x) ==> self.rows()[x as int] == rows0[x as int],
        ensures
            frontier(self.edge_set(), dead, d) == frontier(e0, dead, d),
            frontier(e0, dead, d).subset_of(below(self.num_nodes())),
            frontier(e0, dead, d).disjoint(dead),
    {
        lemma_reach_via_same(self.edge_set(), e0, dead, d);
        lemma_reach_via_least(self.edge_set(), dead, d, below(self.num_nodes()));
    }

    /// Deletes the nodes of `dead_nodes` and keeps the nodes of `live_nodes`
    /// connected: afterwards a node of `dead_nodes` has no successors, and a
    /// node `a` of `live_nodes` has the successor `b` exactly when `b` is
    /// not in `dead_nodes` and a walk led from `a` to `b` that passed only
    /// through nodes of `dead_nodes`. A node that is in neither keeps its
    /// successors.
    pub fn remove_dead_nodes(&mut self, live_nodes: &[R], dead_nodes: &SparseBitSet<R>)
        requires
            old(self).wf(),
            dead_nodes.wf(),
            dead_nodes@.subset_of(below(old(self).num_nodes())),
            ids(live_nodes@).subset_of(below(old(self).num_nodes())),
            ids(live_nodes@).disjoint(dead_nodes@),
        ensures
            final(self).wf(),
            final(self).num_nodes() == old(self).num_nodes(),
            final(self).edge_set() == after_removal(
                old(self).edge_set(),
                ids(live_nodes@),
                dead_nodes@,
            ),
    {
        let ghost n = self.num_nodes();
        let ghost e0 = self.edge_set();
        let ghost rows0 = self.rows();
        let ghost dead = dead_nodes@;
        let ghost processed: Set<nat> = Set::empty();
        let mut live_targets: FxHashMap<usize, SparseBitSet<R>> = map_new();
        let dead_chunks = dead_nodes.chunks();
        proof {
            dead_nodes.lemma_chunks_cover(dead_chunks@);
            assert forall|a: int| 0 <= a < dead_chunks.len() implies (#[trigger] dead_chunks[a]).members().subset_of(
                dead,
            ) by {
                dead_nodes.lemma_chunk_within(dead_chunks[a].key());
            }
        }
        let mut s: usize = 0;
        while s < live_nodes.len()
            invariant
                s <= live_nodes.len(),
                self.wf(),
                dead_nodes.wf(),
                self.num_nodes() == n,
                self.rows().len() == rows0.len(),
                dead == dead_nodes@,
                dead.subset_of(below(n)),
                ids(live_nodes@).subset_of(below(n)),
                ids(live_nodes@).disjoint(dead),
                forall|e: (nat, nat)|
                    e0.contains(e) <==> e.0 < rows0.len() && rows0[e.0 as int].contains(e.1),
                lists_chunks(dead_chunks@, dead_nodes.chunk_map()),
                forall|m: nat|
                    dead.contains(m) <==> exists|a: int|
                        0 <= a < dead_chunks.len() && (#[trigger] dead_chunks[a]).members().contains(
                            m,
                        ),
                forall|a: int, b: int, m: nat|
                    0 <= a < dead_chunks.len() && 0 <= b < dead_chunks.len()
                        && #[trigger] dead_chunks[a].members().contains(m)
                        && #[trigger] dead_chunks[b].members().contains(m) ==> a == b,
                forall|a: int|
                    0 <= a < dead_chunks.len() ==> (#[trigger] dead_chunks[a]).members().subset_of(
                        dead,
                    ),
                processed.subset_of(ids(live_nodes@)),
                forall|i: int|
                    0 <= i < s ==> processed.contains((#[trigger] live_nodes[i]).index_spec() as nat),
                forall|a: nat|
                    a < n ==> #[trigger] self.rows()[a as int] == if dead.contains(a) {
                        rows0[a as int]
                    } else if processed.contains(a) {
                        bridged_row(e0, dead, a)
                    } else {
                        rows0[a as int]
                    },
                forall|d: usize| #[trigger]
                    live_targets@.contains_key(d) ==> dead.contains(d as nat)
                        && live_targets@[d].wf() && live_targets@[d]@ == frontier(
                        e0,
                        dead,
                        d as nat,
                    ),
            decreases live_nodes.len() - s,
        {
            let live_source = live_nodes[s];
            let ghost a = live_source.index_spec() as nat;
            let ghost rows_s = self.rows();
            proof {
                assert(ids(live_nodes@).contains(a));
            }
            let ghost base = self.rows()[a as int];
            let ghost cleared: Set<nat> = Set::empty();
            proof {
                assert(base =~= base.difference(cleared).union(
                    gathered(e0, dead, base.intersect(cleared)),
                ));
            }
            let mut j: usize = 0;
            while j < dead_chunks.len()
                invariant
                    j <= dead_chunks.len(),
                    self.wf(),
                    dead_nodes.wf(),
                    self.num_nodes() == n,
                    self.rows().len() == rows0.len(),
                    rows_s.len() == rows0.len(),
                    dead == dead_nodes@,
                    dead.subset_of(below(n)),
                    a == live_source.index_spec(),
                    a < n,
                    !dead.contains(a),
                    forall|e: (nat, nat)|
                        e0.contains(e) <==> e.0 < rows0.len() && rows0[e.0 as int].contains(e.1),
                    forall|x: nat| dead.contains(x) ==> rows_s[x as int] == rows0[x as int],
                    lists_chunks(dead_chunks@, dead_nodes.chunk_map()),
                    forall|k: int, b: int, m: nat|
                        0 <= k < dead_chunks.len() && 0 <= b < dead_chunks.len()
                            && #[trigger] dead_chunks[k].members().contains(m)
                            && #[trigger] dead_chunks[b].members().contains(m) ==> k == b,
                    forall|k: int|
                        0 <= k < dead_chunks.len() ==> (
                        #[trigger] dead_chunks[k]).members().subset_of(dead),
                    forall|k: int|
                        0 <= k < j ==> (#[trigger] dead_chunks[k]).members().subset_of(cleared),
                    forall|m: nat|
                        cleared.contains(m) ==> exists|k: int|
                            0 <= k < j && (#[trigger] dead_chunks[k]).members().contains(m),
                    forall|r: nat| r < n && r != a ==> #[trigger] self.rows()[r as int] == rows_s[r as int],
                    self.rows()[a as int] == base.difference(cleared).union(
                        gathered(e0, dead, base.intersect(cleared)),
                    ),
                    forall|d: usize| #[trigger]
                        live_targets@.contains_key(d) ==> dead.contains(d as nat)
                            && live_targets@[d].wf() && live_targets@[d]@ == frontier(
                            e0,
                            dead,
                            d as nat,
                        ),
                decreases dead_chunks.len() - j,
            {
                let dead_chunk = dead_chunks[j];
                let ghost chunk = dead_chunk.members();
                let ghost row_j = self.rows()[a as int];
                let dead_targets = self.adjacency.row(live_source).contains_chunk(dead_chunk);
                proof {
                    assert(chunk.disjoint(cleared)) by {
                        assert forall|m: nat| chunk.contains(m) implies !cleared.contains(m) by {
                            if cleared.contains(m) {
                                let k = choose|k: int|
                                    0 <= k < j && (#[trigger] dead_chunks[k]).members().contains(m);
                                assert(dead_chunks[j as int].members().contains(m));
                            }
                        }
                    }
                    lemma_clear_chunk(e0, dead, base, cleared, chunk, row_j);
                    assert(dead_targets.members() == row_j.intersect(chunk));
                }
                if dead_targets.any() {
                    let targets = dead_targets.iter();
                    let ghost seen: Set<nat> = Set::empty();
                    proof {
                        assert(gathered(e0, dead, seen) =~= Set::<nat>::empty());
                        assert(row_j =~= row_j.union(gathered(e0, dead, seen)));
                    }
                    let mut t: usize = 0;
                    while t < targets.len()
                        invariant
                            t <= targets.len(),
                            self.wf(),
                            dead_nodes.wf(),
                            self.num_nodes() == n,
                            self.rows().len() == rows0.len(),
                            rows_s.len() == rows0.len(),
                            dead == dead_nodes@,
                            dead.subset_of(below(n)),
                            a == live_source.index_spec(),
                            a < n,
                            !dead.contains(a),
                            forall|e: (nat, nat)|
                                e0.contains(e) <==> e.0 < rows0.len() && rows0[e.0 as int].contains(
                                    e.1,
                                ),
                            forall|x: nat| dead.contains(x) ==> rows_s[x as int] == rows0[x as int],
                            dead_targets.members().subset_of(dead),
                            lists_in_order(targets@, dead_targets.members()),
                            seen.subset_of(dead_targets.members()),
                            forall|k: int|
                                0 <= k < t ==> seen.contains(
                                    (#[trigger] targets[k]).index_spec() as nat,
                                ),
                            forall|r: nat|
                                r < n && r != a ==> #[trigger] self.rows()[r as int] == rows_s[r as int],
                            self.rows()[a as int] == row_j.union(gathered(e0, dead, seen)),
                            forall|d: usize| #[trigger]
                                live_targets@.contains_key(d) ==> dead.contains(d as nat)
                                    && live_targets@[d].wf() && live_targets@[d]@ == frontier(
                                    e0,
                                    dead,
                                    d as nat,
                                ),
                        decreases targets.len() - t,
                    {
                        let dead_target = targets[t];
                        let key = dead_target.index();
                        let ghost d = key as nat;
                        proof {
                            assert(dead_targets.members().contains(d));
                            self.lemma_frontier_of(rows0, e0, dead, d);
                        }
                        if map_get(&live_targets, key).is_none() {
                            let found = self.find_live_targets(dead_target, dead_nodes);
                            map_insert(&mut live_targets, key, found);
                        }
                        let live_target_set = map_get(&live_targets, key).unwrap();
                        let ghost before = *self;
                        let row = self.adjacency.row_mut(live_source);
                        row.insert_chunks(live_target_set);
                        proof {
                            lemma_gather_one(e0, dead, seen, d);
                            seen = seen.insert(d);
                            assert(self.rows() =~= before.rows().update(
                                a as int,
                                before.rows()[a as int].union(frontier(e0, dead, d)),
                            ));
                            assert(self.rows()[a as int] =~= row_j.union(gathered(e0, dead, seen)));
                        }
                        t += 1;
                    }
                    let ghost before = *self;
                    let row = self.adjacency.row_mut(live_source);
                    row.remove_chunk(dead_chunk);
                    proof {
                        assert(seen =~= dead_targets.members());
                        assert(self.rows() =~= before.rows().update(
                            a as int,
                            before.rows()[a as int].difference(chunk),
                        ));
                    }
                } else {
                    proof {
                        assert(row_j.intersect(chunk) =~= Set::<nat>::empty());
                        assert(gathered(e0, dead, row_j.intersect(chunk)) =~= Set::<nat>::empty());
                        assert forall|b: nat| row_j.contains(b) implies !chunk.contains(b) by {
                            assert(!row_j.intersect(chunk).contains(b));
                        }
                        assert(row_j =~= row_j.union(
                            gathered(e0, dead, row_j.intersect(chunk)),
                        ).difference(chunk));
                    }
                }
                proof {
                    cleared = cleared.union(chunk);
                }
                j += 1;
            }
            proof {
                assert(cleared =~= dead) by {
                    assert forall|m: nat| dead.contains(m) implies cleared.contains(m) by {
                        let k = choose|k: int|
                            0 <= k < dead_chunks.len() && (
                            #[trigger] dead_chunks[k]).members().contains(m);
                        assert(dead_chunks[k].members().subset_of(cleared));
                    }
                    assert forall|m: nat| cleared.contains(m) implies dead.contains(m) by {
                        let k = choose|k: int|
                            0 <= k < j && (#[trigger] dead_chunks[k]).members().contains(m);
                        assert(dead_chunks[k].members().subset_of(dead));
                    }
                }
                if processed.contains(a) {
                    assert(base.intersect(dead) =~= Set::<nat>::empty());
                    assert(gathered(e0, dead, base.intersect(dead)) =~= Set::<nat>::empty());
                    assert(base.difference(dead).union(
                        gathered(e0, dead, base.intersect(dead)),
                    ) =~= base);
                } else {
                    assert(base == rows0[a as int]);
                    assert forall|b: nat| base.contains(b) <==> e0.contains((a, b)) by {
                    }
                    lemma_cleared_row(e0, dead, a, base);
                }
                processed = processed.insert(a);
            }
            s += 1;
        }
        let dead_list = dead_nodes.iter();
        let mut k: usize = 0;
        while k < dead_list.len()
            invariant
                k <= dead_list.len(),
                self.wf(),
                self.num_nodes() == n,
                self.rows().len() == rows0.len(),
                dead.subset_of(below(n)),
                lists_in_order(dead_list@, dead),
                forall|a: nat|
                    a < n ==> #[trigger] self.rows()[a as int] == if dead.contains(a) {
                        if exists|i: int| 0 <= i < k && (#[trigger] dead_list[i]).index_spec() == a {
                            Set::<nat>::empty()
                        } else {
                            rows0[a as int]
                        }
                    } else if processed.contains(a) {
                        bridged_row(e0, dead, a)
                    } else {
                        rows0[a as int]
                    },
            decreases dead_list.len() - k,
        {
            let dead_node = dead_list[k];
            let ghost before = *self;
            proof {
                assert(dead.contains(dead_node.index_spec() as nat));
            }
            let row = self.adjacency.row_mut(dead_node);
            *row = SparseBitSet::new();
            proof {
                assert(self.rows() =~= before.rows().update(
                    dead_node.index_spec() as int,
                    Set::<nat>::empty(),
                ));
                assert forall|a: nat| a < n implies #[trigger] self.rows()[a as int] == if dead.contains(
                    a,
                ) {
                    if exists|i: int| 0 <= i < k + 1 && (#[trigger] dead_list[i]).index_spec() == a {
                        Set::<nat>::empty()
                    } else {
                        rows0[a as int]
                    }
                } else if processed.contains(a) {
                    bridged_row(e0, dead, a)
                } else {
                    rows0[a as int]
                } by {
                    if dead.contains(a) {
                        if a == dead_node.index_spec() {
                            assert(dead_list[k as int].index_spec() == a);
                        } else if exists|i: int|
                            0 <= i < k + 1 && (#[trigger] dead_list[i]).index_spec() == a {
                            let i = choose|i: int|
                                0 <= i < k + 1 && (#[trigger] dead_list[i]).index_spec() == a;
                            assert(i < k);
                        }
                    }
                }
            }
            k += 1;
        }
        proof {
            assert(processed =~= ids(live_nodes@));
            assert forall|e: (nat, nat)| self.edge_set().contains(e) == after_removal(
                e0,
                ids(live_nodes@),
                dead,
            ).contains(e) by {
                if e.0 >= n && connected_through(e0, dead, e.0, e.1) {
                    // an edge leaves a node only
                    let p = choose|p: Seq<nat>| is_bridge(e0, dead, p, e.0, e.1);
                    assert(e0.contains((p[0int], p[0int + 1])));
                }
            }
            assert(self.edge_set() =~= after_removal(e0, ids(live_nodes@), dead));
        }
    }

    /// Deletes the nodes listed in `dead_nodes` and keeps the nodes listed
    /// in `live_nodes` connected, as `remove_dead_nodes` does.
    pub fn kill(&mut self, live_nodes: &[R], dead_nodes: &[R])
        requires
            old(self).wf(),
            ids(dead_nodes@).subset_of(below(old(self).num_nodes())),
            ids(live_nodes@).subset_of(below(old(self).num_nodes())),
            ids(live_nodes@).disjoint(ids(dead_nodes@)),
        ensures
            final(self).wf(),
            final(self).num_nodes() == old(self).num_nodes(),
            final(self).edge_set() == after_removal(
                old(self).edge_set(),
                ids(live_nodes@),
                ids(dead_nodes@),
            ),
    {
        let mut dead_bits = SparseBitSet::new();
        let mut i: usize = 0;
        while i < dead_nodes.len()
            invariant
                i <= dead_nodes.len(),
                self.wf(),
                dead_bits.wf(),
                ids(dead_nodes@).subset_of(below(self.num_nodes())),
                forall|m: nat|
                    dead_bits@.contains(m) <==> exists|k: int|
                        0 <= k < i && (#[trigger] dead_nodes[k]).index_spec() == m,
            decreases dead_nodes.len() - i,
        {
            let n = dead_nodes[i];
            let ghost before = dead_bits@;
            proof {
                assert(ids(dead_nodes@).contains(n.index_spec() as nat));
                self.lemma_edges_in_range();
            }
            dead_bits.insert_chunk(SparseChunk::one(n));
            proof {
                assert forall|m: nat|
                    dead_bits@.contains(m) <==> exists|k: int|
                        0 <= k < i + 1 && (#[trigger] dead_nodes[k]).index_spec() == m by {
                    if before.contains(m) {
                        let k = choose|k: int|
                            0 <= k < i && (#[trigger] dead_nodes[k]).index_spec() == m;
                        assert(dead_nodes[k].index_spec() == m);
                    }
                    if exists|k: int|
                        0 <= k < i + 1 && (#[trigger] dead_nodes[k]).index_spec() == m {
                        let k = choose|k: int|
                            0 <= k < i + 1 && (#[trigger] dead_nodes[k]).index_spec() == m;
                        if k < i {
                            assert(before.contains(m));
                        }
                    }
                }
            }
            i += 1;
        }
        proof {
            assert(dead_bits@ =~= ids(dead_nodes@));
        }
        self.remove_dead_nodes(live_nodes, &dead_bits)
    }

    /// The edges as text, one line for each: the edges of the first node
    /// first, those of one node by increasing target.
    pub fn dump_and_assert(&self) -> (result: Vec<String>)
        requires
            self.wf(),
        ensures
            is_dump_of(result@, self.edge_set()),
    {
        let mut result: Vec<String> = Vec::new();
        let ghost es: Seq<(nat, nat)> = Seq::empty();
        let rows = self.adjacency.rows();
        let mut index: usize = 0;
        while index < rows.len()
            invariant
                index <= rows.len(),
                self.wf(),
                rows@ == self.adjacency.row_sets(),
                rows.len() == self.num_nodes(),
                result.len() == es.len(),
                forall|i: int|
                    0 <= i < es.len() ==> (#[trigger] result[i])@ == edge_text(es[i].0, es[i].1),
                forall|i: int, j: int|
                    0 <= i < j < es.len() ==> (#[trigger] es[i]).0 < (#[trigger] es[j]).0 || (
                    es[i].0 == es[j].0 && es[i].1 < es[j].1),
                forall|i: int|
                    0 <= i < es.len() ==> self.edge_set().contains(#[trigger] es[i]) && es[i].0
                        < index,
                forall|e: (nat, nat)| #[trigger]
                    self.edge_set().contains(e) && e.0 < index ==> exists|i: int|
                        0 <= i < es.len() && #[trigger] es[i] == e,
            decreases rows.len() - index,
        {
            proof {
                assert(rows[index as int].wf());
                assert(rows[index as int]@ == self.rows()[index as int]);
            }
            let succs = rows[index].iter();
            let ghost row = self.rows()[index as int];
            let mut k: usize = 0;
            while k < succs.len()
                invariant
                    k <= succs.len(),
                    index < rows.len(),
                    rows.len() == self.num_nodes(),
                    row == self.rows()[index as int],
                    lists_in_order(succs@, row),
                    result.len() == es.len(),
                    forall|i: int|
                        0 <= i < es.len() ==> (#[trigger] result[i])@ == edge_text(
                            es[i].0,
                            es[i].1,
                        ),
                    forall|i: int, j: int|
                        0 <= i < j < es.len() ==> (#[trigger] es[i]).0 < (#[trigger] es[j]).0 || (
                        es[i].0 == es[j].0 && es[i].1 < es[j].1),
                    forall|i: int|
                        0 <= i < es.len() ==> self.edge_set().contains(#[trigger] es[i]) && (es[i].0
                            < index || (es[i].0 == index && k > 0 && es[i].1 <= succs[k
                            - 1].index_spec())),
                    forall|e: (nat, nat)| #[trigger]
                        self.edge_set().contains(e) && (e.0 < index || (e.0 == index && exists|
                            a: int,
                        |
                            0 <= a < k && (#[trigger] succs[a]).index_spec() == e.1))
                            ==> exists|i: int| 0 <= i < es.len() && #[trigger] es[i] == e,
                decreases succs.len() - k,
            {
                let succ = succs[k].index();
                let mut line = String::new();
                push_decimal(&mut line, index);
                line.append(" --> ");
                push_decimal(&mut line, succ);
                let ghost old_es = es;
                proof {
                    assert(row.contains(succ as nat));
                    assert(self.edge_set().contains((index as nat, succ as nat)));
                    es = es.push((index as nat, succ as nat));
                    if k > 0 {
                        assert(succs[k - 1].index_spec() < succs[k as int].index_spec());
                    }
                }
                result.push(line);
                proof {
                    assert forall|e: (nat, nat)| #[trigger]
                        self.edge_set().contains(e) && (e.0 < index || (e.0 == index && exists|
                            a: int,
                        |
                            0 <= a < k + 1 && (#[trigger] succs[a]).index_spec() == e.1))
                        implies exists|i: int| 0 <= i < es.len() && #[trigger] es[i] == e by {
                        if e.0 == index && e.1 == succ {
                            assert(es[es.len() - 1] == e);
                        } else {
                            if e.0 == index {
                                let a = choose|a: int|
                                    0 <= a < k + 1 && (#[trigger] succs[a]).index_spec() == e.1;
                                assert(a < k);
                            }
                            let i = choose|i: int| 0 <= i < old_es.len() && #[trigger] old_es[i] == e;
                            assert(es[i] == e);
                        }
                    }
                }
                k += 1;
            }
            proof {
                assert forall|e: (nat, nat)| #[trigger]
                    self.edge_set().contains(e) && e.0 < index + 1 implies exists|i: int|
                    0 <= i < es.len() && #[trigger] es[i] == e by {
                    if e.0 == index {
                        assert(row.contains(e.1));
                    }
                }
            }
            index += 1;
        }
        proof {
            assert(lists_edges(es, self.edge_set()));
        }
        result
    }

    /// Adds to each row listed in `rows` the edges that `other` has in that
    /// row, and says whether an edge was added.
    pub fn add_rows(&mut self, other: &Relation<R>, rows: &[R]) -> (changed: bool)
        requires
            old(self).wf(),
            other.wf(),
            other.num_nodes() == old(self).num_nodes(),
            ids(rows@).subset_of(below(old(self).num_nodes())),
        ensures
            final(self).wf(),
            final(self).num_nodes() == old(self).num_nodes(),
            final(self).edge_set() == old(self).edge_set().union(
                restricted(other.edge_set(), ids(rows@)),
            ),
            changed == !restricted(other.edge_set(), ids(rows@)).subset_of(old(self).edge_set()),
    {
        let ghost e0 = self.edge_set();
        let ghost n = self.num_nodes();
        let ghost added: Set<(nat, nat)> = Set::empty();
        let mut changed = false;
        let mut i: usize = 0;
        proof {
            assert(self.edge_set() =~= e0.union(added));
        }
        while i < rows.len()
            invariant
                i <= rows.len(),
                self.wf(),
                other.wf(),
                self.num_nodes() == n,
                other.num_nodes() == n,
                ids(rows@).subset_of(below(n)),
                self.edge_set() == e0.union(added),
                added.subset_of(restricted(other.edge_set(), ids(rows@))),
                forall|k: int, b: nat|
                    0 <= k < i && #[trigger] other.edge_set().contains(
                        ((#[trigger] rows[k]).index_spec() as nat, b),
                    ) ==> added.contains((rows[k].index_spec() as nat, b)),
                changed == !added.subset_of(e0),
            decreases rows.len() - i,
        {
            let row = rows[i];
            let ghost a = row.index_spec() as nat;
            proof {
                assert(ids(rows@).contains(a));
            }
            let ghost before = *self;
            let source = other.adjacency.row(row);
            proof {
                assert(source@ == other.rows()[a as int]);
            }
            let target = self.adjacency.row_mut(row);
            let grew = target.insert_chunks(source);
            changed = changed || grew;
            proof {
                let extra = Set::new(|e: (nat, nat)| e.0 == a && other.edge_set().contains(e));
                assert(self.rows() =~= before.rows().update(
                    a as int,
                    before.rows()[a as int].union(other.rows()[a as int]),
                ));
                assert forall|e: (nat, nat)| self.edge_set().contains(e) == e0.union(
                    added.union(extra),
                ).contains(e) by {
                    assert(before.edge_set().contains(e) == e0.union(added).contains(e));
                    if e.0 < n && e.0 != a {
                        assert(self.rows()[e.0 as int] == before.rows()[e.0 as int]);
                    }
                }
                assert(self.edge_set() =~= e0.union(added.union(extra)));
                if grew {
                    assert(!other.rows()[a as int].subset_of(before.rows()[a as int]));
                    let b = choose|b: nat|
                        other.rows()[a as int].contains(b) && !before.rows()[a as int].contains(b);
                    assert(other.edge_set().contains((a, b)));
                    assert(!before.edge_set().contains((a, b)));
                    assert(e0.union(added).contains((a, b)) == before.edge_set().contains((a, b)));
                    assert(extra.contains((a, b)) && !e0.contains((a, b)));
                } else if !changed {
                    assert forall|e: (nat, nat)| added.union(extra).contains(e) implies e0.contains(
                        e,
                    ) by {
                        if extra.contains(e) {
                            assert(other.rows()[a as int].contains(e.1));
                            assert(before.rows()[a as int].contains(e.1));
                            assert(before.edge_set().contains(e));
                        }
                    }
                }
                if changed && !grew {
                    let e = choose|e: (nat, nat)| added.contains(e) && !e0.contains(e);
                    assert(added.union(extra).contains(e));
                }
                added = added.union(extra);
            }
            i += 1;
        }
        proof {
            assert forall|e: (nat, nat)|
                restricted(other.edge_set(), ids(rows@)).contains(e) implies added.contains(e) by {
                let k = choose|k: int| 0 <= k < rows.len() && (#[trigger] rows[k]).index_spec() == e.0;
                assert(other.edge_set().contains((rows[k].index_spec() as nat, e.1)));
            }
            assert(added =~= restricted(other.edge_set(), ids(rows@)));
        }
        changed
    }
}

impl<R: Idx> Clone for Relation<R> {
    fn clone(&self) -> (r: Self)
        ensures
            r.rows() == self.rows(),
            r.wf() == self.wf(),
    {
        let r = Relation { adjacency: self.adjacency.clone() };
        proof {
            self.adjacency.lemma_same_rows(r.adjacency);
        }
        r
    }
}

impl<R: Idx> Graph<R> for Relation<R> {
    open spec fn node_count(&self) -> nat {
        self.num_nodes()
    }

    open spec fn edge_pairs(&self) -> Set<(nat, nat)> {
        self.edge_set()
    }

    open spec fn consistent(&self) -> bool {
        self.wf()
    }

    fn successors_of(&self, node: R) -> (r: Vec<R>) {
        let r = self.successors(node);
        proof {
            self.lemma_edges_in_range();
            let a = node.index_spec() as nat;
            let row = Set::new(|b: nat| self.edge_set().contains((a, b)));
            assert forall|i: int| 0 <= i < r.len() implies self.edge_set().contains(
                (a, (#[trigger] r[i]).index_spec() as nat),
            ) by {
                assert(row.contains(r[i].index_spec() as nat));
            }
            assert forall|b: nat| self.edge_set().contains((a, b)) implies exists|i: int|
                0 <= i < r.len() && (#[trigger] r[i]).index_spec() == b by {
                assert(row.contains(b));
            }
        }
        r
    }
}

/// The edges of `edges` that leave a node of `from`.
pub open spec fn restricted(edges: Set<(nat, nat)>, from: Set<nat>) -> Set<(nat, nat)> {
    Set::new(|e: (nat, nat)| edges.contains(e) && from.contains(e.0))
}

} // verus!
