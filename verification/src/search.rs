//! The alternate-geometry search: a bounded enumeration of job shapes near a
//! base geometry, keeping those whose reservation is perfectly packed and
//! that a caller-supplied predicate accepts, ordered by ascending node count.

use vstd::prelude::*;

use crate::geometry::Geometry;
use crate::reservation::Reservation;
use crate::reservation::reservation_spec;

verus! {

/// A caller-supplied acceptance test over candidate geometry/reservation
/// pairs, used to restrict which alternates the search keeps. `accepts` is
/// the mathematical meaning of the test; `accept` is the executable
/// decision, which must agree with it, so every implementation is a pure
/// function of the pair.
pub trait SearchPredicate: Sized {
    /// Which pairs the predicate accepts.
    spec fn accepts(&self, g: Geometry, r: Reservation) -> bool;

    /// Decide whether a candidate pair is accepted.
    fn accept(&self, g: Geometry, r: Reservation) -> (b: bool)
        ensures
            b == self.accepts(g, r),
    ;
}

/// The predicate that accepts every candidate.
#[derive(Clone, Copy, Debug)]
pub struct AcceptAll;

impl SearchPredicate for AcceptAll {
    open spec fn accepts(&self, g: Geometry, r: Reservation) -> bool {
        true
    }

    fn accept(&self, g: Geometry, r: Reservation) -> (b: bool) {
        true
    }
}

/// The predicate that accepts only candidates reserving exactly `nodes`
/// nodes, used to suggest only alternates that conserve the node count of a
/// base reservation.
#[derive(Clone, Copy, Debug)]
pub struct ConserveNodes {
    /// The node count every accepted candidate must match.
    pub nodes: u64,
}

impl SearchPredicate for ConserveNodes {
    open spec fn accepts(&self, g: Geometry, r: Reservation) -> bool {
        r.nodes == self.nodes
    }

    fn accept(&self, g: Geometry, r: Reservation) -> (b: bool) {
        r.nodes == self.nodes
    }
}

/// The filled and accepted candidates for one fixed candidate task count,
/// over the first `k` thread offsets (offsets run ascending from
/// `-thread_delta`), in enumeration order.
pub open spec fn searched_row<P: SearchPredicate>(
    base: Geometry,
    tasks: int,
    thread_delta: int,
    k: nat,
    p: &P,
) -> Seq<(Geometry, Reservation)>
    decreases k,
{
    if k == 0 {
        Seq::empty()
    } else {
        let prev = searched_row(base, tasks, thread_delta, (k - 1) as nat, p);
        let threads = base.threads + (k - 1) - thread_delta;
        if 1 <= threads <= base.logical_cpus {
            let cand = Geometry::spec_with_tasks_and_threads(base, tasks as u32, threads as u32);
            let res = reservation_spec(cand);
            if res.is_filled && p.accepts(cand, res) {
                prev.push((cand, res))
            } else {
                prev
            }
        } else {
            prev
        }
    }
}

/// The filled and accepted candidates over the first `j` task offsets
/// (offsets run ascending from `-task_delta`), each expanded over all
/// thread offsets, in enumeration order.
pub open spec fn searched_rows<P: SearchPredicate>(
    base: Geometry,
    task_delta: int,
    thread_delta: int,
    j: nat,
    p: &P,
) -> Seq<(Geometry, Reservation)>
    decreases j,
{
    if j == 0 {
        Seq::empty()
    } else {
        let prev = searched_rows(base, task_delta, thread_delta, (j - 1) as nat, p);
        let tasks = base.tasks + (j - 1) - task_delta;
        if 1 <= tasks <= u32::MAX {
            prev + searched_row(base, tasks, thread_delta, (2 * thread_delta + 1) as nat, p)
        } else {
            prev
        }
    }
}

/// Every filled and accepted candidate of the whole search neighbourhood,
/// in enumeration order: task offsets ascending, thread offsets ascending
/// within each task count.
pub open spec fn search_candidates<P: SearchPredicate>(
    base: Geometry,
    task_delta: int,
    thread_delta: int,
    p: &P,
) -> Seq<(Geometry, Reservation)> {
    searched_rows(base, task_delta, thread_delta, (2 * task_delta + 1) as nat, p)
}

/// Insert `x` behind every element whose node count is at most `x`'s: the
/// insertion step of a stable insertion sort by ascending node count.
pub open spec fn insert_by_nodes(
    s: Seq<(Geometry, Reservation)>,
    x: (Geometry, Reservation),
) -> Seq<(Geometry, Reservation)>
    decreases s.len(),
{
    if s.len() == 0 {
        seq![x]
    } else if s.last().1.nodes <= x.1.nodes {
        s.push(x)
    } else {
        insert_by_nodes(s.drop_last(), x).push(s.last())
    }
}

/// Stable sort by ascending node count: elements tied on node count keep
/// their original relative order.
pub open spec fn sort_by_nodes(s: Seq<(Geometry, Reservation)>) -> Seq<(Geometry, Reservation)>
    decreases s.len(),
{
    if s.len() == 0 {
        Seq::empty()
    } else {
        insert_by_nodes(sort_by_nodes(s.drop_last()), s.last())
    }
}

/// Whether node counts are non-decreasing along `s`.
pub open spec fn sorted_by_nodes(s: Seq<(Geometry, Reservation)>) -> bool {
    forall|i: int, j: int|
        0 <= i <= j < s.len() ==> (#[trigger] s[i]).1.nodes <= (#[trigger] s[j]).1.nodes
}

/// What the alternate search returns: its candidates in enumeration order,
/// stably sorted by ascending node count.
pub open spec fn alternates_spec<P: SearchPredicate>(
    base: Geometry,
    task_delta: int,
    thread_delta: int,
    p: &P,
) -> Seq<(Geometry, Reservation)> {
    sort_by_nodes(search_candidates(base, task_delta, thread_delta, p))
}

/// What holds of every pair the search keeps: a well-formed geometry on the
/// same machine shape as `base` whose task and thread counts lie within the
/// deltas, paired with exactly its reservation, which is filled and which
/// the predicate accepts.
pub open spec fn accepted_pair<P: SearchPredicate>(
    base: Geometry,
    task_delta: int,
    thread_delta: int,
    p: &P,
    pair: (Geometry, Reservation),
) -> bool {
    &&& pair.0.wf()
    &&& pair.0.cpus_per_node == base.cpus_per_node
    &&& pair.0.hyperthreading == base.hyperthreading
    &&& pair.0.logical_cpus == base.logical_cpus
    &&& base.tasks - task_delta <= pair.0.tasks as int <= base.tasks + task_delta
    &&& base.threads - thread_delta <= pair.0.threads as int <= base.threads + thread_delta
    &&& pair.1 == reservation_spec(pair.0)
    &&& pair.1.is_filled
    &&& p.accepts(pair.0, pair.1)
}

proof fn lemma_searched_row_ok<P: SearchPredicate>(
    base: Geometry,
    tasks: int,
    task_delta: int,
    thread_delta: int,
    k: nat,
    p: &P,
)
    requires
        base.wf(),
        0 <= thread_delta,
        k <= 2 * thread_delta + 1,
        1 <= tasks <= u32::MAX,
        base.tasks - task_delta <= tasks <= base.tasks + task_delta,
    ensures
        forall|m: int|
            0 <= m < searched_row(base, tasks, thread_delta, k, p).len() ==> accepted_pair(
                base,
                task_delta,
                thread_delta,
                p,
                #[trigger] searched_row(base, tasks, thread_delta, k, p)[m],
            ),
    decreases k,
{
    if k > 0 {
        lemma_searched_row_ok(base, tasks, task_delta, thread_delta, (k - 1) as nat, p);
        let prev = searched_row(base, tasks, thread_delta, (k - 1) as nat, p);
        let row = searched_row(base, tasks, thread_delta, k, p);
        let threads = base.threads + (k - 1) - thread_delta;
        assert forall|m: int| 0 <= m < row.len() implies accepted_pair(
            base,
            task_delta,
            thread_delta,
            p,
            #[trigger] row[m],
        ) by {
            if m < prev.len() {
                assert(row[m] == prev[m]);
            } else {
                assert(1 <= threads <= base.logical_cpus);
                let cand = Geometry::spec_with_tasks_and_threads(
                    base,
                    tasks as u32,
                    threads as u32,
                );
                assert(cand.tasks as int == tasks && cand.threads as int == threads);
                assert(cand.wf());
                assert(row[m] == (cand, reservation_spec(cand)));
            }
        }
    }
}

proof fn lemma_searched_rows_ok<P: SearchPredicate>(
    base: Geometry,
    task_delta: int,
    thread_delta: int,
    j: nat,
    p: &P,
)
    requires
        base.wf(),
        0 <= task_delta,
        0 <= thread_delta,
        j <= 2 * task_delta + 1,
    ensures
        forall|m: int|
            0 <= m < searched_rows(base, task_delta, thread_delta, j, p).len() ==> accepted_pair(
                base,
                task_delta,
                thread_delta,
                p,
                #[trigger] searched_rows(base, task_delta, thread_delta, j, p)[m],
            ),
    decreases j,
{
    if j > 0 {
        lemma_searched_rows_ok(base, task_delta, thread_delta, (j - 1) as nat, p);
        let prev = searched_rows(base, task_delta, thread_delta, (j - 1) as nat, p);
        let cur = searched_rows(base, task_delta, thread_delta, j, p);
        let tasks = base.tasks + (j - 1) - task_delta;
        if 1 <= tasks <= u32::MAX {
            lemma_searched_row_ok(
                base,
                tasks,
                task_delta,
                thread_delta,
                (2 * thread_delta + 1) as nat,
                p,
            );
            let row = searched_row(base, tasks, thread_delta, (2 * thread_delta + 1) as nat, p);
            assert forall|m: int| 0 <= m < cur.len() implies accepted_pair(
                base,
                task_delta,
                thread_delta,
                p,
                #[trigger] cur[m],
            ) by {
                if m < prev.len() {
                    assert(cur[m] == prev[m]);
                } else {
                    assert(cur[m] == row[m - prev.len()]);
                }
            }
        }
    }
}

/// The pair the search builds for a candidate shape: the base geometry
/// carrying the given task and thread counts, with its reservation.
pub open spec fn candidate_pair(base: Geometry, tasks: int, threads: int) -> (
    Geometry,
    Reservation,
) {
    let cand = Geometry::spec_with_tasks_and_threads(base, tasks as u32, threads as u32);
    (cand, reservation_spec(cand))
}

proof fn lemma_searched_row_contains<P: SearchPredicate>(
    base: Geometry,
    tasks: int,
    thread_delta: int,
    k: nat,
    p: &P,
    threads: int,
)
    requires
        0 <= thread_delta,
        1 <= threads <= base.logical_cpus,
        base.threads - thread_delta <= threads,
        threads - base.threads + thread_delta + 1 <= k,
        candidate_pair(base, tasks, threads).1.is_filled,
        p.accepts(candidate_pair(base, tasks, threads).0, candidate_pair(base, tasks, threads).1),
    ensures
        searched_row(base, tasks, thread_delta, k, p).contains(candidate_pair(base, tasks, threads)),
    decreases k,
{
    let pair = candidate_pair(base, tasks, threads);
    let kk = threads - base.threads + thread_delta + 1;
    let prev = searched_row(base, tasks, thread_delta, (k - 1) as nat, p);
    let row = searched_row(base, tasks, thread_delta, k, p);
    if k == kk {
        assert(base.threads + (k - 1) - thread_delta == threads);
        assert(row == prev.push(pair));
        assert(row[row.len() - 1] == pair);
    } else {
        lemma_searched_row_contains(base, tasks, thread_delta, (k - 1) as nat, p, threads);
        let w = choose|w: int| 0 <= w < prev.len() && prev[w] == pair;
        assert(row[w] == pair);
    }
}

proof fn lemma_searched_rows_contains<P: SearchPredicate>(
    base: Geometry,
    task_delta: int,
    thread_delta: int,
    j: nat,
    p: &P,
    tasks: int,
    pair: (Geometry, Reservation),
)
    requires
        0 <= task_delta,
        0 <= thread_delta,
        1 <= tasks <= u32::MAX,
        base.tasks - task_delta <= tasks,
        tasks - base.tasks + task_delta + 1 <= j,
        searched_row(base, tasks, thread_delta, (2 * thread_delta + 1) as nat, p).contains(pair),
    ensures
        searched_rows(base, task_delta, thread_delta, j, p).contains(pair),
    decreases j,
{
    let jj = tasks - base.tasks + task_delta + 1;
    let prev = searched_rows(base, task_delta, thread_delta, (j - 1) as nat, p);
    let cur = searched_rows(base, task_delta, thread_delta, j, p);
    if j == jj {
        assert(base.tasks + (j - 1) - task_delta == tasks);
        let row = searched_row(base, tasks, thread_delta, (2 * thread_delta + 1) as nat, p);
        assert(cur == prev + row);
        let w = choose|w: int| 0 <= w < row.len() && row[w] == pair;
        assert(cur[prev.len() + w] == pair);
    } else {
        lemma_searched_rows_contains(base, task_delta, thread_delta, (j - 1) as nat, p, tasks, pair);
        let w = choose|w: int| 0 <= w < prev.len() && prev[w] == pair;
        assert(cur[w] == pair);
    }
}

proof fn lemma_insert_by_nodes_props(s: Seq<(Geometry, Reservation)>, x: (Geometry, Reservation))
    ensures
        insert_by_nodes(s, x).len() == s.len() + 1,
        forall|m: int|
            0 <= m < insert_by_nodes(s, x).len() ==> (#[trigger] insert_by_nodes(s, x)[m] == x
                || s.contains(insert_by_nodes(s, x)[m])),
        insert_by_nodes(s, x).contains(x),
        forall|y: (Geometry, Reservation)| #[trigger]
            s.contains(y) ==> insert_by_nodes(s, x).contains(y),
        sorted_by_nodes(s) ==> sorted_by_nodes(insert_by_nodes(s, x)),
    decreases s.len(),
{
    if s.len() == 0 {
        assert(insert_by_nodes(s, x)[0] == x);
    } else {
        let d = s.drop_last();
        let r = insert_by_nodes(s, x);
        lemma_insert_by_nodes_props(d, x);
        if s.last().1.nodes <= x.1.nodes {
            assert(forall|m: int| 0 <= m < s.len() ==> s.contains(#[trigger] s[m]));
            assert(r[s.len() as int] == x);
            assert forall|y: (Geometry, Reservation)| #[trigger]
                s.contains(y) implies r.contains(y) by {
                let w = choose|w: int| 0 <= w < s.len() && s[w] == y;
                assert(r[w] == y);
            }
            if sorted_by_nodes(s) {
                assert forall|i: int, j: int| 0 <= i <= j < r.len() implies (#[trigger] r[i]).1.nodes
                    <= (#[trigger] r[j]).1.nodes by {
                    if j < s.len() {
                    } else {
                        assert(r[j] == x);
                        if i < s.len() {
                            assert(s[i].1.nodes <= s.last().1.nodes);
                        }
                    }
                }
            }
        } else {
            let ri = insert_by_nodes(d, x);
            assert(r == ri.push(s.last()));
            let wx = choose|w: int| 0 <= w < ri.len() && ri[w] == x;
            assert(r[wx] == x);
            assert forall|y: (Geometry, Reservation)| #[trigger]
                s.contains(y) implies r.contains(y) by {
                let v = choose|v: int| 0 <= v < s.len() && s[v] == y;
                if v == s.len() - 1 {
                    assert(r[r.len() - 1] == y);
                } else {
                    assert(d[v] == y);
                    assert(d.contains(y));
                    let w = choose|w: int| 0 <= w < ri.len() && ri[w] == y;
                    assert(r[w] == y);
                }
            }
            assert forall|m: int|
                0 <= m < r.len() implies (#[trigger] r[m] == x || s.contains(r[m])) by {
                if m < ri.len() {
                    assert(r[m] == ri[m]);
                    if ri[m] == x {
                    } else {
                        let w = choose|w: int| 0 <= w < d.len() && d[w] == ri[m];
                        assert(s[w] == ri[m]);
                    }
                } else {
                    assert(r[m] == s.last());
                    assert(s[s.len() - 1] == s.last());
                }
            }
            if sorted_by_nodes(s) {
                assert forall|i: int, j: int| 0 <= i <= j < d.len() implies (#[trigger] d[i]).1.nodes
                    <= (#[trigger] d[j]).1.nodes by {
                    assert(s[i] == d[i] && s[j] == d[j]);
                }
                assert(sorted_by_nodes(d));
                assert(sorted_by_nodes(ri));
                assert forall|i: int, j: int| 0 <= i <= j < r.len() implies (#[trigger] r[i]).1.nodes
                    <= (#[trigger] r[j]).1.nodes by {
                    if j < ri.len() {
                        assert(r[i] == ri[i] && r[j] == ri[j]);
                    } else {
                        assert(r[j] == s.last());
                        if i < ri.len() {
                            assert(r[i] == ri[i]);
                            if ri[i] == x {
                                assert(x.1.nodes < s.last().1.nodes);
                            } else {
                                let w = choose|w: int| 0 <= w < d.len() && d[w] == ri[i];
                                assert(s[w].1.nodes <= s.last().1.nodes);
                            }
                        }
                    }
                }
            }
        }
    }
}

proof fn lemma_sort_by_nodes_props(s: Seq<(Geometry, Reservation)>)
    ensures
        sort_by_nodes(s).len() == s.len(),
        sorted_by_nodes(sort_by_nodes(s)),
        forall|m: int|
            0 <= m < sort_by_nodes(s).len() ==> s.contains(#[trigger] sort_by_nodes(s)[m]),
        forall|y: (Geometry, Reservation)| #[trigger] s.contains(y) ==> sort_by_nodes(s).contains(y),
    decreases s.len(),
{
    if s.len() == 0 {
    } else {
        let d = s.drop_last();
        let r = sort_by_nodes(s);
        lemma_sort_by_nodes_props(d);
        lemma_insert_by_nodes_props(sort_by_nodes(d), s.last());
        assert forall|y: (Geometry, Reservation)| #[trigger] s.contains(y) implies r.contains(y) by {
            let v = choose|v: int| 0 <= v < s.len() && s[v] == y;
            if v == s.len() - 1 {
                assert(r.contains(s.last()));
            } else {
                assert(d[v] == y);
                assert(d.contains(y));
                assert(sort_by_nodes(d).contains(y));
            }
        }
        assert forall|m: int| 0 <= m < r.len() implies s.contains(#[trigger] r[m]) by {
            if r[m] == s.last() {
                assert(s[s.len() - 1] == s.last());
            } else {
                assert(sort_by_nodes(d).contains(r[m]));
                let w = choose|w: int| 0 <= w < sort_by_nodes(d).len() && sort_by_nodes(d)[w]
                    == r[m];
                assert(d.contains(sort_by_nodes(d)[w]));
                let v = choose|v: int| 0 <= v < d.len() && d[v] == r[m];
                assert(s[v] == r[m]);
            }
        }
    }
}

/// Inserting `x` at position `k` — behind every element whose node count is
/// at most `x`'s and ahead of every larger one — is what `insert_by_nodes`
/// produces.
proof fn lemma_insert_by_nodes_at(
    s: Seq<(Geometry, Reservation)>,
    x: (Geometry, Reservation),
    k: int,
)
    requires
        0 <= k <= s.len(),
        forall|m: int| k <= m < s.len() ==> (#[trigger] s[m]).1.nodes > x.1.nodes,
        k > 0 ==> s[k - 1].1.nodes <= x.1.nodes,
    ensures
        insert_by_nodes(s, x) == s.insert(k, x),
    decreases s.len(),
{
    if k == s.len() {
        if s.len() == 0 {
            assert(insert_by_nodes(s, x) =~= s.insert(k, x));
        } else {
            assert(s.last().1.nodes <= x.1.nodes);
            assert(insert_by_nodes(s, x) == s.push(x));
            assert(s.push(x) =~= s.insert(k, x));
        }
    } else {
        assert(s[s.len() - 1].1.nodes > x.1.nodes);
        let d = s.drop_last();
        assert forall|m: int| k <= m < d.len() implies (#[trigger] d[m]).1.nodes > x.1.nodes by {
            assert(d[m] == s[m]);
        }
        if k > 0 {
            assert(d[k - 1] == s[k - 1]);
        }
        lemma_insert_by_nodes_at(d, x, k);
        assert(insert_by_nodes(s, x) == insert_by_nodes(d, x).push(s.last()));
        assert(d.insert(k, x).push(s.last()) =~= s.insert(k, x));
    }
}

/// Determinism of the search: two results computed from identical inputs
/// are identical, including the relative order of candidates tied on node
/// count.
pub proof fn lemma_alternates_deterministic<P: SearchPredicate>(
    base: Geometry,
    task_delta: int,
    thread_delta: int,
    p: &P,
    r1: Seq<(Geometry, Reservation)>,
    r2: Seq<(Geometry, Reservation)>,
)
    requires
        r1 == alternates_spec(base, task_delta, thread_delta, p),
        r2 == alternates_spec(base, task_delta, thread_delta, p),
    ensures
        r1 == r2,
{
}

/// The search result is sorted by non-decreasing node count.
pub proof fn lemma_alternates_sorted<P: SearchPredicate>(
    base: Geometry,
    task_delta: int,
    thread_delta: int,
    p: &P,
)
    ensures
        sorted_by_nodes(alternates_spec(base, task_delta, thread_delta, p)),
{
    lemma_sort_by_nodes_props(search_candidates(base, task_delta, thread_delta, p));
}

/// The search returns only pairs that fill their reservation and that the
/// predicate accepts: each carries a well-formed geometry on the base's
/// machine shape within the deltas, paired with exactly its reservation.
pub proof fn lemma_alternates_accepted<P: SearchPredicate>(
    base: Geometry,
    task_delta: int,
    thread_delta: int,
    p: &P,
)
    requires
        base.wf(),
        0 <= task_delta,
        0 <= thread_delta,
    ensures
        forall|m: int|
            0 <= m < alternates_spec(base, task_delta, thread_delta, p).len() ==> accepted_pair(
                base,
                task_delta,
                thread_delta,
                p,
                #[trigger] alternates_spec(base, task_delta, thread_delta, p)[m],
            ),
{
    let cands = search_candidates(base, task_delta, thread_delta, p);
    let r = alternates_spec(base, task_delta, thread_delta, p);
    lemma_searched_rows_ok(base, task_delta, thread_delta, (2 * task_delta + 1) as nat, p);
    lemma_sort_by_nodes_props(cands);
    assert forall|m: int| 0 <= m < r.len() implies accepted_pair(
        base,
        task_delta,
        thread_delta,
        p,
        #[trigger] r[m],
    ) by {
        assert(cands.contains(r[m]));
        let w = choose|w: int| 0 <= w < cands.len() && cands[w] == r[m];
        assert(accepted_pair(base, task_delta, thread_delta, p, cands[w]));
    }
}

/// The search misses nothing: every candidate shape within the deltas whose
/// counts lie in range, whose reservation is filled and which the predicate
/// accepts appears in the result, paired with its reservation.
pub proof fn lemma_alternates_complete<P: SearchPredicate>(
    base: Geometry,
    task_delta: int,
    thread_delta: int,
    p: &P,
    tasks: int,
    threads: int,
)
    requires
        base.wf(),
        0 <= task_delta,
        0 <= thread_delta,
        base.tasks - task_delta <= tasks <= base.tasks + task_delta,
        1 <= tasks <= u32::MAX,
        base.threads - thread_delta <= threads <= base.threads + thread_delta,
        1 <= threads <= base.logical_cpus,
        candidate_pair(base, tasks, threads).1.is_filled,
        p.accepts(candidate_pair(base, tasks, threads).0, candidate_pair(base, tasks, threads).1),
    ensures
        alternates_spec(base, task_delta, thread_delta, p).contains(
            candidate_pair(base, tasks, threads),
        ),
{
    lemma_searched_row_contains(
        base,
        tasks,
        thread_delta,
        (2 * thread_delta + 1) as nat,
        p,
        threads,
    );
    lemma_searched_rows_contains(
        base,
        task_delta,
        thread_delta,
        (2 * task_delta + 1) as nat,
        p,
        tasks,
        candidate_pair(base, tasks, threads),
    );
    lemma_sort_by_nodes_props(search_candidates(base, task_delta, thread_delta, p));
}

impl Geometry {
    /// For a given geometry produce the alternate geometries, along with
    /// their reservations, that lie within the given search deltas and fill
    /// their whole reservation.
    ///
    /// `task_delta` and `thread_delta` give the search distance: candidate
    /// task counts run over `tasks - task_delta ..= tasks + task_delta` and
    /// candidate thread counts over `threads - thread_delta ..= threads +
    /// thread_delta`, holding the machine shape fixed. Candidates whose
    /// counts fall below one, whose threads exceed the node's logical
    /// CPUs, or whose task count exceeds `u32::MAX` are skipped, not
    /// errors. Only candidates whose reservation is
    /// filled and that `filter` accepts are kept; the result is stably
    /// sorted by ascending node count, so ties keep enumeration order
    /// (task count ascending, then thread count ascending).
    pub fn alternates<P: SearchPredicate>(
        self,
        task_delta: u32,
        thread_delta: u32,
        filter: &P,
    ) -> (result: Vec<(Geometry, Reservation)>)
        requires
            self.wf(),
        ensures
            result@ == alternates_spec(self, task_delta as int, thread_delta as int, filter),
            sorted_by_nodes(result@),
            forall|m: int|
                0 <= m < result@.len() ==> accepted_pair(
                    self,
                    task_delta as int,
                    thread_delta as int,
                    filter,
                    #[trigger] result@[m],
                ),
    {
        let td: i64 = task_delta as i64;
        let thd: i64 = thread_delta as i64;
        let rows: u64 = 2 * (task_delta as u64) + 1;
        let cols: u64 = 2 * (thread_delta as u64) + 1;
        let mut found: Vec<(Geometry, Reservation)> = Vec::new();
        let mut j: u64 = 0;
        while j < rows
            invariant
                self.wf(),
                td == task_delta as i64,
                thd == thread_delta as i64,
                rows == 2 * (task_delta as int) + 1,
                cols == 2 * (thread_delta as int) + 1,
                j <= rows,
                found@ == searched_rows(self, td as int, thd as int, j as nat, filter),
            decreases rows - j,
        {
            let tasks_i: i64 = self.tasks as i64 + (j as i64 - td);
            if 1 <= tasks_i && tasks_i <= u32::MAX as i64 {
                let tasks: u32 = tasks_i as u32;
                let mut k: u64 = 0;
                proof {
                    assert(found@ + Seq::<(Geometry, Reservation)>::empty() =~= found@);
                }
                while k < cols
                    invariant
                        self.wf(),
                        td == task_delta as i64,
                        thd == thread_delta as i64,
                        rows == 2 * (task_delta as int) + 1,
                        cols == 2 * (thread_delta as int) + 1,
                        j < rows,
                        k <= cols,
                        tasks_i == self.tasks + (j - task_delta),
                        1 <= tasks_i <= u32::MAX,
                        tasks == tasks_i as u32,
                        found@ == searched_rows(self, td as int, thd as int, j as nat, filter)
                            + searched_row(self, tasks_i as int, thd as int, k as nat, filter),
                    decreases cols - k,
                {
                    let threads_i: i64 = self.threads as i64 + (k as i64 - thd);
                    let ghost row_pre = searched_row(
                        self,
                        tasks_i as int,
                        thd as int,
                        k as nat,
                        filter,
                    );
                    if 1 <= threads_i && threads_i <= self.logical_cpus as i64 {
                        let threads: u32 = threads_i as u32;
                        let cand = Geometry::with_tasks_and_threads(self, tasks, threads);
                        let res = Reservation::from_geometry(cand);
                        if res.is_filled && filter.accept(cand, res) {
                            found.push((cand, res));
                            proof {
                                assert(searched_rows(self, td as int, thd as int, j as nat, filter)
                                    + row_pre.push((cand, res)) =~= (searched_rows(
                                    self,
                                    td as int,
                                    thd as int,
                                    j as nat,
                                    filter,
                                ) + row_pre).push((cand, res)));
                            }
                        }
                    }
                    k = k + 1;
                }
            }
            j = j + 1;
            proof {
                if !(1 <= self.tasks + (j - 1 - task_delta) <= u32::MAX) {
                    assert(searched_rows(self, td as int, thd as int, j as nat, filter)
                        == searched_rows(self, td as int, thd as int, (j - 1) as nat, filter));
                }
            }
        }
        let ghost cands = search_candidates(self, task_delta as int, thread_delta as int, filter);
        proof {
            assert(found@ == cands);
        }
        let mut result: Vec<(Geometry, Reservation)> = Vec::new();
        let mut i: usize = 0;
        while i < found.len()
            invariant
                found@ == cands,
                i <= found@.len(),
                result@ == sort_by_nodes(found@.take(i as int)),
                result@.len() == i,
            decreases found@.len() - i,
        {
            let x = found[i];
            let mut k: usize = result.len();
            while k > 0 && result[k - 1].1.nodes > x.1.nodes
                invariant
                    k <= result@.len(),
                    forall|m: int|
                        k <= m < result@.len() ==> (#[trigger] result@[m]).1.nodes > x.1.nodes,
                decreases k,
            {
                k = k - 1;
            }
            let ghost sorted_pre = result@;
            proof {
                lemma_insert_by_nodes_at(sorted_pre, x, k as int);
                assert(found@.take(i as int + 1).drop_last() =~= found@.take(i as int));
                assert(found@.take(i as int + 1).last() == found@[i as int]);
                lemma_sort_by_nodes_props(found@.take(i as int));
            }
            result.insert(k, x);
            i = i + 1;
        }
        proof {
            assert(found@.take(found@.len() as int) =~= found@);
            lemma_alternates_sorted(self, task_delta as int, thread_delta as int, filter);
            lemma_alternates_accepted(self, task_delta as int, thread_delta as int, filter);
        }
        result
    }
}

} // verus!
