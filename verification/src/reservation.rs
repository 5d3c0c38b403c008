//! The node reservation implied by a job geometry.

use vstd::prelude::*;

use crate::geometry::Geometry;
use vstd::arithmetic::div_mod::lemma_div_by_self;
use vstd::arithmetic::div_mod::lemma_div_is_ordered;
use vstd::arithmetic::div_mod::lemma_div_nonincreasing;
use vstd::arithmetic::div_mod::lemma_div_pos_is_pos;
use vstd::arithmetic::div_mod::lemma_fundamental_div_mod;
use vstd::arithmetic::div_mod::lemma_mod_bound;

verus! {

/// The sum of a sequence of integers.
pub open spec fn seq_sum(s: Seq<int>) -> int
    decreases s.len(),
{
    if s.len() == 0 {
        0
    } else {
        seq_sum(s.drop_last()) + s.last()
    }
}

/// How many entries of `s` lie strictly below `bound`.
pub open spec fn count_below(s: Seq<int>, bound: int) -> int
    decreases s.len(),
{
    if s.len() == 0 {
        0
    } else {
        count_below(s.drop_last(), bound) + (if s.last() < bound {
            1int
        } else {
            0int
        })
    }
}

/// How many whole tasks a node can host before oversubscribing its threads.
pub open spec fn tasks_per_node(g: Geometry) -> int {
    g.logical_cpus as int / g.threads as int
}

/// How many nodes the job occupies completely with whole tasks.
pub open spec fn full_nodes(g: Geometry) -> int {
    g.tasks as int / tasks_per_node(g)
}

/// The tasks left over after the completely occupied nodes.
pub open spec fn task_remainder(g: Geometry) -> int {
    g.tasks - full_nodes(g) * tasks_per_node(g)
}

/// The per-node occupied-core counts: one entry for each node running as
/// many whole tasks as it can hold, plus, if tasks are left over, one
/// trailing entry for the node that runs the remainder.
pub open spec fn cpu_list(g: Geometry) -> Seq<int> {
    let full = Seq::new(full_nodes(g) as nat, |i: int| tasks_per_node(g) * g.threads);
    if task_remainder(g) > 0 {
        full.push(task_remainder(g) * g.threads)
    } else {
        full
    }
}

/// A reservation: the resources required to run a job of a particular
/// geometry. The counts are 64-bit because a core total can exceed `u32`
/// for large jobs — it can approach `tasks * threads`, with both factors
/// full 32-bit values — and the arithmetic here is exact.
#[derive(Clone, Copy, Debug, PartialEq, Eq, Structural)]
pub struct Reservation {
    /// The total number of nodes in the reservation.
    pub nodes: u64,
    /// The total number of logical CPUs in the reservation.
    pub cpus: u64,
    /// Whether every reserved logical CPU is occupied.
    pub is_filled: bool,
    /// The number of logical CPUs that are active.
    pub used_cpus: u64,
    /// The number of logical CPUs that are reserved but idle.
    pub idle_cpus: u64,
    /// The number of reserved nodes with one or more idle CPUs.
    pub partial_nodes: u64,
}

/// The reservation implied by `g`: the length of the per-node list gives the
/// node count, each node contributes `logical_cpus` reserved cores, the list
/// entries sum to the used cores, and a node is partial when its entry lies
/// below `logical_cpus`.
pub open spec fn reservation_spec(g: Geometry) -> Reservation {
    let nodes = cpu_list(g).len() as int;
    let cpus = nodes * g.logical_cpus;
    let used = seq_sum(cpu_list(g));
    Reservation {
        nodes: nodes as u64,
        cpus: cpus as u64,
        is_filled: used == cpus,
        used_cpus: used as u64,
        idle_cpus: (cpus - used) as u64,
        partial_nodes: count_below(cpu_list(g), g.logical_cpus as int) as u64,
    }
}

/// Facts about how a well-formed geometry divides its nodes: the task
/// capacity of a node is at least one, the remainder is a proper remainder,
/// the list holds between one and `tasks` entries, and every entry lies
/// between `threads` and `logical_cpus`.
proof fn lemma_shape_facts(g: Geometry)
    requires
        g.wf(),
    ensures
        1 <= tasks_per_node(g) <= g.logical_cpus,
        g.threads <= tasks_per_node(g) * g.threads <= g.logical_cpus,
        0 <= full_nodes(g) <= g.tasks,
        full_nodes(g) * tasks_per_node(g) + task_remainder(g) == g.tasks,
        task_remainder(g) == g.tasks as int % tasks_per_node(g),
        0 <= task_remainder(g) < tasks_per_node(g),
        0 <= task_remainder(g) * g.threads <= g.logical_cpus,
        cpu_list(g).len() == full_nodes(g) + (if task_remainder(g) > 0 {
            1int
        } else {
            0int
        }),
        1 <= cpu_list(g).len() <= g.tasks,
        forall|i: int|
            0 <= i < cpu_list(g).len() ==> g.threads <= #[trigger] cpu_list(g)[i]
                <= g.logical_cpus,
{
    let l = g.logical_cpus as int;
    let t = g.threads as int;
    let tpn = tasks_per_node(g);
    let tasks = g.tasks as int;
    lemma_div_by_self(t);
    lemma_div_is_ordered(t, l, t);
    lemma_div_nonincreasing(l, t);
    lemma_fundamental_div_mod(l, t);
    lemma_mod_bound(l, t);
    assert(1 <= tpn <= l);
    assert(t <= tpn * t) by (nonlinear_arith)
        requires
            1 <= t,
            1 <= tpn,
    ;
    assert(tpn * t <= l);
    let full = full_nodes(g);
    let rem = task_remainder(g);
    lemma_fundamental_div_mod(tasks, tpn);
    lemma_mod_bound(tasks, tpn);
    lemma_div_pos_is_pos(tasks, tpn);
    lemma_div_nonincreasing(tasks, tpn);
    assert(full * tpn + rem == tasks);
    assert(rem == tasks % tpn);
    assert(0 <= rem < tpn);
    assert(0 <= rem * t <= l) by (nonlinear_arith)
        requires
            0 <= rem,
            rem < tpn,
            1 <= t,
            tpn * t <= l,
    ;
    assert(full <= full * tpn) by (nonlinear_arith)
        requires
            0 <= full,
            1 <= tpn,
    ;
    if rem == 0 {
        if full == 0 {
            assert(full * tpn == 0) by (nonlinear_arith)
                requires
                    full == 0,
            ;
            assert(tasks == 0);
        }
        assert(1 <= full);
    }
    assert(1 <= cpu_list(g).len() <= g.tasks);
    assert forall|i: int| 0 <= i < cpu_list(g).len() implies g.threads <= #[trigger] cpu_list(g)[i]
        <= g.logical_cpus by {
        if i < full {
            assert(cpu_list(g)[i] == tpn * t);
        } else {
            assert(rem > 0 && cpu_list(g)[i] == rem * t);
            assert(t <= rem * t && rem * t <= l) by (nonlinear_arith)
                requires
                    1 <= rem,
                    rem < tpn,
                    1 <= t,
                    tpn * t <= l,
            ;
        }
    }
}

/// The sum of a sequence whose entries all lie between `lo` and `hi` lies
/// between `len * lo` and `len * hi`.
proof fn lemma_seq_sum_bounds(s: Seq<int>, lo: int, hi: int)
    requires
        forall|i: int| 0 <= i < s.len() ==> lo <= #[trigger] s[i] <= hi,
    ensures
        s.len() * lo <= seq_sum(s) <= s.len() * hi,
    decreases s.len(),
{
    if s.len() == 0 {
    } else {
        let d = s.drop_last();
        lemma_seq_sum_bounds(d, lo, hi);
        assert(d.len() * lo + lo == s.len() * lo && d.len() * hi + hi == s.len() * hi)
            by (nonlinear_arith)
            requires
                d.len() + 1 == s.len(),
        ;
    }
}

/// The sum of a sequence whose entries all lie at or below `hi` is at most
/// `len * hi`.
proof fn lemma_seq_sum_upper(s: Seq<int>, hi: int)
    requires
        forall|i: int| 0 <= i < s.len() ==> #[trigger] s[i] <= hi,
    ensures
        seq_sum(s) <= s.len() * hi,
    decreases s.len(),
{
    if s.len() == 0 {
    } else {
        let d = s.drop_last();
        lemma_seq_sum_upper(d, hi);
        assert(d.len() * hi + hi == s.len() * hi) by (nonlinear_arith)
            requires
                d.len() + 1 == s.len(),
        ;
    }
}

/// For a sequence bounded above by `b`, no entry lies below `b` exactly when
/// the entries sum to `len * b`.
proof fn lemma_count_below_zero_iff_sum_full(s: Seq<int>, b: int)
    requires
        forall|i: int| 0 <= i < s.len() ==> #[trigger] s[i] <= b,
    ensures
        count_below(s, b) == 0 <==> seq_sum(s) == s.len() * b,
        count_below(s, b) >= 0,
    decreases s.len(),
{
    if s.len() == 0 {
    } else {
        let d = s.drop_last();
        lemma_count_below_zero_iff_sum_full(d, b);
        assert(d.len() * b + b == s.len() * b) by (nonlinear_arith)
            requires
                d.len() + 1 == s.len(),
        ;
        if s.last() < b {
            lemma_seq_sum_upper(d, b);
            assert(seq_sum(d) <= d.len() * b);
            assert(seq_sum(s) < s.len() * b);
        }
    }
}

/// The sum of a constant sequence.
proof fn lemma_seq_sum_repeat(n: nat, c: int)
    ensures
        seq_sum(Seq::new(n, |i: int| c)) == n * c,
    decreases n,
{
    let s = Seq::new(n, |i: int| c);
    if n == 0 {
    } else {
        lemma_seq_sum_repeat((n - 1) as nat, c);
        assert(s.drop_last() =~= Seq::new((n - 1) as nat, |i: int| c));
        assert((n - 1) * c + c == n * c) by (nonlinear_arith);
    }
}

/// The occupied cores summed over all nodes are exactly the job's
/// `tasks * threads`: every task runs all its threads somewhere.
proof fn lemma_cpu_list_sum(g: Geometry)
    requires
        g.wf(),
    ensures
        seq_sum(cpu_list(g)) == g.tasks as int * g.threads as int,
{
    lemma_shape_facts(g);
    let t = g.threads as int;
    let tpn = tasks_per_node(g);
    let full = full_nodes(g);
    let rem = task_remainder(g);
    let base = Seq::new(full as nat, |i: int| tpn * t);
    lemma_seq_sum_repeat(full as nat, tpn * t);
    if rem > 0 {
        assert(cpu_list(g).drop_last() =~= base);
        assert(seq_sum(cpu_list(g)) == full * (tpn * t) + rem * t);
    } else {
        assert(rem * t == 0) by (nonlinear_arith)
            requires
                rem == 0,
        ;
        assert(seq_sum(cpu_list(g)) == full * (tpn * t) + rem * t);
    }
    assert(full * (tpn * t) + rem * t == (full * tpn + rem) * t) by (nonlinear_arith);
    assert((full * tpn + rem) * t == g.tasks as int * t);
}

/// A reservation is filled exactly when the threads divide a node's logical
/// CPUs evenly and the per-node task capacity divides the task count: only
/// then does every reserved core run a thread.
pub proof fn lemma_filled_characterization(g: Geometry)
    requires
        g.wf(),
    ensures
        reservation_spec(g).is_filled <==> (g.logical_cpus as int % g.threads as int == 0
            && g.tasks as int % tasks_per_node(g) == 0),
{
    lemma_shape_facts(g);
    lemma_cpu_list_sum(g);
    let l = g.logical_cpus as int;
    let t = g.threads as int;
    let tpn = tasks_per_node(g);
    let tasks = g.tasks as int;
    let full = full_nodes(g);
    let rem = task_remainder(g);
    let len = cpu_list(g).len() as int;
    let used = seq_sum(cpu_list(g));
    let cpus = len * l;
    lemma_fundamental_div_mod(l, t);
    lemma_mod_bound(l, t);
    let s = l % t;
    if rem > 0 {
        assert(used == (full * tpn + rem) * t);
        assert(cpus == (full + 1) * l);
        assert((full * tpn + rem) * t < (full + 1) * l) by (nonlinear_arith)
            requires
                0 <= full,
                0 <= rem < tpn,
                1 <= t,
                tpn * t <= l,
        ;
        assert(!reservation_spec(g).is_filled);
        assert(tasks % tpn != 0);
    } else {
        assert(used == full * (tpn * t)) by (nonlinear_arith)
            requires
                used == tasks * t,
                tasks == full * tpn + rem,
                rem == 0,
        ;
        assert(cpus == full * (tpn * t) + full * s) by (nonlinear_arith)
            requires
                cpus == full * l,
                l == t * tpn + s,
        ;
        if s == 0 {
            assert(full * s == 0) by (nonlinear_arith)
                requires
                    s == 0,
            ;
            assert(used == cpus);
        } else {
            assert(full * s > 0) by (nonlinear_arith)
                requires
                    full >= 1,
                    s >= 1,
            ;
            assert(used != cpus);
        }
        assert(tasks % tpn == 0);
    }
}

/// When the threads divide a node's logical CPUs evenly, the reservation is
/// filled exactly when the task count divides evenly into the per-node task
/// capacity. (With an uneven thread count every node keeps idle cores and
/// the reservation is never filled.)
pub proof fn lemma_filled_iff_tasks_divisible(g: Geometry)
    requires
        g.wf(),
        g.logical_cpus as int % g.threads as int == 0,
    ensures
        reservation_spec(g).is_filled <==> g.tasks as int % tasks_per_node(g) == 0,
{
    lemma_filled_characterization(g);
}

impl Reservation {
    /// Create a reservation from a geometry. This is a pure function of the
    /// geometry and cannot fail: the node count is at least one, the
    /// reserved cores are `nodes * logical_cpus`, the used cores are exactly
    /// `tasks * threads`, idle cores account for the difference, and the
    /// reservation is filled exactly when no node is partially occupied.
    pub fn from_geometry(geom: Geometry) -> (r: Reservation)
        requires
            geom.wf(),
        ensures
            r == reservation_spec(geom),
            1 <= r.nodes <= geom.tasks,
            r.cpus as int == r.nodes as int * geom.logical_cpus as int,
            r.used_cpus as int == geom.tasks as int * geom.threads as int,
            r.used_cpus <= r.cpus,
            r.idle_cpus + r.used_cpus == r.cpus,
            r.is_filled == (r.used_cpus == r.cpus),
            (r.partial_nodes == 0) <==> r.is_filled,
            r.partial_nodes <= r.nodes,
    {
        let cpu_list_v = compute_cpu_list(geom);
        let ghost list = cpu_list(geom);
        proof {
            lemma_shape_facts(geom);
            lemma_cpu_list_sum(geom);
            lemma_seq_sum_bounds(list, geom.threads as int, geom.logical_cpus as int);
            lemma_count_below_zero_iff_sum_full(list, geom.logical_cpus as int);
            assert(list.len() * geom.logical_cpus as int <= 0xffff_ffff * 0xffff_ffffu64)
                by (nonlinear_arith)
                requires
                    0 <= list.len() <= 0xffff_ffffu64,
                    0 <= geom.logical_cpus <= 0xffff_ffffu64,
            ;
        }
        let reserved_nodes: u64 = cpu_list_v.len() as u64;
        let reserved_cpus: u64 = reserved_nodes * (geom.logical_cpus as u64);
        let mut used: u64 = 0;
        let mut idx: usize = 0;
        while idx < cpu_list_v.len()
            invariant
                geom.wf(),
                list == cpu_list(geom),
                cpu_list_v@.len() == list.len(),
                forall|k: int| 0 <= k < list.len() ==> #[trigger] cpu_list_v@[k] as int == list[k],
                forall|i: int|
                    0 <= i < list.len() ==> geom.threads <= #[trigger] list[i] <= g_logical(geom),
                list.len() <= geom.tasks,
                idx <= list.len(),
                used as int == seq_sum(list.take(idx as int)),
                used as int <= idx * g_logical(geom),
            decreases list.len() - idx,
        {
            proof {
                assert(list.take(idx as int + 1).drop_last() =~= list.take(idx as int));
                assert(list.take(idx as int + 1).last() == list[idx as int]);
                assert((idx + 1) * g_logical(geom) == idx * g_logical(geom) + g_logical(geom))
                    by (nonlinear_arith);
                assert((idx + 1) * g_logical(geom) <= list.len() * g_logical(geom))
                    by (nonlinear_arith)
                    requires
                        idx + 1 <= list.len(),
                        0 <= g_logical(geom),
                ;
                assert(list.len() * g_logical(geom) <= 0xffff_ffff * 0xffff_ffffu64)
                    by (nonlinear_arith)
                    requires
                        0 <= list.len() <= 0xffff_ffffu64,
                        0 <= g_logical(geom) <= 0xffff_ffffu64,
                ;
            }
            used = used + cpu_list_v[idx];
            idx = idx + 1;
        }
        proof {
            assert(list.take(list.len() as int) =~= list);
        }
        if reserved_cpus == used {
            Reservation {
                nodes: reserved_nodes,
                cpus: reserved_cpus,
                is_filled: true,
                used_cpus: reserved_cpus,
                idle_cpus: 0,
                partial_nodes: 0,
            }
        } else {
            let mut partial: u64 = 0;
            let mut idx2: usize = 0;
            while idx2 < cpu_list_v.len()
                invariant
                    geom.wf(),
                    list == cpu_list(geom),
                    cpu_list_v@.len() == list.len(),
                    forall|k: int|
                        0 <= k < list.len() ==> #[trigger] cpu_list_v@[k] as int == list[k],
                    idx2 <= list.len(),
                    partial as int == count_below(list.take(idx2 as int), g_logical(geom)),
                    partial <= idx2,
                decreases list.len() - idx2,
            {
                proof {
                    assert(list.take(idx2 as int + 1).drop_last() =~= list.take(idx2 as int));
                    assert(list.take(idx2 as int + 1).last() == list[idx2 as int]);
                }
                if cpu_list_v[idx2] < geom.logical_cpus as u64 {
                    partial = partial + 1;
                }
                idx2 = idx2 + 1;
            }
            proof {
                assert(list.take(list.len() as int) =~= list);
            }
            Reservation {
                nodes: reserved_nodes,
                cpus: reserved_cpus,
                is_filled: false,
                used_cpus: used,
                idle_cpus: reserved_cpus - used,
                partial_nodes: partial,
            }
        }
    }
}

/// The node's logical CPU count as a mathematical integer.
spec fn g_logical(g: Geometry) -> int {
    g.logical_cpus as int
}

/// Build the per-node occupied-core list of `geom`, mirroring `cpu_list`.
fn compute_cpu_list(geom: Geometry) -> (v: Vec<u64>)
    requires
        geom.wf(),
    ensures
        v@.len() == cpu_list(geom).len(),
        forall|k: int| 0 <= k < v@.len() ==> #[trigger] v@[k] as int == cpu_list(geom)[k],
{
    proof {
        lemma_shape_facts(geom);
    }
    let node_capacity: u32 = geom.logical_cpus / geom.threads;
    let num_nodes: u32 = geom.tasks / node_capacity;
    let remainder: u32 = geom.tasks - num_nodes * node_capacity;
    let entry: u64 = (node_capacity as u64) * (geom.threads as u64);
    let mut v: Vec<u64> = Vec::new();
    let mut i: u32 = 0;
    while i < num_nodes
        invariant
            i <= num_nodes,
            num_nodes == full_nodes(geom),
            entry as int == tasks_per_node(geom) * geom.threads as int,
            v@.len() == i,
            forall|k: int| 0 <= k < i ==> #[trigger] v@[k] == entry,
        decreases num_nodes - i,
    {
        v.push(entry);
        i = i + 1;
    }
    if remainder > 0 {
        v.push((remainder as u64) * (geom.threads as u64));
    }
    proof {
        assert forall|k: int| 0 <= k < v@.len() implies #[trigger] v@[k] as int == cpu_list(geom)[k]
        by {
            if k < full_nodes(geom) {
                assert(cpu_list(geom)[k] == tasks_per_node(geom) * geom.threads as int);
            }
        }
    }
    v
}

} // verus!
