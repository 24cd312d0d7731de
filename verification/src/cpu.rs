//! CPU topology maintenance and per-core utilization.
//!
//! The core table is rebuilt in full from the live topology on every pass:
//! one row per live core, and everything at an index at or beyond the live
//! core count is dropped — its per-core samples deleted, and the core field
//! of process samples that still point at it cleared to null (processes
//! survive core removal).
//!
//! Utilization differs the per-process samples of the current tick against
//! those of the most recent earlier tick: each process contributes the growth
//! of its cumulative CPU time to the core it is assigned to, and the per-core
//! totals are recorded as an exact fraction of the elapsed wall time. With no
//! prior sample or no elapsed time, every core records the zero fraction.

use vstd::prelude::*;

use crate::database::Database;
use crate::seq_util::{keep, lemma_keep_idempotent, lemma_keep_properties, lemma_keep_push};
use crate::tables::{Cpu, CpuStat, ProcStat, Utilization};

verus! {

/// Clears the core assignment of every process sample that points at a core
/// index at or beyond `n`.
pub open spec fn null_high_cores(stats: Seq<ProcStat>, n: int) -> Seq<ProcStat> {
    stats.map_values(
        |s: ProcStat|
            match s.cpu_core {
                Some(c) => if c as int >= n {
                    ProcStat { cpu_core: None, ..s }
                } else {
                    s
                },
                None => s,
            },
    )
}

/// The predicate a per-core sample must meet to survive a topology rebuild
/// with `n` live cores.
pub open spec fn core_below(n: int) -> spec_fn(CpuStat) -> bool {
    |c: CpuStat| (c.cpu_core as int) < n
}

/// Rebuilds the core table from the live topology: the table becomes exactly
/// the live rows, per-core samples of removed indices are deleted, and
/// process samples still pointing at a removed index lose their core
/// assignment (soft unlink). No other table is touched.
pub fn init_cpu_data(db: &mut Database, live: &Vec<Cpu>)
    requires
        old(db).wf(),
        forall|i: int| 0 <= i < live@.len() ==> (#[trigger] live@[i]).cpu_core == i as u32,
    ensures
        final(db).wf(),
        final(db).cpus@ == live@,
        final(db).cpu_stats@ == keep(old(db).cpu_stats@, core_below(live@.len() as int)),
        final(db).proc_stats@ == null_high_cores(old(db).proc_stats@, live@.len() as int),
        // Nothing refers to a removed core any more.
        forall|k: int|
            0 <= k < final(db).cpu_stats@.len()
                ==> ((#[trigger] final(db).cpu_stats@[k]).cpu_core as int) < live@.len(),
        forall|k: int|
            0 <= k < final(db).proc_stats@.len()
                ==> ((#[trigger] final(db).proc_stats@[k]).cpu_core matches Some(c)
                ==> (c as int) < live@.len()),
        final(db).processes == old(db).processes,
        final(db).memory == old(db).memory,
        final(db).disks == old(db).disks,
        final(db).disk_stats == old(db).disk_stats,
        final(db).interfaces == old(db).interfaces,
        final(db).network_stats == old(db).network_stats,
{
    let n = live.len();

    // One row per live core, replacing whatever the table held.
    let mut cores: Vec<Cpu> = Vec::new();
    let mut i: usize = 0;
    while i < live.len()
        invariant
            i <= live@.len(),
            cores@ =~= live@.take(i as int),
        decreases live@.len() - i,
    {
        cores.push(live[i]);
        proof {
            assert(cores@ =~= live@.take(i as int + 1));
        }
        i += 1;
    }
    proof {
        assert(cores@ =~= live@);
    }
    db.cpus = cores;

    // Drop the samples of removed cores.
    let ghost pred = core_below(n as int);
    let mut kept: Vec<CpuStat> = Vec::new();
    let mut i: usize = 0;
    proof {
        assert(db.cpu_stats@.take(0) =~= Seq::<CpuStat>::empty());
    }
    while i < db.cpu_stats.len()
        invariant
            i <= db.cpu_stats@.len(),
            db.cpu_stats@ == old(db).cpu_stats@,
            pred == core_below(n as int),
            kept@ =~= keep(db.cpu_stats@.take(i as int), pred),
        decreases db.cpu_stats@.len() - i,
    {
        let s = db.cpu_stats[i];
        proof {
            assert(db.cpu_stats@.take(i as int + 1) =~= db.cpu_stats@.take(i as int).push(s));
            lemma_keep_push(db.cpu_stats@.take(i as int), pred, s);
        }
        if (s.cpu_core as usize) < n {
            kept.push(s);
        }
        i += 1;
    }
    proof {
        assert(db.cpu_stats@.take(db.cpu_stats@.len() as int) =~= db.cpu_stats@);
        lemma_keep_properties(old(db).cpu_stats@, pred);
        assert forall|k: int| 0 <= k < kept@.len() implies ((#[trigger] kept@[k]).cpu_core as int)
            < live@.len() by {
            assert(pred(kept@[k]));
        }
        assert forall|k: int| 0 <= k < kept@.len() implies (#[trigger] kept@[k]).timestamp >= 0 by {
            assert(old(db).cpu_stats@.contains(kept@[k]));
            let t = choose|t: int|
                0 <= t < old(db).cpu_stats@.len() && old(db).cpu_stats@[t] == kept@[k];
            assert(old(db).cpu_stats@[t].timestamp >= 0);
        }
    }
    db.cpu_stats = kept;

    // Soft-unlink process samples from removed cores.
    let mut unlinked: Vec<ProcStat> = Vec::new();
    let mut i: usize = 0;
    while i < db.proc_stats.len()
        invariant
            i <= db.proc_stats@.len(),
            db.proc_stats@ == old(db).proc_stats@,
            unlinked@ =~= null_high_cores(old(db).proc_stats@, n as int).take(i as int),
        decreases db.proc_stats@.len() - i,
    {
        let mut s = db.proc_stats[i];
        match s.cpu_core {
            Some(c) => {
                if (c as usize) >= n {
                    s.cpu_core = None;
                }
            },
            None => {},
        }
        unlinked.push(s);
        proof {
            assert(unlinked@ =~= null_high_cores(old(db).proc_stats@, n as int).take(i as int + 1));
        }
        i += 1;
    }
    proof {
        assert(unlinked@ =~= null_high_cores(old(db).proc_stats@, n as int));
        assert forall|k: int| 0 <= k < unlinked@.len() implies ((#[trigger] unlinked@[k]).cpu_core
            matches Some(c) ==> (c as int) < live@.len()) by {
            assert(unlinked@[k] == null_high_cores(old(db).proc_stats@, n as int)[k]);
        }
        assert(db.processes.deep_view() == old(db).processes.deep_view());
    }
    db.proc_stats = unlinked;
}

/// Idempotent topology shrink. After a rebuild with `n` live cores, no
/// per-core sample references a core at or beyond `n` and no process sample
/// is still assigned to one; and rebuilding again with the same count leaves
/// the filtered per-core samples and the soft-unlinked process samples
/// exactly as they are — together with the core table being a plain copy of
/// the live rows, re-running the rebuild is a no-op.
pub proof fn lemma_init_cpu_idempotent(cpu_stats: Seq<CpuStat>, proc_stats: Seq<ProcStat>, n: int)
    ensures
        forall|k: int|
            0 <= k < keep(cpu_stats, core_below(n)).len()
                ==> ((#[trigger] keep(cpu_stats, core_below(n))[k]).cpu_core as int) < n,
        forall|k: int|
            0 <= k < null_high_cores(proc_stats, n).len()
                ==> ((#[trigger] null_high_cores(proc_stats, n)[k]).cpu_core matches Some(c)
                ==> (c as int) < n),
        keep(keep(cpu_stats, core_below(n)), core_below(n)) == keep(cpu_stats, core_below(n)),
        null_high_cores(null_high_cores(proc_stats, n), n) =~= null_high_cores(proc_stats, n),
{
    lemma_keep_properties(cpu_stats, core_below(n));
    assert forall|k: int| 0 <= k < keep(cpu_stats, core_below(n)).len() implies ((#[trigger] keep(
        cpu_stats,
        core_below(n),
    )[k]).cpu_core as int) < n by {
        assert(core_below(n)(keep(cpu_stats, core_below(n))[k]));
    }
    lemma_keep_idempotent(cpu_stats, core_below(n));
}

/// The greatest timestamp among these per-core samples.
pub open spec fn max_ts(stats: Seq<CpuStat>) -> i64
    recommends
        stats.len() > 0,
    decreases stats.len(),
{
    if stats.len() <= 1 {
        if stats.len() == 1 {
            stats[0].timestamp
        } else {
            0
        }
    } else {
        let m = max_ts(stats.drop_last());
        if stats.last().timestamp > m {
            stats.last().timestamp
        } else {
            m
        }
    }
}

/// The maximum is one of the timestamps, and bounds them all.
pub proof fn lemma_max_ts(stats: Seq<CpuStat>)
    requires
        stats.len() > 0,
    ensures
        exists|k: int| 0 <= k < stats.len() && (#[trigger] stats[k]).timestamp == max_ts(stats),
        forall|k: int| 0 <= k < stats.len() ==> (#[trigger] stats[k]).timestamp <= max_ts(stats),
    decreases stats.len(),
{
    if stats.len() == 1 {
        assert(stats[0].timestamp == max_ts(stats));
    } else {
        lemma_max_ts(stats.drop_last());
        assert(forall|k: int|
            0 <= k < stats.len() - 1 ==> (#[trigger] stats[k]) == stats.drop_last()[k]);
        if max_ts(stats) == stats.last().timestamp {
            assert(stats[stats.len() - 1].timestamp == max_ts(stats));
        } else {
            let k = choose|k: int|
                0 <= k < stats.drop_last().len() && (#[trigger] stats.drop_last()[k]).timestamp
                    == max_ts(stats.drop_last());
            assert(stats[k].timestamp == max_ts(stats));
        }
    }
}

/// The reference timestamp for differencing: that of the most recent
/// per-core sample, or the current time when none exists (which makes the
/// first pass record zero usage by construction).
pub open spec fn last_sample_time(stats: Seq<CpuStat>, cur_time: i64) -> i64 {
    if stats.len() == 0 {
        cur_time
    } else {
        max_ts(stats)
    }
}

/// The first process sample taken at `last_time` that carries `pid`, in
/// table order.
pub open spec fn first_prior(stats: Seq<ProcStat>, pid: u32, last_time: i64) -> Option<ProcStat>
    decreases stats.len(),
{
    if stats.len() == 0 {
        None
    } else if stats[0].timestamp == last_time && stats[0].pid == pid {
        Some(stats[0])
    } else {
        first_prior(stats.drop_first(), pid, last_time)
    }
}

/// The CPU time (milliseconds) a current sample contributes: the growth of
/// its cumulative counter over its prior sample when one exists — never
/// negative — and the whole counter for a process first seen this interval.
pub open spec fn contribution_ms(s: ProcStat, all: Seq<ProcStat>, last_time: i64) -> int {
    match first_prior(all, s.pid, last_time) {
        Some(o) => if s.total_cpu >= o.total_cpu {
            s.total_cpu - o.total_cpu
        } else {
            0
        },
        None => s.total_cpu as int,
    }
}

/// Total CPU time (milliseconds) accumulated on `core` during the interval:
/// the contributions of the samples of the current tick assigned to it.
pub open spec fn core_usage_ms(
    cur: Seq<ProcStat>,
    all: Seq<ProcStat>,
    core: u32,
    cur_time: i64,
    last_time: i64,
) -> int
    decreases cur.len(),
{
    if cur.len() == 0 {
        0
    } else {
        let rest = core_usage_ms(cur.drop_last(), all, core, cur_time, last_time);
        if cur.last().timestamp == cur_time && cur.last().cpu_core == Some(core) {
            rest + contribution_ms(cur.last(), all, last_time)
        } else {
            rest
        }
    }
}

/// Utilization per core is never negative: every contribution is at least
/// zero, so the per-core total is too.
pub proof fn lemma_core_usage_nonneg(
    cur: Seq<ProcStat>,
    all: Seq<ProcStat>,
    core: u32,
    cur_time: i64,
    last_time: i64,
)
    ensures
        core_usage_ms(cur, all, core, cur_time, last_time) >= 0,
    decreases cur.len(),
{
    if cur.len() > 0 {
        lemma_core_usage_nonneg(cur.drop_last(), all, core, cur_time, last_time);
    }
}

/// Clamps a mathematical tally into a 64-bit counter.
pub open spec fn sat64(x: int) -> u64 {
    if x > u64::MAX as int {
        u64::MAX
    } else if x < 0 {
        0
    } else {
        x as u64
    }
}

/// The utilization one core records for the interval ending at `cur_time`:
/// the exact fraction of its accumulated CPU time over the elapsed wall
/// time, and the zero fraction when no time elapsed.
pub open spec fn usage_for_core(
    proc_stats: Seq<ProcStat>,
    core: u32,
    cur_time: i64,
    last_time: i64,
) -> Utilization {
    if cur_time > last_time {
        Utilization {
            used_ms: sat64(core_usage_ms(proc_stats, proc_stats, core, cur_time, last_time)),
            elapsed_s: (cur_time - last_time) as u64,
        }
    } else {
        Utilization::spec_zero()
    }
}

/// The first prior sample for `pid` at `last_time`, in table order.
fn find_first_prior(stats: &Vec<ProcStat>, pid: u32, last_time: i64) -> (r: Option<ProcStat>)
    ensures
        r == first_prior(stats@, pid, last_time),
{
    let mut i: usize = 0;
    proof {
        assert(stats@.skip(0) =~= stats@);
    }
    while i < stats.len()
        invariant
            i <= stats@.len(),
            first_prior(stats@, pid, last_time) == first_prior(
                stats@.skip(i as int),
                pid,
                last_time,
            ),
        decreases stats@.len() - i,
    {
        proof {
            assert(stats@.skip(i as int)[0] == stats@[i as int]);
            assert(stats@.skip(i as int).drop_first() =~= stats@.skip(i as int + 1));
        }
        let s = stats[i];
        if s.timestamp == last_time && s.pid == pid {
            return Some(s);
        }
        i += 1;
    }
    proof {
        assert(stats@.skip(stats@.len() as int).len() == 0);
    }
    None
}

/// Appends one per-core sample at `cur_time` for every core the table knows,
/// carrying the utilization aggregated from the process samples: each
/// process sampled at `cur_time` and assigned to a live core contributes the
/// growth of its cumulative CPU time since its sample at the previous tick
/// (its whole counter when it has none) — see [`usage_for_core`]. With no
/// prior per-core sample, or none newer than `cur_time`, every core records
/// the zero fraction. Nothing else changes.
pub fn update_cpu_data(db: &mut Database, cur_time: u64)
    requires
        old(db).wf(),
        cur_time <= i64::MAX as u64,
        old(db).cpus@.len() <= u32::MAX as usize,
    ensures
        final(db).wf(),
        final(db).cpu_stats@.len() == old(db).cpu_stats@.len() + old(db).cpus@.len(),
        forall|k: int|
            0 <= k < old(db).cpu_stats@.len() ==> #[trigger] final(db).cpu_stats@[k] == old(
                db,
            ).cpu_stats@[k],
        forall|c: int|
            0 <= c < old(db).cpus@.len()
                ==> #[trigger] final(db).cpu_stats@[old(db).cpu_stats@.len() + c] == (CpuStat {
                cpu_core: c as u32,
                timestamp: cur_time as i64,
                usage: usage_for_core(
                    old(db).proc_stats@,
                    c as u32,
                    cur_time as i64,
                    last_sample_time(old(db).cpu_stats@, cur_time as i64),
                ),
            }),
        // With no prior data there is nothing to difference: all zeros.
        old(db).cpu_stats@.len() == 0 ==> forall|c: int|
            0 <= c < old(db).cpus@.len() ==> (#[trigger] final(db).cpu_stats@[old(
                db,
            ).cpu_stats@.len() + c]).usage == Utilization::spec_zero(),
        final(db).processes == old(db).processes,
        final(db).proc_stats == old(db).proc_stats,
        final(db).cpus == old(db).cpus,
        final(db).memory == old(db).memory,
        final(db).disks == old(db).disks,
        final(db).disk_stats == old(db).disk_stats,
        final(db).interfaces == old(db).interfaces,
        final(db).network_stats == old(db).network_stats,
{
    let ghost old_stats = db.cpu_stats@;

    // The timestamp of the most recent existing per-core sample, if any.
    let mut last_time: i64 = cur_time as i64;
    if db.cpu_stats.len() > 0 {
        let mut m: i64 = db.cpu_stats[0].timestamp;
        let mut i: usize = 1;
        proof {
            assert(db.cpu_stats@.take(1) =~= seq![db.cpu_stats@[0]]);
        }
        while i < db.cpu_stats.len()
            invariant
                1 <= i <= db.cpu_stats@.len(),
                db.cpu_stats@ == old_stats,
                m == max_ts(db.cpu_stats@.take(i as int)),
            decreases db.cpu_stats@.len() - i,
        {
            proof {
                assert(db.cpu_stats@.take(i as int + 1).drop_last() =~= db.cpu_stats@.take(
                    i as int,
                ));
                assert(db.cpu_stats@.take(i as int + 1).last() == db.cpu_stats@[i as int]);
            }
            if db.cpu_stats[i].timestamp > m {
                m = db.cpu_stats[i].timestamp;
            }
            i += 1;
        }
        proof {
            assert(db.cpu_stats@.take(db.cpu_stats@.len() as int) =~= db.cpu_stats@);
        }
        last_time = m;
        proof {
            lemma_max_ts(old_stats);
            let k = choose|k: int|
                0 <= k < old_stats.len() && (#[trigger] old_stats[k]).timestamp == max_ts(
                    old_stats,
                );
            assert(old_stats[k].timestamp >= 0);
        }
    }
    proof {
        assert(last_time == last_sample_time(old_stats, cur_time as i64));
        assert(last_time >= 0);
    }

    // One new sample per core.
    let n = db.cpus.len();
    let mut core: usize = 0;
    while core < n
        invariant
            core <= n,
            n == db.cpus@.len(),
            n <= u32::MAX as usize,
            cur_time <= i64::MAX as u64,
            db.wf(),
            db.processes == old(db).processes,
            db.proc_stats == old(db).proc_stats,
            db.cpus == old(db).cpus,
            db.memory == old(db).memory,
            db.disks == old(db).disks,
            db.disk_stats == old(db).disk_stats,
            db.interfaces == old(db).interfaces,
            db.network_stats == old(db).network_stats,
            old_stats == old(db).cpu_stats@,
            last_time == last_sample_time(old_stats, cur_time as i64),
            last_time >= 0,
            db.cpu_stats@.len() == old_stats.len() + core,
            forall|k: int|
                0 <= k < old_stats.len() ==> #[trigger] db.cpu_stats@[k] == old_stats[k],
            forall|c: int|
                0 <= c < core ==> #[trigger] db.cpu_stats@[old_stats.len() + c] == (CpuStat {
                    cpu_core: c as u32,
                    timestamp: cur_time as i64,
                    usage: usage_for_core(
                        old(db).proc_stats@,
                        c as u32,
                        cur_time as i64,
                        last_time,
                    ),
                }),
        decreases n - core,
    {
        let usage: Utilization = if (cur_time as i64) > last_time {
            let ghost all = db.proc_stats@;
            let mut used: u64 = 0;
            let mut i: usize = 0;
            proof {
                assert(all.take(0) =~= Seq::<ProcStat>::empty());
            }
            while i < db.proc_stats.len()
                invariant
                    i <= db.proc_stats@.len(),
                    db.proc_stats@ == all,
                    cur_time <= i64::MAX as u64,
                    core < n <= u32::MAX as usize,
                    used == sat64(
                        core_usage_ms(
                            all.take(i as int),
                            all,
                            core as u32,
                            cur_time as i64,
                            last_time,
                        ),
                    ),
                decreases db.proc_stats@.len() - i,
            {
                let ghost taken = all.take(i as int);
                proof {
                    assert(all.take(i as int + 1).drop_last() =~= taken);
                    assert(all.take(i as int + 1).last() == all[i as int]);
                    lemma_core_usage_nonneg(taken, all, core as u32, cur_time as i64, last_time);
                }
                let s = db.proc_stats[i];
                let on_core = match s.cpu_core {
                    Some(c) => (c as usize) == core,
                    None => false,
                };
                if s.timestamp == cur_time as i64 && on_core {
                    let growth: u64 = match find_first_prior(&db.proc_stats, s.pid, last_time) {
                        Some(o) => {
                            if s.total_cpu >= o.total_cpu {
                                s.total_cpu - o.total_cpu
                            } else {
                                0
                            }
                        },
                        None => s.total_cpu,
                    };
                    proof {
                        assert(growth as int == contribution_ms(all[i as int], all, last_time));
                    }
                    if growth <= u64::MAX - used {
                        used = used + growth;
                    } else {
                        used = u64::MAX;
                    }
                }
                i += 1;
            }
            proof {
                assert(all.take(all.len() as int) =~= all);
            }
            Utilization { used_ms: used, elapsed_s: ((cur_time as i64) - last_time) as u64 }
        } else {
            Utilization::zero()
        };
        proof {
            assert(usage == usage_for_core(
                old(db).proc_stats@,
                core as u32,
                cur_time as i64,
                last_time,
            ));
        }
        let stat = CpuStat { cpu_core: core as u32, timestamp: cur_time as i64, usage };
        db.cpu_stats.push(stat);
        core += 1;
    }
}

} // verus!
