//! The agent's core: one-time initialization, the per-tick update pass, and
//! bounded-retention pruning, all over the shared persisted state.
//!
//! The shell owns a single `Monitor`, schedules `update` on a short interval
//! and `prune_db` on a long one under mutual exclusion, and mirrors every
//! transformation onto the real store.

use vstd::prelude::*;

use crate::cpu;
use crate::database::{procs_sorted, Database};
use crate::disk;
use crate::memory;
use crate::network;
use crate::process;
use crate::process::infos;
use crate::seq_util::{keep, lemma_keep_properties, lemma_keep_push};
use crate::snapshot::LiveSnapshot;
use crate::tables::{CpuStat, DiskStat, DiskStatView, Memory, NetworkStat, NetworkStatView,
    ProcStat, Process, ProcessView};

verus! {

/// How long a time-series row is kept, in seconds: three hours.
pub const RETENTION_HORIZON_S: u64 = 10800;

/// Whether some sample row carries this pid.
pub open spec fn stats_have_pid(stats: Seq<ProcStat>, pid: u32) -> bool {
    exists|i: int| 0 <= i < stats.len() && (#[trigger] stats[i]).pid == pid
}

/// Filtering a pid-sorted table leaves it sorted.
pub proof fn lemma_keep_procs_sorted(s: Seq<ProcessView>, pred: spec_fn(ProcessView) -> bool)
    requires
        procs_sorted(s),
    ensures
        procs_sorted(keep(s, pred)),
    decreases s.len(),
{
    if s.len() > 0 {
        let sd = s.drop_last();
        assert(forall|i: int| 0 <= i < sd.len() ==> (#[trigger] sd[i]) == s[i]);
        lemma_keep_procs_sorted(sd, pred);
        if pred(s.last()) {
            lemma_keep_properties(sd, pred);
            let out = keep(s, pred);
            let kd = keep(sd, pred);
            assert(out == kd.push(s.last()));
            assert forall|a: int, b: int| 0 <= a < b < out.len() implies (#[trigger] out[a]).pid < (
            #[trigger] out[b]).pid by {
                if b == out.len() - 1 {
                    assert(out[a] == kd[a]);
                    assert(sd.contains(kd[a]));
                    let t = choose|t: int| 0 <= t < sd.len() && sd[t] == kd[a];
                    assert(s[t] == kd[a]);
                    assert(s[t].pid < s[s.len() - 1].pid);
                } else {
                    assert(out[a] == kd[a] && out[b] == kd[b]);
                }
            }
        }
    }
}

/// The shared agent: the persisted state and the passes over it.
pub struct Monitor {
    /// The persisted state the reconcilers converge with the live one.
    pub db: Database,
}

impl Monitor {
    /// The store's key constraints, carried through every pass.
    pub open spec fn wf(&self) -> bool {
        self.db.wf()
    }

    /// Wraps an existing store state.
    pub fn new(db: Database) -> (m: Monitor)
        requires
            db.wf(),
        ensures
            m.db == db,
            m.wf(),
    {
        Monitor { db }
    }

    /// One-time full reconciliation at agent start: CPU topology, disks,
    /// processes, then network interfaces, each as its reconciler states.
    /// Memory is untouched (it is append-only and has no identity to diff).
    pub fn setup_init_data(&mut self, snap: &LiveSnapshot)
        requires
            old(self).wf(),
            procs_sorted(infos(snap.processes.deep_view())),
            forall|i: int|
                0 <= i < snap.cpus@.len() ==> (#[trigger] snap.cpus@[i]).cpu_core == i as u32,
        ensures
            final(self).wf(),
            final(self).db.cpus@ == snap.cpus@,
            final(self).db.cpu_stats@ == keep(
                old(self).db.cpu_stats@,
                cpu::core_below(snap.cpus@.len() as int),
            ),
            final(self).db.processes.deep_view() == process::merge_procs(
                infos(snap.processes.deep_view()),
                old(self).db.processes.deep_view(),
            ),
            final(self).db.proc_stats@ == keep(
                cpu::null_high_cores(old(self).db.proc_stats@, snap.cpus@.len() as int),
                |s: ProcStat|
                    !process::replaced_pid(
                        infos(snap.processes.deep_view()),
                        old(self).db.processes.deep_view(),
                        s.pid,
                    ),
            ),
            final(self).db.disks.deep_view() == keep(
                disk::upsert_disks(old(self).db.disks.deep_view(), snap.disks.deep_view()),
                |d: crate::tables::DiskView| disk::live_has_disk(snap.disks.deep_view(), d.device_name),
            ),
            final(self).db.disk_stats.deep_view() == keep(
                old(self).db.disk_stats.deep_view(),
                |st: crate::tables::DiskStatView|
                    disk::live_has_disk(snap.disks.deep_view(), st.device_name),
            ),
            final(self).db.interfaces.deep_view() == keep(
                network::upsert_ifaces(
                    old(self).db.interfaces.deep_view(),
                    snap.interfaces.deep_view(),
                    snap.arp.deep_view(),
                ),
                |q: crate::tables::NetworkInterfaceView|
                    network::live_has_iface(snap.interfaces.deep_view(), q.name),
            ),
            final(self).db.network_stats.deep_view() == keep(
                old(self).db.network_stats.deep_view(),
                |st: crate::tables::NetworkStatView|
                    network::live_has_iface(snap.interfaces.deep_view(), st.name),
            ),
            final(self).db.memory == old(self).db.memory,
    {
        cpu::init_cpu_data(&mut self.db, &snap.cpus);
        disk::init_disk_data(&mut self.db, &snap.disks);

        // The process reconciler takes the metadata rows of the snapshot.
        let ghost live_dv = snap.processes.deep_view();
        let mut live_procs: Vec<Process> = Vec::new();
        let mut i: usize = 0;
        while i < snap.processes.len()
            invariant
                i <= snap.processes@.len(),
                live_dv == snap.processes.deep_view(),
                live_dv.len() == snap.processes@.len(),
                live_procs.deep_view() =~= infos(live_dv).take(i as int),
            decreases snap.processes@.len() - i,
        {
            proof {
                assert(live_dv[i as int] == snap.processes@[i as int]@);
                assert(infos(live_dv)[i as int] == live_dv[i as int].info);
            }
            let ghost lp0 = live_procs.deep_view();
            live_procs.push(snap.processes[i].info.clone());
            proof {
                assert(live_procs.deep_view() =~= lp0.push(live_dv[i as int].info));
                assert(live_procs.deep_view() =~= infos(live_dv).take(i as int + 1));
            }
            i += 1;
        }
        proof {
            assert(live_procs.deep_view() =~= infos(live_dv));
        }
        process::init_process_data(&mut self.db, &live_procs);

        network::init_network_data(&mut self.db, &snap.interfaces, &snap.arp);
    }

    /// One steady-state tick: processes, CPU usage, memory, disks, network,
    /// in that order, each as its reconciler states. The per-core usage is
    /// aggregated from the process samples as they stand after the process
    /// pass — that is, including the samples this very tick appended.
    pub fn update(&mut self, cur_time: u64, snap: &LiveSnapshot)
        requires
            old(self).wf(),
            cur_time <= i64::MAX as u64,
            old(self).db.cpus@.len() <= u32::MAX as usize,
            forall|i: int, j: int|
                0 <= i < j < snap.processes.deep_view().len() ==> (#[trigger] snap.processes.deep_view()[i]).info.pid
                    != (#[trigger] snap.processes.deep_view()[j]).info.pid,
            forall|i: int, j: int|
                0 <= i < j < snap.interfaces.deep_view().len() ==> (#[trigger] snap.interfaces.deep_view()[i]).name
                    != (#[trigger] snap.interfaces.deep_view()[j]).name,
        ensures
            final(self).wf(),
            final(self).db.processes.deep_view() == process::refresh_liveness(
                process::apply_live(
                    old(self).db.processes.deep_view(),
                    old(self).db.processes.deep_view(),
                    infos(snap.processes.deep_view()),
                ),
                infos(snap.processes.deep_view()),
            ),
            final(self).db.proc_stats@ == keep(
                old(self).db.proc_stats@,
                |s: ProcStat|
                    !process::replaced_pid(
                        infos(snap.processes.deep_view()),
                        old(self).db.processes.deep_view(),
                        s.pid,
                    ),
            ) + process::samples_of(snap.processes.deep_view(), cur_time),
            final(self).db.cpus == old(self).db.cpus,
            final(self).db.cpu_stats@.len() == old(self).db.cpu_stats@.len() + old(
                self,
            ).db.cpus@.len(),
            forall|k: int|
                0 <= k < old(self).db.cpu_stats@.len() ==> #[trigger] final(self).db.cpu_stats@[k]
                    == old(self).db.cpu_stats@[k],
            forall|c: int|
                0 <= c < old(self).db.cpus@.len()
                    ==> #[trigger] final(self).db.cpu_stats@[old(self).db.cpu_stats@.len() + c]
                    == (CpuStat {
                    cpu_core: c as u32,
                    timestamp: cur_time as i64,
                    usage: cpu::usage_for_core(
                        final(self).db.proc_stats@,
                        c as u32,
                        cur_time as i64,
                        cpu::last_sample_time(old(self).db.cpu_stats@, cur_time as i64),
                    ),
                }),
            final(self).db.memory@ == old(self).db.memory@.push(
                Memory {
                    timestamp: cur_time as i64,
                    total: memory::kb_of(snap.memory.total),
                    free: memory::kb_of(snap.memory.available),
                    swap_total: memory::kb_of(snap.memory.swap_total),
                    swap_free: memory::kb_of(snap.memory.swap_free),
                },
            ),
            final(self).db.disks.deep_view() == keep(
                disk::upsert_disks(old(self).db.disks.deep_view(), snap.disks.deep_view()),
                |d: crate::tables::DiskView| disk::live_has_disk(snap.disks.deep_view(), d.device_name),
            ),
            final(self).db.disk_stats.deep_view() == keep(
                old(self).db.disk_stats.deep_view(),
                |st: crate::tables::DiskStatView|
                    disk::live_has_disk(snap.disks.deep_view(), st.device_name),
            ) + disk::disk_stats_of(snap.disks.deep_view(), cur_time),
            final(self).db.interfaces.deep_view() == keep(
                network::apply_ifaces(
                    old(self).db.interfaces.deep_view(),
                    old(self).db.interfaces.deep_view(),
                    snap.interfaces.deep_view(),
                    snap.arp.deep_view(),
                ),
                |q: crate::tables::NetworkInterfaceView|
                    network::live_has_iface(snap.interfaces.deep_view(), q.name),
            ),
            final(self).db.network_stats.deep_view() == keep(
                old(self).db.network_stats.deep_view(),
                |st: crate::tables::NetworkStatView|
                    network::live_has_iface(snap.interfaces.deep_view(), st.name),
            ) + network::net_stats_of(snap.interfaces.deep_view(), cur_time),
    {
        process::update_process_data(&mut self.db, cur_time, &snap.processes);
        cpu::update_cpu_data(&mut self.db, cur_time);
        memory::update_memory_data(&mut self.db, cur_time, &snap.memory);
        disk::update_disk_data(&mut self.db, cur_time, &snap.disks);
        network::update_network_interface_data(
            &mut self.db,
            cur_time,
            &snap.interfaces,
            &snap.arp,
        );
    }

    /// Retention pruning: every time-series row older than the horizon is
    /// deleted, and afterwards every process record whose pid has no sample
    /// left is deleted too — samples always go before their parent rows.
    pub fn prune_db(&mut self, cur_time: u64)
        requires
            old(self).wf(),
            RETENTION_HORIZON_S <= cur_time <= i64::MAX as u64,
        ensures
            final(self).wf(),
            final(self).db.proc_stats@ == keep(
                old(self).db.proc_stats@,
                |s: ProcStat| s.timestamp >= (cur_time - RETENTION_HORIZON_S) as i64,
            ),
            final(self).db.processes.deep_view() == keep(
                old(self).db.processes.deep_view(),
                |p: ProcessView| stats_have_pid(final(self).db.proc_stats@, p.pid),
            ),
            final(self).db.cpu_stats@ == keep(
                old(self).db.cpu_stats@,
                |s: CpuStat| s.timestamp >= (cur_time - RETENTION_HORIZON_S) as i64,
            ),
            final(self).db.memory@ == keep(
                old(self).db.memory@,
                |m: Memory| m.timestamp >= (cur_time - RETENTION_HORIZON_S) as i64,
            ),
            final(self).db.disk_stats.deep_view() == keep(
                old(self).db.disk_stats.deep_view(),
                |s: DiskStatView| s.timestamp >= (cur_time - RETENTION_HORIZON_S) as i64,
            ),
            final(self).db.network_stats.deep_view() == keep(
                old(self).db.network_stats.deep_view(),
                |s: NetworkStatView| s.timestamp >= (cur_time - RETENTION_HORIZON_S) as i64,
            ),
            // Retention: no time-series row is older than the horizon, and no
            // process record outlives its last sample.
            forall|k: int|
                0 <= k < final(self).db.proc_stats@.len() ==> (#[trigger] final(self).db.proc_stats@[k]).timestamp >= (cur_time - RETENTION_HORIZON_S) as i64,
            forall|k: int|
                0 <= k < final(self).db.cpu_stats@.len() ==> (#[trigger] final(self).db.cpu_stats@[k]).timestamp >= (cur_time - RETENTION_HORIZON_S) as i64,
            forall|k: int|
                0 <= k < final(self).db.memory@.len() ==> (#[trigger] final(self).db.memory@[k]).timestamp >= (cur_time - RETENTION_HORIZON_S) as i64,
            forall|k: int|
                0 <= k < final(self).db.disk_stats.deep_view().len() ==> (#[trigger] final(self).db.disk_stats.deep_view()[k]).timestamp >= (cur_time - RETENTION_HORIZON_S) as i64,
            forall|k: int|
                0 <= k < final(self).db.network_stats.deep_view().len() ==> (#[trigger] final(self).db.network_stats.deep_view()[k]).timestamp >= (cur_time - RETENTION_HORIZON_S) as i64,
            forall|k: int|
                0 <= k < final(self).db.processes.deep_view().len() ==> stats_have_pid(
                    final(self).db.proc_stats@,
                    (#[trigger] final(self).db.processes.deep_view()[k]).pid,
                ),
            final(self).db.cpus == old(self).db.cpus,
            final(self).db.disks == old(self).db.disks,
            final(self).db.interfaces == old(self).db.interfaces,
    {
        let cutoff: i64 = (cur_time - RETENTION_HORIZON_S) as i64;

        // Process samples first.
        let ghost ps_pred = |s: ProcStat| s.timestamp >= (cur_time - RETENTION_HORIZON_S) as i64;
        let mut kept_ps: Vec<ProcStat> = Vec::new();
        let mut i: usize = 0;
        proof {
            assert(self.db.proc_stats@.take(0) =~= Seq::<ProcStat>::empty());
        }
        while i < self.db.proc_stats.len()
            invariant
                i <= self.db.proc_stats@.len(),
                self.db.proc_stats@ == old(self).db.proc_stats@,
                cutoff == (cur_time - RETENTION_HORIZON_S) as i64,
                ps_pred == (|s: ProcStat| s.timestamp >= (cur_time - RETENTION_HORIZON_S) as i64),
                kept_ps@ =~= keep(self.db.proc_stats@.take(i as int), ps_pred),
            decreases self.db.proc_stats@.len() - i,
        {
            let s = self.db.proc_stats[i];
            proof {
                assert(self.db.proc_stats@.take(i as int + 1) =~= self.db.proc_stats@.take(
                    i as int,
                ).push(s));
                lemma_keep_push(self.db.proc_stats@.take(i as int), ps_pred, s);
            }
            if s.timestamp >= cutoff {
                kept_ps.push(s);
            }
            i += 1;
        }
        proof {
            assert(self.db.proc_stats@.take(self.db.proc_stats@.len() as int)
                =~= self.db.proc_stats@);
            lemma_keep_properties(old(self).db.proc_stats@, ps_pred);
        }
        self.db.proc_stats = kept_ps;

        // Then the process records whose pid has no sample left.
        let ghost new_stats = self.db.proc_stats@;
        let ghost gc_pred = |p: ProcessView| stats_have_pid(new_stats, p.pid);
        let mut kept_procs: Vec<Process> = Vec::new();
        let mut i: usize = 0;
        proof {
            assert(self.db.processes.deep_view().take(0) =~= Seq::<ProcessView>::empty());
        }
        while i < self.db.processes.len()
            invariant
                i <= self.db.processes@.len(),
                self.db.processes@ == old(self).db.processes@,
                self.db.processes.deep_view().len() == self.db.processes@.len(),
                new_stats == self.db.proc_stats@,
                gc_pred == (|p: ProcessView| stats_have_pid(new_stats, p.pid)),
                kept_procs.deep_view() =~= keep(
                    self.db.processes.deep_view().take(i as int),
                    gc_pred,
                ),
            decreases self.db.processes@.len() - i,
        {
            let ghost taken = self.db.processes.deep_view().take(i as int);
            proof {
                assert(self.db.processes.deep_view()[i as int] == self.db.processes@[i as int]@);
                assert(self.db.processes.deep_view().take(i as int + 1) =~= taken.push(
                    self.db.processes.deep_view()[i as int],
                ));
                lemma_keep_push(taken, gc_pred, self.db.processes.deep_view()[i as int]);
            }
            let ghost kept0 = kept_procs.deep_view();
            if proc_stats_have_pid(&self.db.proc_stats, self.db.processes[i].pid) {
                kept_procs.push(self.db.processes[i].clone());
                proof {
                    assert(kept_procs.deep_view() =~= kept0.push(
                        self.db.processes.deep_view()[i as int],
                    ));
                }
            }
            i += 1;
        }
        proof {
            assert(self.db.processes.deep_view().take(self.db.processes@.len() as int)
                =~= self.db.processes.deep_view());
            lemma_keep_properties(old(self).db.processes.deep_view(), gc_pred);
            lemma_keep_procs_sorted(old(self).db.processes.deep_view(), gc_pred);
        }
        self.db.processes = kept_procs;

        // The remaining time-series tables.
        let ghost cs_pred = |s: CpuStat| s.timestamp >= (cur_time - RETENTION_HORIZON_S) as i64;
        let mut kept_cs: Vec<CpuStat> = Vec::new();
        let mut i: usize = 0;
        proof {
            assert(self.db.cpu_stats@.take(0) =~= Seq::<CpuStat>::empty());
        }
        while i < self.db.cpu_stats.len()
            invariant
                i <= self.db.cpu_stats@.len(),
                self.db.cpu_stats@ == old(self).db.cpu_stats@,
                cutoff == (cur_time - RETENTION_HORIZON_S) as i64,
                cs_pred == (|s: CpuStat| s.timestamp >= (cur_time - RETENTION_HORIZON_S) as i64),
                kept_cs@ =~= keep(self.db.cpu_stats@.take(i as int), cs_pred),
            decreases self.db.cpu_stats@.len() - i,
        {
            let s = self.db.cpu_stats[i];
            proof {
                assert(self.db.cpu_stats@.take(i as int + 1) =~= self.db.cpu_stats@.take(
                    i as int,
                ).push(s));
                lemma_keep_push(self.db.cpu_stats@.take(i as int), cs_pred, s);
            }
            if s.timestamp >= cutoff {
                kept_cs.push(s);
            }
            i += 1;
        }
        proof {
            assert(self.db.cpu_stats@.take(self.db.cpu_stats@.len() as int) =~= self.db.cpu_stats@);
            lemma_keep_properties(old(self).db.cpu_stats@, cs_pred);
        }
        self.db.cpu_stats = kept_cs;

        let ghost mem_pred = |m: Memory| m.timestamp >= (cur_time - RETENTION_HORIZON_S) as i64;
        let mut kept_mem: Vec<Memory> = Vec::new();
        let mut i: usize = 0;
        proof {
            assert(self.db.memory@.take(0) =~= Seq::<Memory>::empty());
        }
        while i < self.db.memory.len()
            invariant
                i <= self.db.memory@.len(),
                self.db.memory@ == old(self).db.memory@,
                cutoff == (cur_time - RETENTION_HORIZON_S) as i64,
                mem_pred == (|m: Memory| m.timestamp >= (cur_time - RETENTION_HORIZON_S) as i64),
                kept_mem@ =~= keep(self.db.memory@.take(i as int), mem_pred),
            decreases self.db.memory@.len() - i,
        {
            let m = self.db.memory[i];
            proof {
                assert(self.db.memory@.take(i as int + 1) =~= self.db.memory@.take(i as int).push(
                    m,
                ));
                lemma_keep_push(self.db.memory@.take(i as int), mem_pred, m);
            }
            if m.timestamp >= cutoff {
                kept_mem.push(m);
            }
            i += 1;
        }
        proof {
            assert(self.db.memory@.take(self.db.memory@.len() as int) =~= self.db.memory@);
            lemma_keep_properties(old(self).db.memory@, mem_pred);
        }
        self.db.memory = kept_mem;

        let ghost ds_pred = |s: DiskStatView| s.timestamp >= (cur_time - RETENTION_HORIZON_S) as i64;
        let mut kept_ds: Vec<DiskStat> = Vec::new();
        let mut i: usize = 0;
        proof {
            assert(self.db.disk_stats.deep_view().take(0) =~= Seq::<DiskStatView>::empty());
        }
        while i < self.db.disk_stats.len()
            invariant
                i <= self.db.disk_stats@.len(),
                self.db.disk_stats@ == old(self).db.disk_stats@,
                self.db.disk_stats.deep_view().len() == self.db.disk_stats@.len(),
                cutoff == (cur_time - RETENTION_HORIZON_S) as i64,
                ds_pred == (|s: DiskStatView| s.timestamp >= (cur_time - RETENTION_HORIZON_S) as i64),
                kept_ds.deep_view() =~= keep(self.db.disk_stats.deep_view().take(i as int), ds_pred),
            decreases self.db.disk_stats@.len() - i,
        {
            let ghost taken = self.db.disk_stats.deep_view().take(i as int);
            proof {
                assert(self.db.disk_stats.deep_view()[i as int] == self.db.disk_stats@[i as int]@);
                assert(self.db.disk_stats.deep_view().take(i as int + 1) =~= taken.push(
                    self.db.disk_stats.deep_view()[i as int],
                ));
                lemma_keep_push(taken, ds_pred, self.db.disk_stats.deep_view()[i as int]);
            }
            let ghost kept0 = kept_ds.deep_view();
            if self.db.disk_stats[i].timestamp >= cutoff {
                kept_ds.push(self.db.disk_stats[i].clone());
                proof {
                    assert(kept_ds.deep_view() =~= kept0.push(
                        self.db.disk_stats.deep_view()[i as int],
                    ));
                }
            }
            i += 1;
        }
        proof {
            assert(self.db.disk_stats.deep_view().take(self.db.disk_stats@.len() as int)
                =~= self.db.disk_stats.deep_view());
            lemma_keep_properties(old(self).db.disk_stats.deep_view(), ds_pred);
        }
        self.db.disk_stats = kept_ds;

        let ghost ns_pred = |s: NetworkStatView| s.timestamp >= (cur_time - RETENTION_HORIZON_S) as i64;
        let mut kept_ns: Vec<NetworkStat> = Vec::new();
        let mut i: usize = 0;
        proof {
            assert(self.db.network_stats.deep_view().take(0) =~= Seq::<NetworkStatView>::empty());
        }
        while i < self.db.network_stats.len()
            invariant
                i <= self.db.network_stats@.len(),
                self.db.network_stats@ == old(self).db.network_stats@,
                self.db.network_stats.deep_view().len() == self.db.network_stats@.len(),
                cutoff == (cur_time - RETENTION_HORIZON_S) as i64,
                ns_pred == (|s: NetworkStatView| s.timestamp >= (cur_time - RETENTION_HORIZON_S) as i64),
                kept_ns.deep_view() =~= keep(self.db.network_stats.deep_view().take(i as int), ns_pred),
            decreases self.db.network_stats@.len() - i,
        {
            let ghost taken = self.db.network_stats.deep_view().take(i as int);
            proof {
                assert(self.db.network_stats.deep_view()[i as int] == self.db.network_stats@[i as int]@);
                assert(self.db.network_stats.deep_view().take(i as int + 1) =~= taken.push(
                    self.db.network_stats.deep_view()[i as int],
                ));
                lemma_keep_push(taken, ns_pred, self.db.network_stats.deep_view()[i as int]);
            }
            let ghost kept0 = kept_ns.deep_view();
            if self.db.network_stats[i].timestamp >= cutoff {
                kept_ns.push(self.db.network_stats[i].clone());
                proof {
                    assert(kept_ns.deep_view() =~= kept0.push(
                        self.db.network_stats.deep_view()[i as int],
                    ));
                }
            }
            i += 1;
        }
        proof {
            assert(self.db.network_stats.deep_view().take(self.db.network_stats@.len() as int)
                =~= self.db.network_stats.deep_view());
            lemma_keep_properties(old(self).db.network_stats.deep_view(), ns_pred);
        }
        self.db.network_stats = kept_ns;
    }
}

/// Whether some process sample carries this pid.
fn proc_stats_have_pid(stats: &Vec<ProcStat>, pid: u32) -> (r: bool)
    ensures
        r == stats_have_pid(stats@, pid),
{
    let mut i: usize = 0;
    while i < stats.len()
        invariant
            i <= stats@.len(),
            forall|k: int| 0 <= k < i ==> (#[trigger] stats@[k]).pid != pid,
        decreases stats@.len() - i,
    {
        if stats[i].pid == pid {
            return true;
        }
        i += 1;
    }
    false
}

} // verus!
