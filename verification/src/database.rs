//! In-memory model of the persisted state: one `Vec` of rows per table.
//!
//! The reconcilers transform this state exactly as the store's statements
//! would; the unverified shell mirrors each transformation onto the real
//! store. Metadata tables are keyed: process rows are kept strictly sorted by
//! pid (the store returns them ordered by that key), and device and interface
//! names are unique.

use vstd::prelude::*;

use crate::tables::{Cpu, CpuStat, Disk, DiskStat, Memory, NetworkInterface, NetworkStat, Process,
    ProcStat};

verus! {

/// Strictly ascending pids: sorted and duplicate-free.
pub open spec fn procs_sorted(s: Seq<crate::tables::ProcessView>) -> bool {
    forall|i: int, j: int| 0 <= i < j < s.len() ==> s[i].pid < s[j].pid
}

/// No two disk rows share a device name.
pub open spec fn disk_names_unique(s: Seq<crate::tables::DiskView>) -> bool {
    forall|i: int, j: int| 0 <= i < j < s.len() ==> s[i].device_name != s[j].device_name
}

/// No two interface rows share a name.
pub open spec fn interface_names_unique(s: Seq<crate::tables::NetworkInterfaceView>) -> bool {
    forall|i: int, j: int| 0 <= i < j < s.len() ==> s[i].name != s[j].name
}

/// Every sample timestamp is non-negative (they are Unix epoch seconds).
pub open spec fn cpu_stat_timestamps_ok(s: Seq<CpuStat>) -> bool {
    forall|i: int| 0 <= i < s.len() ==> #[trigger] s[i].timestamp >= 0
}

/// The persisted state of the agent.
pub struct Database {
    /// Process metadata, strictly sorted by pid.
    pub processes: Vec<Process>,
    /// Per-process samples, append-only between prunes.
    pub proc_stats: Vec<ProcStat>,
    /// CPU cores, rebuilt in full from the live topology.
    pub cpus: Vec<Cpu>,
    /// Per-core samples.
    pub cpu_stats: Vec<CpuStat>,
    /// Memory samples.
    pub memory: Vec<Memory>,
    /// Disk devices, unique by name.
    pub disks: Vec<Disk>,
    /// Per-device samples.
    pub disk_stats: Vec<DiskStat>,
    /// Network interfaces, unique by name.
    pub interfaces: Vec<NetworkInterface>,
    /// Per-interface samples.
    pub network_stats: Vec<NetworkStat>,
}

impl Database {
    /// The key constraints the store enforces, as this model keeps them.
    pub open spec fn wf(&self) -> bool {
        &&& procs_sorted(self.processes.deep_view())
        &&& disk_names_unique(self.disks.deep_view())
        &&& interface_names_unique(self.interfaces.deep_view())
        &&& cpu_stat_timestamps_ok(self.cpu_stats@)
    }

    /// An empty store.
    pub fn new() -> (db: Database)
        ensures
            db.wf(),
            db.processes@.len() == 0,
            db.proc_stats@.len() == 0,
            db.cpus@.len() == 0,
            db.cpu_stats@.len() == 0,
            db.memory@.len() == 0,
            db.disks@.len() == 0,
            db.disk_stats@.len() == 0,
            db.interfaces@.len() == 0,
            db.network_stats@.len() == 0,
    {
        let db = Database {
            processes: Vec::new(),
            proc_stats: Vec::new(),
            cpus: Vec::new(),
            cpu_stats: Vec::new(),
            memory: Vec::new(),
            disks: Vec::new(),
            disk_stats: Vec::new(),
            interfaces: Vec::new(),
            network_stats: Vec::new(),
        };
        assert(db.processes.deep_view() =~= Seq::<crate::tables::ProcessView>::empty());
        assert(db.disks.deep_view() =~= Seq::<crate::tables::DiskView>::empty());
        assert(db.interfaces.deep_view() =~= Seq::<crate::tables::NetworkInterfaceView>::empty());
        db
    }
}

} // verus!
