//! Live-snapshot inputs.
//!
//! The metrics source hands the reconcilers already-parsed values: one
//! element per live process, disk or interface, plus the memory totals and
//! the address-resolution table. The shell gathers these at each tick; the
//! reconcilers consume them as plain data.

use vstd::prelude::*;

use crate::tables::{Process, ProcessView};

verus! {

/// Mathematical view of a [`LiveProcess`].
pub ghost struct LiveProcessView {
    pub info: ProcessView,
    pub cpu_core: Option<u32>,
    pub virtual_memory: u32,
    pub resident_memory: u32,
    pub shared_memory: u32,
}

/// One live process as the metrics source reports it: its metadata row plus
/// the figures that go into its per-tick sample. `info.init_total_cpu`
/// carries the process's current cumulative CPU time in milliseconds.
#[derive(Debug)]
pub struct LiveProcess {
    /// The metadata of the process; `is_alive` is true in a live snapshot.
    pub info: Process,
    /// Core the process was last scheduled on, if the source reports one.
    pub cpu_core: Option<u32>,
    /// Virtual memory in KB.
    pub virtual_memory: u32,
    /// Resident memory in KB.
    pub resident_memory: u32,
    /// Shared memory in KB.
    pub shared_memory: u32,
}

impl View for LiveProcess {
    type V = LiveProcessView;

    open spec fn view(&self) -> LiveProcessView {
        LiveProcessView {
            info: self.info@,
            cpu_core: self.cpu_core,
            virtual_memory: self.virtual_memory,
            resident_memory: self.resident_memory,
            shared_memory: self.shared_memory,
        }
    }
}

impl DeepView for LiveProcess {
    type V = LiveProcessView;

    open spec fn deep_view(&self) -> LiveProcessView {
        self@
    }
}

/// Memory totals as the metrics source reports them, in bytes.
#[derive(Debug, Clone, Copy, PartialEq, Eq, Structural)]
pub struct MemValues {
    /// Total memory in bytes.
    pub total: u64,
    /// Available memory in bytes.
    pub available: u64,
    /// Total swap space in bytes.
    pub swap_total: u64,
    /// Free swap space in bytes.
    pub swap_free: u64,
}

/// Mathematical view of a [`LiveInterface`].
pub ghost struct LiveInterfaceView {
    pub name: Seq<char>,
    pub recv_bytes: u64,
    pub sent_bytes: u64,
    pub recv_packets: u64,
    pub sent_packets: u64,
    pub recv_errs: u64,
    pub sent_errs: u64,
}

/// One live network interface with its counter deltas since the previous
/// OS-level read.
#[derive(Debug)]
pub struct LiveInterface {
    /// Logical name of the interface.
    pub name: String,
    /// Bytes received since the last read.
    pub recv_bytes: u64,
    /// Bytes sent since the last read.
    pub sent_bytes: u64,
    /// Packets received since the last read.
    pub recv_packets: u64,
    /// Packets sent since the last read.
    pub sent_packets: u64,
    /// Receive errors since the last read.
    pub recv_errs: u64,
    /// Send errors since the last read.
    pub sent_errs: u64,
}

impl View for LiveInterface {
    type V = LiveInterfaceView;

    open spec fn view(&self) -> LiveInterfaceView {
        LiveInterfaceView {
            name: self.name@,
            recv_bytes: self.recv_bytes,
            sent_bytes: self.sent_bytes,
            recv_packets: self.recv_packets,
            sent_packets: self.sent_packets,
            recv_errs: self.recv_errs,
            sent_errs: self.sent_errs,
        }
    }
}

impl DeepView for LiveInterface {
    type V = LiveInterfaceView;

    open spec fn deep_view(&self) -> LiveInterfaceView {
        self@
    }
}

/// Everything one reconciliation pass reads from the metrics source.
#[derive(Debug)]
pub struct LiveSnapshot {
    /// The live process table.
    pub processes: Vec<LiveProcess>,
    /// The live CPU topology, one entry per core, indexed by core number.
    pub cpus: Vec<crate::tables::Cpu>,
    /// The live memory totals.
    pub memory: MemValues,
    /// The live disk enumeration.
    pub disks: Vec<crate::disk::DiskMetrics>,
    /// The live network interfaces with their counter deltas.
    pub interfaces: Vec<LiveInterface>,
    /// The address-resolution table.
    pub arp: Vec<ArpEntry>,
}

/// Mathematical view of an [`ArpEntry`].
pub ghost struct ArpEntryView {
    pub device: Seq<char>,
    pub ip_address: Seq<char>,
}

/// One row of the address-resolution table: which IP address answered on
/// which interface.
#[derive(Debug)]
pub struct ArpEntry {
    /// Name of the interface the entry belongs to.
    pub device: String,
    /// The resolved IP address, already rendered as text.
    pub ip_address: String,
}

impl View for ArpEntry {
    type V = ArpEntryView;

    open spec fn view(&self) -> ArpEntryView {
        ArpEntryView { device: self.device@, ip_address: self.ip_address@ }
    }
}

impl DeepView for ArpEntry {
    type V = ArpEntryView;

    open spec fn deep_view(&self) -> ArpEntryView {
        self@
    }
}

} // verus!
