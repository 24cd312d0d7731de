//! Row types for the persisted tables.
//!
//! Each metric family persists a metadata table keyed by the entity's
//! identity and a time-series table keyed by (identity, timestamp). CPU time
//! is carried as whole milliseconds and per-core utilization as an exact
//! fraction, so that every figure in the store is an integer.

use vstd::prelude::*;

verus! {

/// Mathematical view of a [`Process`] row.
pub ghost struct ProcessView {
    pub pid: u32,
    pub exec_name: Seq<char>,
    pub start_time: i64,
    pub is_alive: bool,
    pub init_total_cpu: u64,
}

/// One row of the process-metadata table. The logical identity of a process
/// is the pair (pid, start_time): a reused pid with another start time is a
/// different process.
#[derive(Debug)]
pub struct Process {
    /// The PID of the process.
    pub pid: u32,
    /// The name of the executable.
    pub exec_name: String,
    /// Process start time as a Unix epoch timestamp.
    pub start_time: i64,
    /// Whether or not the process is alive.
    pub is_alive: bool,
    /// CPU time in milliseconds the process had when first encountered.
    pub init_total_cpu: u64,
}

impl View for Process {
    type V = ProcessView;

    open spec fn view(&self) -> ProcessView {
        ProcessView {
            pid: self.pid,
            exec_name: self.exec_name@,
            start_time: self.start_time,
            is_alive: self.is_alive,
            init_total_cpu: self.init_total_cpu,
        }
    }
}

impl DeepView for Process {
    type V = ProcessView;

    open spec fn deep_view(&self) -> ProcessView {
        self@
    }
}

impl Clone for Process {
    fn clone(&self) -> (r: Self)
        ensures
            r@ == self@,
    {
        Process {
            pid: self.pid,
            exec_name: self.exec_name.clone(),
            start_time: self.start_time,
            is_alive: self.is_alive,
            init_total_cpu: self.init_total_cpu,
        }
    }
}

/// One row of the CPU-core table, rebuilt in full from the live topology.
#[derive(Debug, Clone, Copy, PartialEq, Eq, Structural)]
pub struct Cpu {
    /// The core number for the CPU.
    pub cpu_core: u32,
    /// The speed of the processor in MHz.
    pub mhz: u32,
    /// Amount of cache in KB.
    pub total_cache: u32,
}

/// One row of the per-process time series: a sample of one live process at
/// one tick.
#[derive(Debug, Clone, Copy)]
pub struct ProcStat {
    /// PID of the process.
    pub pid: u32,
    /// Unix epoch timestamp at which the entry was recorded.
    pub timestamp: i64,
    /// Total CPU time for the process in milliseconds.
    pub total_cpu: u64,
    /// CPU core the process was last scheduled on, if any.
    pub cpu_core: Option<u32>,
    /// Amount of virtual memory for the process in KB.
    pub virtual_memory: u32,
    /// Amount of space the process actively has in memory in KB.
    pub resident_memory: u32,
    /// Amount of memory the process shares with other processes in KB.
    pub shared_memory: u32,
}

/// Per-core utilization over one sampling interval, kept as the exact
/// fraction `used_ms / (elapsed_s * 1000)`. A zero interval is recorded as
/// the zero fraction.
#[derive(Debug, Clone, Copy, PartialEq, Eq, Structural)]
pub struct Utilization {
    /// CPU time accumulated on the core during the interval, in milliseconds.
    pub used_ms: u64,
    /// Length of the interval in seconds.
    pub elapsed_s: u64,
}

impl Utilization {
    /// The zero fraction: what a core records when there is no prior sample
    /// to difference against.
    pub open spec fn spec_zero() -> Utilization {
        Utilization { used_ms: 0, elapsed_s: 0 }
    }

    /// Constructs the zero fraction.
    pub fn zero() -> (r: Utilization)
        ensures
            r == Utilization::spec_zero(),
    {
        Utilization { used_ms: 0, elapsed_s: 0 }
    }

    /// The utilization in thousandths (milliseconds of CPU time per second of
    /// wall time); zero when the interval is empty.
    pub fn permille(&self) -> (r: u64)
        ensures
            r == self.spec_permille(),
    {
        if self.elapsed_s == 0 {
            0
        } else {
            self.used_ms / self.elapsed_s
        }
    }

    /// See [`Utilization::permille`].
    pub open spec fn spec_permille(&self) -> u64 {
        if self.elapsed_s == 0 {
            0
        } else {
            (self.used_ms / self.elapsed_s) as u64
        }
    }
}

/// One row of the per-core time series.
#[derive(Debug, Clone, Copy, PartialEq, Eq, Structural)]
pub struct CpuStat {
    /// Id of the CPU core.
    pub cpu_core: u32,
    /// Unix epoch timestamp at which the entry was recorded.
    pub timestamp: i64,
    /// Fraction of the interval the core was in use.
    pub usage: Utilization,
}

/// One row of the memory table; append-only, nothing to reconcile.
#[derive(Debug, Clone, Copy, PartialEq, Eq, Structural)]
pub struct Memory {
    /// Unix epoch timestamp at which the entry was recorded.
    pub timestamp: i64,
    /// Total amount of memory in KB.
    pub total: u32,
    /// Amount of memory that is free in KB.
    pub free: u32,
    /// Total amount of swap space in KB.
    pub swap_total: u32,
    /// Amount of swap space that is free in KB.
    pub swap_free: u32,
}

/// Mathematical view of a [`Disk`] row.
pub ghost struct DiskView {
    pub device_name: Seq<char>,
    pub mount: Seq<char>,
    pub fs_type: Seq<char>,
}

/// One row of the disk-device table, keyed by device name.
#[derive(Debug)]
pub struct Disk {
    /// Name of the device.
    pub device_name: String,
    /// Folder the device is mounted to.
    pub mount: String,
    /// Type of file system used by the disk.
    pub fs_type: String,
}

impl View for Disk {
    type V = DiskView;

    open spec fn view(&self) -> DiskView {
        DiskView { device_name: self.device_name@, mount: self.mount@, fs_type: self.fs_type@ }
    }
}

impl DeepView for Disk {
    type V = DiskView;

    open spec fn deep_view(&self) -> DiskView {
        self@
    }
}

impl Clone for Disk {
    fn clone(&self) -> (r: Self)
        ensures
            r@ == self@,
    {
        Disk {
            device_name: self.device_name.clone(),
            mount: self.mount.clone(),
            fs_type: self.fs_type.clone(),
        }
    }
}

/// Mathematical view of a [`DiskStat`] row.
pub ghost struct DiskStatView {
    pub device_name: Seq<char>,
    pub timestamp: i64,
    pub used: u32,
    pub available: u32,
}

/// One row of the per-device disk time series.
#[derive(Debug)]
pub struct DiskStat {
    /// Name of the device.
    pub device_name: String,
    /// Unix epoch timestamp at which the entry was recorded.
    pub timestamp: i64,
    /// Amount of disk space used in MB.
    pub used: u32,
    /// Amount of disk space available in MB.
    pub available: u32,
}

impl View for DiskStat {
    type V = DiskStatView;

    open spec fn view(&self) -> DiskStatView {
        DiskStatView {
            device_name: self.device_name@,
            timestamp: self.timestamp,
            used: self.used,
            available: self.available,
        }
    }
}

impl DeepView for DiskStat {
    type V = DiskStatView;

    open spec fn deep_view(&self) -> DiskStatView {
        self@
    }
}

impl Clone for DiskStat {
    fn clone(&self) -> (r: Self)
        ensures
            r@ == self@,
    {
        DiskStat {
            device_name: self.device_name.clone(),
            timestamp: self.timestamp,
            used: self.used,
            available: self.available,
        }
    }
}

/// Mathematical view of a [`NetworkInterface`] row.
pub ghost struct NetworkInterfaceView {
    pub name: Seq<char>,
    pub ip_addr: Option<Seq<char>>,
}

/// One row of the network-interface table, keyed by interface name.
#[derive(Debug)]
pub struct NetworkInterface {
    /// Logical name of the interface.
    pub name: String,
    /// Last known IP address of the interface.
    pub ip_addr: Option<String>,
}

impl View for NetworkInterface {
    type V = NetworkInterfaceView;

    open spec fn view(&self) -> NetworkInterfaceView {
        NetworkInterfaceView {
            name: self.name@,
            ip_addr: match self.ip_addr {
                Some(ip) => Some(ip@),
                None => None,
            },
        }
    }
}

impl DeepView for NetworkInterface {
    type V = NetworkInterfaceView;

    open spec fn deep_view(&self) -> NetworkInterfaceView {
        self@
    }
}

impl Clone for NetworkInterface {
    fn clone(&self) -> (r: Self)
        ensures
            r@ == self@,
    {
        NetworkInterface {
            name: self.name.clone(),
            ip_addr: match &self.ip_addr {
                Some(ip) => Some(ip.clone()),
                None => None,
            },
        }
    }
}

/// Mathematical view of a [`NetworkStat`] row.
pub ghost struct NetworkStatView {
    pub name: Seq<char>,
    pub timestamp: i64,
    pub delta_bytes_recv: u32,
    pub delta_bytes_sent: u32,
    pub delta_packets_recv: u32,
    pub delta_packets_sent: u32,
    pub delta_err_recv: u32,
    pub delta_err_sent: u32,
}

/// One row of the per-interface network time series. Every figure is a delta
/// since the previous OS-level read, as the metrics source reports it; byte
/// counts are scaled down to KB.
#[derive(Debug)]
pub struct NetworkStat {
    /// Logical name of the interface.
    pub name: String,
    /// Unix epoch timestamp at which the entry was recorded.
    pub timestamp: i64,
    /// Change in total KB received since the last record.
    pub delta_bytes_recv: u32,
    /// Change in total KB sent since the last record.
    pub delta_bytes_sent: u32,
    /// Change in total packets received since the last record.
    pub delta_packets_recv: u32,
    /// Change in total packets sent since the last record.
    pub delta_packets_sent: u32,
    /// Change in receive errors since the last record.
    pub delta_err_recv: u32,
    /// Change in send errors since the last record.
    pub delta_err_sent: u32,
}

impl View for NetworkStat {
    type V = NetworkStatView;

    open spec fn view(&self) -> NetworkStatView {
        NetworkStatView {
            name: self.name@,
            timestamp: self.timestamp,
            delta_bytes_recv: self.delta_bytes_recv,
            delta_bytes_sent: self.delta_bytes_sent,
            delta_packets_recv: self.delta_packets_recv,
            delta_packets_sent: self.delta_packets_sent,
            delta_err_recv: self.delta_err_recv,
            delta_err_sent: self.delta_err_sent,
        }
    }
}

impl DeepView for NetworkStat {
    type V = NetworkStatView;

    open spec fn deep_view(&self) -> NetworkStatView {
        self@
    }
}

impl Clone for NetworkStat {
    fn clone(&self) -> (r: Self)
        ensures
            r@ == self@,
    {
        NetworkStat {
            name: self.name.clone(),
            timestamp: self.timestamp,
            delta_bytes_recv: self.delta_bytes_recv,
            delta_bytes_sent: self.delta_bytes_sent,
            delta_packets_recv: self.delta_packets_recv,
            delta_packets_sent: self.delta_packets_sent,
            delta_err_recv: self.delta_err_recv,
            delta_err_sent: self.delta_err_sent,
        }
    }
}

} // verus!
