use nebula::database::Database;
use nebula::memory::update_memory_data;
use nebula::monitor::{Monitor, RETENTION_HORIZON_S};
use nebula::snapshot::{ArpEntry, LiveInterface, LiveProcess, LiveSnapshot, MemValues};
use nebula::tables::{Cpu, CpuStat, DiskStat, Memory, NetworkStat, ProcStat, Process, Utilization};

fn proc_row(pid: u32, start_time: i64) -> Process {
    Process {
        pid,
        exec_name: format!("exe-{}", pid),
        start_time,
        is_alive: true,
        init_total_cpu: 0,
    }
}

fn stat_row(pid: u32, timestamp: i64) -> ProcStat {
    ProcStat {
        pid,
        timestamp,
        total_cpu: 0,
        cpu_core: None,
        virtual_memory: 0,
        resident_memory: 0,
        shared_memory: 0,
    }
}

/// Appending a memory sample converts the live byte totals to KB.
#[test]
fn test_update_memory_data() {
    let mut db = Database::new();
    let mem = MemValues {
        total: 16_000_000_000,
        available: 8_123_456_789,
        swap_total: 2_000_000_000,
        swap_free: 1_999_999_999,
    };
    update_memory_data(&mut db, 1700000000, &mem);

    assert_eq!(db.memory.len(), 1);
    let m = &db.memory[0];
    assert_eq!(m.timestamp, 1700000000);
    assert_eq!(m.total, 16_000_000);
    assert_eq!(m.free, 8_123_456);
    assert_eq!(m.swap_total, 2_000_000);
    assert_eq!(m.swap_free, 1_999_999);
}

/// Pruning with the fixed horizon: of two rows per table, one aged out and
/// one fresh, exactly the fresh one survives; a process record whose pid has
/// no sample left is deleted.
#[test]
fn mod_test_update_disk_data() {
    let now: u64 = 1_700_000_000;
    let old_ts: i64 = (now - RETENTION_HORIZON_S) as i64 - 1;
    let fresh_ts: i64 = (now - 10) as i64;

    let mut db = Database::new();
    db.processes.push(proc_row(1, 100));
    db.processes.push(proc_row(2, 200));
    db.proc_stats.push(stat_row(1, old_ts));
    db.proc_stats.push(stat_row(2, fresh_ts));
    db.cpu_stats.push(CpuStat { cpu_core: 0, timestamp: old_ts, usage: Utilization::zero() });
    db.cpu_stats.push(CpuStat { cpu_core: 0, timestamp: fresh_ts, usage: Utilization::zero() });
    db.memory.push(Memory { timestamp: old_ts, total: 1, free: 1, swap_total: 1, swap_free: 1 });
    db.memory.push(Memory { timestamp: fresh_ts, total: 2, free: 2, swap_total: 2, swap_free: 2 });
    db.disk_stats.push(DiskStat {
        device_name: "/dev/sda1".to_string(),
        timestamp: old_ts,
        used: 1,
        available: 1,
    });
    db.disk_stats.push(DiskStat {
        device_name: "/dev/sda1".to_string(),
        timestamp: fresh_ts,
        used: 2,
        available: 2,
    });
    db.network_stats.push(NetworkStat {
        name: "eth0".to_string(),
        timestamp: old_ts,
        delta_bytes_recv: 0,
        delta_bytes_sent: 0,
        delta_packets_recv: 0,
        delta_packets_sent: 0,
        delta_err_recv: 0,
        delta_err_sent: 0,
    });
    db.network_stats.push(NetworkStat {
        name: "eth0".to_string(),
        timestamp: fresh_ts,
        delta_bytes_recv: 0,
        delta_bytes_sent: 0,
        delta_packets_recv: 0,
        delta_packets_sent: 0,
        delta_err_recv: 0,
        delta_err_sent: 0,
    });

    let mut monitor = Monitor::new(db);
    monitor.prune_db(now);

    assert_eq!(monitor.db.processes.len(), 1);
    assert_eq!(monitor.db.processes[0].pid, 2);
    assert_eq!(monitor.db.proc_stats.len(), 1);
    assert_eq!(monitor.db.cpu_stats.len(), 1);
    assert_eq!(monitor.db.memory.len(), 1);
    assert_eq!(monitor.db.disk_stats.len(), 1);
    assert_eq!(monitor.db.network_stats.len(), 1);
    assert!(monitor.db.proc_stats[0].timestamp >= (now - RETENTION_HORIZON_S) as i64);
}

/// A row exactly at the horizon is kept: only strictly older rows go.
#[test]
fn test_prune_keeps_horizon_edge() {
    let now: u64 = 1_700_000_000;
    let edge_ts: i64 = (now - RETENTION_HORIZON_S) as i64;

    let mut db = Database::new();
    db.processes.push(proc_row(1, 100));
    db.proc_stats.push(stat_row(1, edge_ts));
    let mut monitor = Monitor::new(db);
    monitor.prune_db(now);

    assert_eq!(monitor.db.proc_stats.len(), 1);
    assert_eq!(monitor.db.processes.len(), 1);
}

/// A full pass through the composed monitor: initialization then one update
/// tick over every metric family.
#[test]
fn test_monitor_init_and_update() {
    let monitor_db = Database::new();
    let mut monitor = Monitor::new(monitor_db);

    let snap = LiveSnapshot {
        processes: vec![LiveProcess {
            info: proc_row(5, 50),
            cpu_core: Some(0),
            virtual_memory: 10,
            resident_memory: 5,
            shared_memory: 1,
        }],
        cpus: vec![Cpu { cpu_core: 0, mhz: 2400, total_cache: 512 }],
        memory: MemValues { total: 1000, available: 500, swap_total: 0, swap_free: 0 },
        disks: vec![nebula::disk::DiskMetrics {
            name: "/dev/sda1".to_string(),
            mount: "/".to_string(),
            file_system_type: "ext4".to_string(),
            used: 10,
            available: 90,
        }],
        interfaces: vec![LiveInterface {
            name: "eth0".to_string(),
            recv_bytes: 2000,
            sent_bytes: 1000,
            recv_packets: 2,
            sent_packets: 1,
            recv_errs: 0,
            sent_errs: 0,
        }],
        arp: vec![ArpEntry { device: "eth0".to_string(), ip_address: "10.0.0.1".to_string() }],
    };

    monitor.setup_init_data(&snap);
    assert_eq!(monitor.db.processes.len(), 1);
    assert_eq!(monitor.db.cpus.len(), 1);
    assert_eq!(monitor.db.disks.len(), 1);
    assert_eq!(monitor.db.interfaces.len(), 1);
    assert!(monitor.db.proc_stats.is_empty());
    assert!(monitor.db.memory.is_empty());

    monitor.update(1_700_000_000, &snap);
    assert_eq!(monitor.db.proc_stats.len(), 1);
    assert_eq!(monitor.db.cpu_stats.len(), 1);
    assert_eq!(monitor.db.memory.len(), 1);
    assert_eq!(monitor.db.disk_stats.len(), 1);
    assert_eq!(monitor.db.network_stats.len(), 1);
    // the very first tick has no earlier per-core sample: zero usage
    assert_eq!(monitor.db.cpu_stats[0].usage, Utilization::zero());
}
