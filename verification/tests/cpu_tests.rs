use nebula::cpu::{init_cpu_data, update_cpu_data};
use nebula::database::Database;
use nebula::tables::{Cpu, CpuStat, ProcStat, Utilization};

fn cpu_core_row(n: u32) -> Cpu {
    Cpu { cpu_core: n, mhz: 2400, total_cache: 512 }
}

fn stat(pid: u32, timestamp: i64, cpu_ms: u64, cpu_core: Option<u32>) -> ProcStat {
    ProcStat {
        pid,
        timestamp,
        total_cpu: cpu_ms,
        cpu_core,
        virtual_memory: 0,
        resident_memory: 0,
        shared_memory: 0,
    }
}

/// Rebuilding the topology drops core 99 everywhere: its row, its samples,
/// and the core assignment of process samples that pointed at it.
#[test]
fn test_init_cpu_data() {
    let mut db = Database::new();
    db.cpus.push(cpu_core_row(99));
    db.cpu_stats.push(CpuStat { cpu_core: 99, timestamp: 50, usage: Utilization::zero() });
    db.cpu_stats.push(CpuStat { cpu_core: 0, timestamp: 50, usage: Utilization::zero() });
    db.proc_stats.push(stat(1, 50, 10, Some(99)));
    db.proc_stats.push(stat(2, 50, 10, Some(1)));

    let live = vec![cpu_core_row(0), cpu_core_row(1)];
    init_cpu_data(&mut db, &live);

    assert_eq!(db.cpus.len(), 2);
    for c in db.cpus.iter() {
        assert_ne!(c.cpu_core, 99);
    }
    assert_eq!(db.proc_stats.len(), 2);
    for s in db.proc_stats.iter() {
        if let Some(c) = s.cpu_core {
            assert!(c < 2);
        }
    }
    assert_eq!(db.cpu_stats.len(), 1);
    assert!(db.cpu_stats[0].cpu_core < 2);

    // repeating the rebuild with the same topology is a no-op
    let cpus_before = db.cpus.clone();
    let n_stats = db.cpu_stats.len();
    let cores_before: Vec<Option<u32>> = db.proc_stats.iter().map(|s| s.cpu_core).collect();
    init_cpu_data(&mut db, &live);
    assert_eq!(db.cpus, cpus_before);
    assert_eq!(db.cpu_stats.len(), n_stats);
    let cores_after: Vec<Option<u32>> = db.proc_stats.iter().map(|s| s.cpu_core).collect();
    assert_eq!(cores_after, cores_before);
}

/// One second elapsed, 154 ms of CPU time accumulated on core 0: the sample
/// written at the new tick records 154 thousandths.
#[test]
fn test_update_cpu_data() {
    let mut db = Database::new();
    db.cpus.push(cpu_core_row(0));
    db.cpu_stats.push(CpuStat {
        cpu_core: 0,
        timestamp: 123456789,
        usage: Utilization::zero(),
    });
    db.proc_stats.push(stat(77, 123456789, 1000, Some(0)));
    db.proc_stats.push(stat(77, 123456790, 1154, Some(0)));

    update_cpu_data(&mut db, 123456790);

    let fresh: Vec<&CpuStat> = db
        .cpu_stats
        .iter()
        .filter(|s| s.timestamp == 123456790)
        .collect();
    assert_eq!(fresh.len(), 1);
    assert_eq!(fresh[0].usage.permille(), 154);
    assert_eq!(fresh[0].usage.used_ms, 154);
    assert_eq!(fresh[0].usage.elapsed_s, 1);
}

/// Two ticks ten seconds apart, pid 5 going from 2.0 to 5.0 CPU seconds on
/// core 0: the second tick records 3.0 / 10 of a core, that is 300
/// thousandths.
#[test]
fn test_cpu_usage_two_tick_scenario() {
    let mut db = Database::new();
    db.cpus.push(cpu_core_row(0));

    // first tick at t = 0: a sample for pid 5 and a zero-usage core sample
    db.proc_stats.push(stat(5, 0, 2000, Some(0)));
    db.cpu_stats.push(CpuStat { cpu_core: 0, timestamp: 0, usage: Utilization::zero() });

    // second tick at t = 10 with 5.0 cumulative CPU seconds
    db.proc_stats.push(stat(5, 10, 5000, Some(0)));
    update_cpu_data(&mut db, 10);

    let fresh: Vec<&CpuStat> = db.cpu_stats.iter().filter(|s| s.timestamp == 10).collect();
    assert_eq!(fresh.len(), 1);
    assert_eq!(fresh[0].usage.used_ms, 3000);
    assert_eq!(fresh[0].usage.elapsed_s, 10);
    assert_eq!(fresh[0].usage.permille(), 300);
}

/// With no prior per-core sample there is nothing to difference: every core
/// records exactly zero.
#[test]
fn test_update_cpu_data_no_prior() {
    let mut db = Database::new();
    db.cpus.push(cpu_core_row(0));
    db.cpus.push(cpu_core_row(1));
    db.proc_stats.push(stat(5, 100, 9999, Some(0)));

    update_cpu_data(&mut db, 100);

    assert_eq!(db.cpu_stats.len(), 2);
    for s in db.cpu_stats.iter() {
        assert_eq!(s.usage, Utilization::zero());
        assert_eq!(s.usage.permille(), 0);
    }
}

/// A process first seen this interval contributes its whole counter; one
/// with a prior sample contributes only the growth, never a negative figure.
#[test]
fn test_update_cpu_data_new_process() {
    let mut db = Database::new();
    db.cpus.push(cpu_core_row(0));
    db.cpu_stats.push(CpuStat { cpu_core: 0, timestamp: 100, usage: Utilization::zero() });
    // pid 1 has a prior sample; pid 2 is new; pid 3 regressed (counter shrank)
    db.proc_stats.push(stat(1, 100, 500, Some(0)));
    db.proc_stats.push(stat(3, 100, 900, Some(0)));
    db.proc_stats.push(stat(1, 102, 700, Some(0)));
    db.proc_stats.push(stat(2, 102, 50, Some(0)));
    db.proc_stats.push(stat(3, 102, 800, Some(0)));

    update_cpu_data(&mut db, 102);

    let fresh: Vec<&CpuStat> = db.cpu_stats.iter().filter(|s| s.timestamp == 102).collect();
    assert_eq!(fresh.len(), 1);
    // 200 growth for pid 1, 50 whole counter for pid 2, 0 for the regression
    assert_eq!(fresh[0].usage.used_ms, 250);
    assert_eq!(fresh[0].usage.elapsed_s, 2);
}
