use nebula::database::Database;
use nebula::process::{init_process_data, update_process_data};
use nebula::snapshot::LiveProcess;
use nebula::tables::{ProcStat, Process};

fn proc_row(pid: u32, start_time: i64, is_alive: bool, cpu_ms: u64) -> Process {
    Process {
        pid,
        exec_name: format!("exe-{}", pid),
        start_time,
        is_alive,
        init_total_cpu: cpu_ms,
    }
}

fn stat_row(pid: u32, timestamp: i64, cpu_ms: u64) -> ProcStat {
    ProcStat {
        pid,
        timestamp,
        total_cpu: cpu_ms,
        cpu_core: Some(0),
        virtual_memory: 100,
        resident_memory: 50,
        shared_memory: 10,
    }
}

fn live_proc(pid: u32, start_time: i64, cpu_ms: u64) -> LiveProcess {
    LiveProcess {
        info: proc_row(pid, start_time, true, cpu_ms),
        cpu_core: Some(0),
        virtual_memory: 100,
        resident_memory: 50,
        shared_memory: 10,
    }
}

/// Initialization merge: live = {(1,100),(2,200)}, persisted = {(2,200),(3,300)}.
/// Pid 1 is inserted alive, pid 2 is unchanged, pid 3 is marked dead.
#[test]
fn test_merge_init_scenario() {
    let mut db = Database::new();
    db.processes.push(proc_row(2, 200, true, 7));
    db.processes.push(proc_row(3, 300, true, 9));

    let live = vec![proc_row(1, 100, true, 1), proc_row(2, 200, true, 2)];
    init_process_data(&mut db, &live);

    assert_eq!(db.processes.len(), 3);
    assert_eq!(db.processes[0].pid, 1);
    assert_eq!(db.processes[0].start_time, 100);
    assert!(db.processes[0].is_alive);
    assert_eq!(db.processes[1].pid, 2);
    assert_eq!(db.processes[1].start_time, 200);
    assert!(db.processes[1].is_alive);
    // the unchanged record keeps its stored metadata
    assert_eq!(db.processes[1].init_total_cpu, 7);
    assert_eq!(db.processes[2].pid, 3);
    assert_eq!(db.processes[2].start_time, 300);
    assert!(!db.processes[2].is_alive);
}

/// A reused pid (same pid, another start time) has its record replaced and
/// all its prior samples purged.
#[test]
fn test_init_process_data_simple() {
    let mut db = Database::new();
    db.processes.push(proc_row(500, 123456789, true, 10));
    db.processes.push(proc_row(9999999, 1000, true, 10));
    db.proc_stats.push(stat_row(500, 1000, 5));

    let live = vec![proc_row(500, 42424242, true, 3)];
    init_process_data(&mut db, &live);

    let me: Vec<&Process> = db.processes.iter().filter(|p| p.pid == 500).collect();
    assert_eq!(me.len(), 1);
    assert_ne!(me[0].start_time, 123456789);
    let my_stats: Vec<&ProcStat> = db.proc_stats.iter().filter(|s| s.pid == 500).collect();
    assert_eq!(my_stats.len(), 0);

    let old: Vec<&Process> = db.processes.iter().filter(|p| p.pid == 9999999).collect();
    assert_eq!(old.len(), 1);
    assert!(!old[0].is_alive);
}

/// A process whose identity matches exactly is untouched, and its samples
/// survive; an absent pid is marked dead but keeps its samples.
#[test]
fn test_init_process_data_additional_checks() {
    let mut db = Database::new();
    db.processes.push(proc_row(7, 111, true, 10));
    db.processes.push(proc_row(42, 123456790, true, 2048));
    db.proc_stats.push(stat_row(7, 123456789, 999));
    db.proc_stats.push(stat_row(42, 987654321, 5000));

    let live = vec![proc_row(7, 111, true, 10)];
    init_process_data(&mut db, &live);

    let me: Vec<&Process> = db.processes.iter().filter(|p| p.pid == 7).collect();
    assert_eq!(me.len(), 1);
    assert_eq!(me[0].start_time, 111);
    let my_stats: Vec<&ProcStat> = db.proc_stats.iter().filter(|s| s.pid == 7).collect();
    assert_eq!(my_stats.len(), 1);

    let old: Vec<&Process> = db.processes.iter().filter(|p| p.pid == 42).collect();
    assert_eq!(old.len(), 1);
    assert!(!old[0].is_alive);
}

/// A record persisted as dead under the identical identity of a live process
/// is revived: after both the initialization merge and a steady-state pass,
/// every live pid's record is alive and every absent pid's record is dead.
#[test]
fn test_exact_match_revives() {
    let mut db = Database::new();
    db.processes.push(proc_row(1, 100, false, 7));
    let live = vec![proc_row(1, 100, true, 2)];
    init_process_data(&mut db, &live);
    assert_eq!(db.processes.len(), 1);
    assert!(db.processes[0].is_alive);
    // the stored metadata still stands
    assert_eq!(db.processes[0].init_total_cpu, 7);

    let mut db2 = Database::new();
    db2.processes.push(proc_row(1, 100, false, 7));
    let live2 = vec![live_proc(1, 100, 2)];
    update_process_data(&mut db2, 1700000000, &live2);
    let me: Vec<&Process> = db2.processes.iter().filter(|p| p.pid == 1).collect();
    assert_eq!(me.len(), 1);
    assert!(me[0].is_alive);
    assert_eq!(me[0].init_total_cpu, 7);
}

/// With nothing persisted, every live process is inserted.
#[test]
fn test_init_process_data_empty_db() {
    let mut db = Database::new();
    let live = vec![
        proc_row(1, 10, true, 0),
        proc_row(5, 20, true, 0),
        proc_row(9, 30, true, 0),
    ];
    init_process_data(&mut db, &live);
    assert_eq!(db.processes.len(), 3);
    assert!(db.processes.iter().all(|p| p.is_alive));
}

/// One steady-state pass: a reused pid is replaced and its samples purged,
/// a dead pid keeps its samples and is marked dead, every live process gets
/// one sample at the tick's timestamp.
#[test]
fn test_update_process_data() {
    let mut db = Database::new();
    // stale identity for pid 800: start time differs from the live one
    db.processes.push(proc_row(800, 123456789, false, 4242));
    db.processes.push(proc_row(9999999, 77, true, 1));
    db.proc_stats.push(stat_row(800, 987654321, 424242));
    db.proc_stats.push(stat_row(9999999, 10, 1));

    let cur_time: u64 = 1700000000;
    let live = vec![live_proc(800, 555, 9), live_proc(801, 556, 4)];
    update_process_data(&mut db, cur_time, &live);

    // the reused pid was replaced and its old samples purged
    let me: Vec<&Process> = db.processes.iter().filter(|p| p.pid == 800).collect();
    assert_eq!(me.len(), 1);
    assert_ne!(me[0].start_time, 123456789);
    let old_stats: Vec<&ProcStat> = db
        .proc_stats
        .iter()
        .filter(|s| s.pid == 800 && s.timestamp == 987654321)
        .collect();
    assert_eq!(old_stats.len(), 0);

    // the vanished pid is dead but its history remains
    let dead: Vec<&Process> = db.processes.iter().filter(|p| p.pid == 9999999).collect();
    assert_eq!(dead.len(), 1);
    assert!(!dead[0].is_alive);
    let dead_stats: Vec<&ProcStat> = db.proc_stats.iter().filter(|s| s.pid == 9999999).collect();
    assert_eq!(dead_stats.len(), 1);

    // every live process was inserted and sampled once at this tick
    assert_eq!(db.processes.len(), 3);
    let fresh: Vec<&ProcStat> = db
        .proc_stats
        .iter()
        .filter(|s| s.timestamp == cur_time as i64)
        .collect();
    assert_eq!(fresh.len(), 2);
    assert_eq!(fresh[0].pid, 800);
    assert_eq!(fresh[0].total_cpu, 9);
    assert_eq!(fresh[1].pid, 801);
    assert_eq!(fresh[1].total_cpu, 4);

    // the table stays sorted by pid
    for w in db.processes.windows(2) {
        assert!(w[0].pid < w[1].pid);
    }
}
