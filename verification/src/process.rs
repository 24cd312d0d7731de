//! Process reconciliation.
//!
//! The live process table and the persisted one are compared by pid; the pair
//! (pid, start_time) is the logical identity of a process, so a persisted pid
//! whose start time differs from the live one belongs to an earlier process
//! that reused the pid: its samples are purged and its record replaced.
//! Persisted pids absent from the live set are marked dead, never deleted
//! here (the pruner removes them once their samples have aged out).

use vstd::prelude::*;

use crate::database::{procs_sorted, Database};
use crate::seq_util::{keep, lemma_keep_properties};
use crate::snapshot::{LiveProcess, LiveProcessView};
use crate::tables::{ProcStat, Process, ProcessView};

verus! {

/// The same record, marked not alive.
pub open spec fn mark_dead(p: ProcessView) -> ProcessView {
    ProcessView { is_alive: false, ..p }
}

/// The same record, marked alive.
pub open spec fn mark_alive(p: ProcessView) -> ProcessView {
    ProcessView { is_alive: true, ..p }
}

/// Whether some row of `s` carries this pid.
pub open spec fn has_pid(s: Seq<ProcessView>, pid: u32) -> bool {
    exists|i: int| 0 <= i < s.len() && s[i].pid == pid
}

/// Whether `pid` is carried by a live row and a persisted row whose start
/// times disagree: the persisted process is then a dead predecessor that
/// reused the pid, and its history must go.
pub open spec fn replaced_pid(live: Seq<ProcessView>, db: Seq<ProcessView>, pid: u32) -> bool {
    exists|i: int, j: int|
        #![trigger live[i], db[j]]
        0 <= i < live.len() && 0 <= j < db.len() && live[i].pid == pid && db[j].pid == pid
            && live[i].start_time != db[j].start_time
}

/// The process table that initialization leaves behind: a sorted merge of the
/// live rows and the persisted rows. On a shared pid the persisted row is
/// kept — and marked alive, since its process is in the live snapshot — when
/// the start times agree, and replaced by the live row when they do not;
/// live-only rows are inserted; persisted-only rows are marked dead.
pub open spec fn merge_procs(live: Seq<ProcessView>, db: Seq<ProcessView>) -> Seq<ProcessView>
    decreases live.len() + db.len(),
{
    if live.len() == 0 {
        db.map_values(|p: ProcessView| mark_dead(p))
    } else if db.len() == 0 {
        live
    } else if live[0].pid == db[0].pid {
        let rest = merge_procs(live.drop_first(), db.drop_first());
        if live[0].start_time != db[0].start_time {
            seq![live[0]] + rest
        } else {
            seq![mark_alive(db[0])] + rest
        }
    } else if live[0].pid < db[0].pid {
        seq![live[0]] + merge_procs(live.drop_first(), db)
    } else {
        seq![mark_dead(db[0])] + merge_procs(live, db.drop_first())
    }
}

/// The pids whose persisted identity the merge replaces, in merge order.
pub open spec fn purged_pids(live: Seq<ProcessView>, db: Seq<ProcessView>) -> Seq<u32>
    decreases live.len() + db.len(),
{
    if live.len() == 0 || db.len() == 0 {
        Seq::empty()
    } else if live[0].pid == db[0].pid {
        let rest = purged_pids(live.drop_first(), db.drop_first());
        if live[0].start_time != db[0].start_time {
            seq![live[0].pid] + rest
        } else {
            rest
        }
    } else if live[0].pid < db[0].pid {
        purged_pids(live.drop_first(), db)
    } else {
        purged_pids(live, db.drop_first())
    }
}

/// On sorted inputs the purged pids are exactly the pids shared by a live row
/// and a persisted row with different start times.
pub proof fn lemma_purged_pids_iff(live: Seq<ProcessView>, db: Seq<ProcessView>)
    requires
        procs_sorted(live),
        procs_sorted(db),
    ensures
        forall|pid: u32|
            #[trigger] purged_pids(live, db).contains(pid) <==> replaced_pid(live, db, pid),
    decreases live.len() + db.len(),
{
    if live.len() == 0 || db.len() == 0 {
        assert forall|pid: u32| !replaced_pid(live, db, pid) by {}
    } else {
        let lt = live.drop_first();
        let dt = db.drop_first();
        assert(procs_sorted(lt) && procs_sorted(dt)) by {
            assert(forall|i: int| 0 <= i < lt.len() ==> lt[i] == live[i + 1]);
            assert(forall|i: int| 0 <= i < dt.len() ==> dt[i] == db[i + 1]);
        }
        if live[0].pid == db[0].pid {
            lemma_purged_pids_iff(lt, dt);
            let p0 = live[0].pid;
            assert forall|pid: u32|
                #[trigger] purged_pids(live, db).contains(pid) <==> replaced_pid(
                    live,
                    db,
                    pid,
                ) by {
                assert(purged_pids(lt, dt).contains(pid) <==> replaced_pid(lt, dt, pid));
                if live[0].start_time != db[0].start_time {
                    assert(purged_pids(live, db) == seq![p0] + purged_pids(lt, dt));
                } else {
                    assert(purged_pids(live, db) == purged_pids(lt, dt));
                }
                if pid == p0 {
                    if live[0].start_time != db[0].start_time {
                        assert(purged_pids(live, db)[0] == p0);
                        assert(purged_pids(live, db).contains(p0));
                        assert(replaced_pid(live, db, p0)) by {
                            assert(live[0].pid == p0 && db[0].pid == p0);
                        }
                    } else {
                        assert(!replaced_pid(live, db, p0)) by {
                            assert forall|i: int, j: int|
                                0 <= i < live.len() && 0 <= j < db.len() && live[i].pid == p0
                                    && db[j].pid == p0 implies #[trigger] live[i].start_time == (
                            #[trigger] db[j]).start_time by {
                                assert(i == 0 && j == 0);
                            }
                        }
                        assert(!purged_pids(lt, dt).contains(p0)) by {
                            if replaced_pid(lt, dt, p0) {
                                let (i, j): (int, int) = choose|i: int, j: int|
                                    #![trigger lt[i], dt[j]]
                                    0 <= i < lt.len() && 0 <= j < dt.len() && lt[i].pid == p0
                                        && dt[j].pid == p0 && lt[i].start_time != dt[j].start_time;
                                assert(lt[i] == live[i + 1]);
                                assert(live[i + 1].pid > live[0].pid);
                            }
                        }
                    }
                } else {
                    // pid other than the shared head: shift every witness by one.
                    assert(replaced_pid(lt, dt, pid) <==> replaced_pid(live, db, pid)) by {
                        if replaced_pid(lt, dt, pid) {
                            let (i, j): (int, int) = choose|i: int, j: int|
                                #![trigger lt[i], dt[j]]
                                0 <= i < lt.len() && 0 <= j < dt.len() && lt[i].pid == pid
                                    && dt[j].pid == pid && lt[i].start_time != dt[j].start_time;
                            assert(live[i + 1] == lt[i] && db[j + 1] == dt[j]);
                            assert(replaced_pid(live, db, pid));
                        }
                        if replaced_pid(live, db, pid) {
                            let (i, j): (int, int) = choose|i: int, j: int|
                                #![trigger live[i], db[j]]
                                0 <= i < live.len() && 0 <= j < db.len() && live[i].pid == pid
                                    && db[j].pid == pid && live[i].start_time != db[j].start_time;
                            assert(i >= 1 && j >= 1);
                            assert(lt[i - 1] == live[i] && dt[j - 1] == db[j]);
                            assert(replaced_pid(lt, dt, pid));
                        }
                    }
                    if live[0].start_time != db[0].start_time {
                        assert(purged_pids(live, db) == seq![p0] + purged_pids(lt, dt));
                        assert(purged_pids(live, db).contains(pid) <==> purged_pids(
                            lt,
                            dt,
                        ).contains(pid)) by {
                            if purged_pids(lt, dt).contains(pid) {
                                let k = choose|k: int|
                                    0 <= k < purged_pids(lt, dt).len() && purged_pids(lt, dt)[k]
                                        == pid;
                                assert(purged_pids(live, db)[k + 1] == pid);
                            }
                            if purged_pids(live, db).contains(pid) {
                                let k = choose|k: int|
                                    0 <= k < purged_pids(live, db).len() && purged_pids(
                                        live,
                                        db,
                                    )[k] == pid;
                                assert(k >= 1);
                                assert(purged_pids(lt, dt)[k - 1] == pid);
                            }
                        }
                    }
                }
            }
        } else if live[0].pid < db[0].pid {
            lemma_purged_pids_iff(lt, db);
            assert forall|pid: u32|
                #[trigger] purged_pids(live, db).contains(pid) <==> replaced_pid(
                    live,
                    db,
                    pid,
                ) by {
                assert(purged_pids(lt, db).contains(pid) <==> replaced_pid(lt, db, pid));
                assert(purged_pids(live, db) == purged_pids(lt, db));
                assert(replaced_pid(lt, db, pid) <==> replaced_pid(live, db, pid)) by {
                    if replaced_pid(lt, db, pid) {
                        let (i, j): (int, int) = choose|i: int, j: int|
                            #![trigger lt[i], db[j]]
                            0 <= i < lt.len() && 0 <= j < db.len() && lt[i].pid == pid && db[j].pid
                                == pid && lt[i].start_time != db[j].start_time;
                        assert(live[i + 1] == lt[i]);
                        assert(replaced_pid(live, db, pid));
                    }
                    if replaced_pid(live, db, pid) {
                        let (i, j): (int, int) = choose|i: int, j: int|
                            #![trigger live[i], db[j]]
                            0 <= i < live.len() && 0 <= j < db.len() && live[i].pid == pid
                                && db[j].pid == pid && live[i].start_time != db[j].start_time;
                        // live[0] shares no pid with any persisted row.
                        assert(i >= 1) by {
                            if i == 0 {
                                assert(db[j].pid >= db[0].pid) by {
                                    if j > 0 {
                                        assert(db[0].pid < db[j].pid);
                                    }
                                }
                            }
                        }
                        assert(lt[i - 1] == live[i]);
                        assert(replaced_pid(lt, db, pid));
                    }
                }
            }
        } else {
            lemma_purged_pids_iff(live, dt);
            assert forall|pid: u32|
                #[trigger] purged_pids(live, db).contains(pid) <==> replaced_pid(
                    live,
                    db,
                    pid,
                ) by {
                assert(purged_pids(live, dt).contains(pid) <==> replaced_pid(live, dt, pid));
                assert(purged_pids(live, db) == purged_pids(live, dt));
                assert(replaced_pid(live, dt, pid) <==> replaced_pid(live, db, pid)) by {
                    if replaced_pid(live, dt, pid) {
                        let (i, j): (int, int) = choose|i: int, j: int|
                            #![trigger live[i], dt[j]]
                            0 <= i < live.len() && 0 <= j < dt.len() && live[i].pid == pid
                                && dt[j].pid == pid && live[i].start_time != dt[j].start_time;
                        assert(db[j + 1] == dt[j]);
                        assert(replaced_pid(live, db, pid));
                    }
                    if replaced_pid(live, db, pid) {
                        let (i, j): (int, int) = choose|i: int, j: int|
                            #![trigger live[i], db[j]]
                            0 <= i < live.len() && 0 <= j < db.len() && live[i].pid == pid
                                && db[j].pid == pid && live[i].start_time != db[j].start_time;
                        assert(j >= 1) by {
                            if j == 0 {
                                assert(live[i].pid >= live[0].pid) by {
                                    if i > 0 {
                                        assert(live[0].pid < live[i].pid);
                                    }
                                }
                            }
                        }
                        assert(dt[j - 1] == db[j]);
                        assert(replaced_pid(live, dt, pid));
                    }
                }
            }
        }
    }
}

/// The merge of sorted tables is sorted (so duplicate-free), and every row it
/// holds carries a pid that one of the inputs carried.
pub proof fn lemma_merge_procs_sorted(live: Seq<ProcessView>, db: Seq<ProcessView>)
    requires
        procs_sorted(live),
        procs_sorted(db),
    ensures
        procs_sorted(merge_procs(live, db)),
        forall|k: int|
            0 <= k < merge_procs(live, db).len() ==> has_pid(
                live,
                #[trigger] merge_procs(live, db)[k].pid,
            ) || has_pid(db, merge_procs(live, db)[k].pid),
    decreases live.len() + db.len(),
{
    let m = merge_procs(live, db);
    if live.len() == 0 {
        assert forall|k: int| 0 <= k < m.len() implies has_pid(live, #[trigger] m[k].pid)
            || has_pid(db, m[k].pid) by {
            assert(m[k] == mark_dead(db[k]));
            assert(db[k].pid == m[k].pid);
        }
        assert(procs_sorted(m)) by {
            assert(forall|k: int| 0 <= k < m.len() ==> #[trigger] m[k].pid == db[k].pid);
        }
    } else if db.len() == 0 {
    } else {
        let lt = live.drop_first();
        let dt = db.drop_first();
        assert(procs_sorted(lt) && procs_sorted(dt)) by {
            assert(forall|i: int| 0 <= i < lt.len() ==> lt[i] == live[i + 1]);
            assert(forall|i: int| 0 <= i < dt.len() ==> dt[i] == db[i + 1]);
        }
        let p0 = if live[0].pid <= db[0].pid {
            live[0].pid
        } else {
            db[0].pid
        };
        let (head, rest) = if live[0].pid == db[0].pid {
            (
                if live[0].start_time != db[0].start_time {
                    live[0]
                } else {
                    mark_alive(db[0])
                },
                merge_procs(lt, dt),
            )
        } else if live[0].pid < db[0].pid {
            (live[0], merge_procs(lt, db))
        } else {
            (mark_dead(db[0]), merge_procs(live, dt))
        };
        if live[0].pid == db[0].pid {
            lemma_merge_procs_sorted(lt, dt);
        } else if live[0].pid < db[0].pid {
            lemma_merge_procs_sorted(lt, db);
        } else {
            lemma_merge_procs_sorted(live, dt);
        }
        assert(m == seq![head] + rest);
        assert(m[0] == head && head.pid == p0);
        assert(forall|k: int| 0 <= k < rest.len() ==> m[k + 1] == rest[k]);
        // Every pid in the tail of the merge comes from a tail row, and tail
        // rows all carry pids above the shared lower bound p0.
        assert forall|k: int| 1 <= k < m.len() implies #[trigger] m[k].pid > p0 by {
            let q = m[k].pid;
            assert(rest[k - 1] == m[k]);
            if has_pid(lt, q) {
                let i = choose|i: int| 0 <= i < lt.len() && lt[i].pid == q;
                assert(lt[i] == live[i + 1]);
                assert(live[0].pid < q);
            }
            if has_pid(dt, q) {
                let j = choose|j: int| 0 <= j < dt.len() && dt[j].pid == q;
                assert(dt[j] == db[j + 1]);
                assert(db[0].pid < q);
            }
            if live[0].pid == db[0].pid {
                assert(has_pid(lt, q) || has_pid(dt, q));
            } else if live[0].pid < db[0].pid {
                assert(has_pid(lt, q) || has_pid(db, q));
                if has_pid(db, q) && !has_pid(lt, q) {
                    let j = choose|j: int| 0 <= j < db.len() && db[j].pid == q;
                    assert(q >= db[0].pid > live[0].pid);
                }
            } else {
                assert(has_pid(live, q) || has_pid(dt, q));
                if has_pid(live, q) && !has_pid(dt, q) {
                    let i = choose|i: int| 0 <= i < live.len() && live[i].pid == q;
                    assert(q >= live[0].pid > db[0].pid);
                }
            }
        }
        assert forall|a: int, b: int| 0 <= a < b < m.len() implies m[a].pid < m[b].pid by {
            if a > 0 {
                assert(rest[a - 1] == m[a] && rest[b - 1] == m[b]);
            }
        }
        assert forall|k: int| 0 <= k < m.len() implies has_pid(live, #[trigger] m[k].pid)
            || has_pid(db, m[k].pid) by {
            if k == 0 {
                assert(live[0].pid == live[0].pid);
            } else {
                let q = m[k].pid;
                if live[0].pid == db[0].pid {
                    if has_pid(lt, q) {
                        let i = choose|i: int| 0 <= i < lt.len() && lt[i].pid == q;
                        assert(live[i + 1] == lt[i]);
                    } else {
                        let j = choose|j: int| 0 <= j < dt.len() && dt[j].pid == q;
                        assert(db[j + 1] == dt[j]);
                    }
                } else if live[0].pid < db[0].pid {
                    if has_pid(lt, q) {
                        let i = choose|i: int| 0 <= i < lt.len() && lt[i].pid == q;
                        assert(live[i + 1] == lt[i]);
                    }
                } else {
                    if has_pid(dt, q) {
                        let j = choose|j: int| 0 <= j < dt.len() && dt[j].pid == q;
                        assert(db[j + 1] == dt[j]);
                    }
                }
            }
        }
    }
}

/// Whether `m` holds a live record with this pid and start time.
pub open spec fn has_alive_record(m: Seq<ProcessView>, pid: u32, start_time: i64) -> bool {
    exists|k: int|
        0 <= k < m.len() && (#[trigger] m[k]).pid == pid && m[k].start_time == start_time
            && m[k].is_alive
}

/// Merge completeness. After the initialization merge of sorted tables:
/// every live process has a record that is alive and carries its start time;
/// every persisted pid absent from the live set is marked dead, its record
/// otherwise untouched; a pid persisted under another start time has its
/// record replaced by the live row; and the table is sorted, so no record is
/// duplicated.
#[verifier::rlimit(60)]
pub proof fn lemma_merge_complete(live: Seq<ProcessView>, db: Seq<ProcessView>)
    requires
        procs_sorted(live),
        procs_sorted(db),
        forall|i: int| 0 <= i < live.len() ==> (#[trigger] live[i]).is_alive,
    ensures
        procs_sorted(merge_procs(live, db)),
        forall|i: int|
            0 <= i < live.len() ==> has_alive_record(
                merge_procs(live, db),
                (#[trigger] live[i]).pid,
                live[i].start_time,
            ),
        forall|j: int|
            0 <= j < db.len() && !has_pid(live, (#[trigger] db[j]).pid) ==> merge_procs(
                live,
                db,
            ).contains(mark_dead(db[j])),
        forall|i: int, j: int|
            #![trigger live[i], db[j]]
            0 <= i < live.len() && 0 <= j < db.len() && live[i].pid == db[j].pid
                && live[i].start_time != db[j].start_time ==> merge_procs(live, db).contains(
                live[i],
            ),
    decreases live.len() + db.len(),
{
    lemma_merge_procs_sorted(live, db);
    let m = merge_procs(live, db);
    if live.len() == 0 {
        assert forall|j: int| 0 <= j < db.len() && !has_pid(live, (#[trigger] db[j]).pid) implies m
            .contains(mark_dead(db[j])) by {
            assert(m[j] == mark_dead(db[j]));
        }
    } else if db.len() == 0 {
        assert forall|i: int| 0 <= i < live.len() implies has_alive_record(
            m,
            (#[trigger] live[i]).pid,
            live[i].start_time,
        ) by {
            assert(m[i] == live[i]);
        }
    } else {
        let lt = live.drop_first();
        let dt = db.drop_first();
        assert(procs_sorted(lt) && procs_sorted(dt)) by {
            assert(forall|i: int| 0 <= i < lt.len() ==> lt[i] == live[i + 1]);
            assert(forall|i: int| 0 <= i < dt.len() ==> dt[i] == db[i + 1]);
        }
        assert(forall|i: int| 0 <= i < lt.len() ==> (#[trigger] lt[i]) == live[i + 1]);
        assert(forall|j: int| 0 <= j < dt.len() ==> (#[trigger] dt[j]) == db[j + 1]);
        if live[0].pid == db[0].pid {
            let rest = merge_procs(lt, dt);
            let head = if live[0].start_time != db[0].start_time {
                live[0]
            } else {
                mark_alive(db[0])
            };
            assert(m == seq![head] + rest);
            assert(m[0] == head);
            assert(forall|k: int| 0 <= k < rest.len() ==> m[k + 1] == #[trigger] rest[k]);
            lemma_merge_complete(lt, dt);
            assert forall|i: int| 0 <= i < live.len() implies has_alive_record(
                m,
                (#[trigger] live[i]).pid,
                live[i].start_time,
            ) by {
                if i == 0 {
                    assert(head.pid == live[0].pid && head.start_time == live[0].start_time
                        && head.is_alive);
                } else {
                    assert(has_alive_record(rest, lt[i - 1].pid, lt[i - 1].start_time));
                    let k = choose|k: int|
                        0 <= k < rest.len() && (#[trigger] rest[k]).pid == lt[i - 1].pid && rest[k].start_time
                            == lt[i - 1].start_time && rest[k].is_alive;
                    assert(m[k + 1] == rest[k]);
                }
            }
            assert forall|j: int|
                0 <= j < db.len() && !has_pid(live, (#[trigger] db[j]).pid) implies m.contains(
                mark_dead(db[j]),
            ) by {
                assert(j != 0);
                assert(!has_pid(lt, dt[j - 1].pid)) by {
                    if has_pid(lt, dt[j - 1].pid) {
                        let i = choose|i: int| 0 <= i < lt.len() && lt[i].pid == dt[j - 1].pid;
                        assert(live[i + 1].pid == db[j].pid);
                    }
                }
                assert(rest.contains(mark_dead(dt[j - 1])));
                let k = choose|k: int| 0 <= k < rest.len() && rest[k] == mark_dead(dt[j - 1]);
                assert(m[k + 1] == rest[k]);
            }
            assert forall|i: int, j: int|
                #![trigger live[i], db[j]]
                0 <= i < live.len() && 0 <= j < db.len() && live[i].pid == db[j].pid
                    && live[i].start_time != db[j].start_time implies m.contains(live[i]) by {
                if i == 0 || j == 0 {
                    assert(i == 0 && j == 0) by {
                        if i > 0 {
                            assert(live[i].pid > live[0].pid);
                        }
                        if j > 0 {
                            assert(db[j].pid > db[0].pid);
                        }
                    }
                    assert(m[0] == live[0]);
                } else {
                    assert(lt[i - 1] == live[i] && dt[j - 1] == db[j]);
                    assert(rest.contains(lt[i - 1]));
                    let k = choose|k: int| 0 <= k < rest.len() && rest[k] == lt[i - 1];
                    assert(m[k + 1] == rest[k]);
                }
            }
        } else if live[0].pid < db[0].pid {
            let rest = merge_procs(lt, db);
            assert(m == seq![live[0]] + rest);
            assert(m[0] == live[0]);
            assert(forall|k: int| 0 <= k < rest.len() ==> m[k + 1] == #[trigger] rest[k]);
            lemma_merge_complete(lt, db);
            assert forall|i: int| 0 <= i < live.len() implies has_alive_record(
                m,
                (#[trigger] live[i]).pid,
                live[i].start_time,
            ) by {
                if i > 0 {
                    assert(has_alive_record(rest, lt[i - 1].pid, lt[i - 1].start_time));
                    let k = choose|k: int|
                        0 <= k < rest.len() && (#[trigger] rest[k]).pid == lt[i - 1].pid && rest[k].start_time
                            == lt[i - 1].start_time && rest[k].is_alive;
                    assert(m[k + 1] == rest[k]);
                }
            }
            assert forall|j: int|
                0 <= j < db.len() && !has_pid(live, (#[trigger] db[j]).pid) implies m.contains(
                mark_dead(db[j]),
            ) by {
                assert(!has_pid(lt, db[j].pid)) by {
                    if has_pid(lt, db[j].pid) {
                        let i = choose|i: int| 0 <= i < lt.len() && lt[i].pid == db[j].pid;
                        assert(live[i + 1].pid == db[j].pid);
                    }
                }
                assert(rest.contains(mark_dead(db[j])));
                let k = choose|k: int| 0 <= k < rest.len() && rest[k] == mark_dead(db[j]);
                assert(m[k + 1] == rest[k]);
            }
            assert forall|i: int, j: int|
                #![trigger live[i], db[j]]
                0 <= i < live.len() && 0 <= j < db.len() && live[i].pid == db[j].pid
                    && live[i].start_time != db[j].start_time implies m.contains(live[i]) by {
                assert(i > 0) by {
                    if i == 0 {
                        if j > 0 {
                            assert(db[j].pid > db[0].pid);
                        }
                    }
                }
                assert(lt[i - 1] == live[i]);
                assert(rest.contains(lt[i - 1]));
                let k = choose|k: int| 0 <= k < rest.len() && rest[k] == lt[i - 1];
                assert(m[k + 1] == rest[k]);
            }
        } else {
            let rest = merge_procs(live, dt);
            assert(m == seq![mark_dead(db[0])] + rest);
            assert(m[0] == mark_dead(db[0]));
            assert(forall|k: int| 0 <= k < rest.len() ==> m[k + 1] == #[trigger] rest[k]);
            lemma_merge_complete(live, dt);
            assert forall|i: int| 0 <= i < live.len() implies has_alive_record(
                m,
                (#[trigger] live[i]).pid,
                live[i].start_time,
            ) by {
                assert(has_alive_record(rest, live[i].pid, live[i].start_time));
                let k = choose|k: int|
                    0 <= k < rest.len() && (#[trigger] rest[k]).pid == live[i].pid && rest[k].start_time
                        == live[i].start_time && rest[k].is_alive;
                assert(m[k + 1] == rest[k]);
            }
            assert forall|j: int|
                0 <= j < db.len() && !has_pid(live, (#[trigger] db[j]).pid) implies m.contains(
                mark_dead(db[j]),
            ) by {
                if j > 0 {
                    assert(rest.contains(mark_dead(dt[j - 1])));
                    let k = choose|k: int| 0 <= k < rest.len() && rest[k] == mark_dead(dt[j - 1]);
                    assert(m[k + 1] == rest[k]);
                }
            }
            assert forall|i: int, j: int|
                #![trigger live[i], db[j]]
                0 <= i < live.len() && 0 <= j < db.len() && live[i].pid == db[j].pid
                    && live[i].start_time != db[j].start_time implies m.contains(live[i]) by {
                assert(j > 0) by {
                    if j == 0 {
                        if i > 0 {
                            assert(live[i].pid > live[0].pid);
                        }
                    }
                }
                assert(dt[j - 1] == db[j]);
                assert(rest.contains(live[i]));
                let k = choose|k: int| 0 <= k < rest.len() && rest[k] == live[i];
                assert(m[k + 1] == rest[k]);
            }
        }
    }
}

/// Whether this vector of pids contains `pid`.
fn contains_pid(v: &Vec<u32>, pid: u32) -> (r: bool)
    ensures
        r == v@.contains(pid),
{
    let mut i: usize = 0;
    while i < v.len()
        invariant
            i <= v@.len(),
            forall|k: int| 0 <= k < i ==> v@[k] != pid,
        decreases v@.len() - i,
    {
        if v[i] == pid {
            return true;
        }
        i += 1;
    }
    false
}

/// Full merge-diff of the live process table against the persisted one, as
/// run once at agent start.
///
/// The persisted table becomes the sorted merge [`merge_procs`] of the two
/// inputs, and the samples of every replaced identity ([`replaced_pid`]) are
/// purged. No other table is touched.
pub fn init_process_data(db: &mut Database, live: &Vec<Process>)
    requires
        old(db).wf(),
        procs_sorted(live.deep_view()),
    ensures
        final(db).wf(),
        final(db).processes.deep_view() == merge_procs(
            live.deep_view(),
            old(db).processes.deep_view(),
        ),
        final(db).proc_stats@ == keep(
            old(db).proc_stats@,
            |s: ProcStat|
                !replaced_pid(live.deep_view(), old(db).processes.deep_view(), s.pid),
        ),
        // Nothing of a replaced identity survives, and nothing else is lost.
        forall|k: int|
            0 <= k < final(db).proc_stats@.len() ==> !replaced_pid(
                live.deep_view(),
                old(db).processes.deep_view(),
                (#[trigger] final(db).proc_stats@[k]).pid,
            ),
        forall|k: int|
            0 <= k < old(db).proc_stats@.len() && !replaced_pid(
                live.deep_view(),
                old(db).processes.deep_view(),
                (#[trigger] old(db).proc_stats@[k]).pid,
            ) ==> final(db).proc_stats@.contains(old(db).proc_stats@[k]),
        final(db).cpus == old(db).cpus,
        final(db).cpu_stats == old(db).cpu_stats,
        final(db).memory == old(db).memory,
        final(db).disks == old(db).disks,
        final(db).disk_stats == old(db).disk_stats,
        final(db).interfaces == old(db).interfaces,
        final(db).network_stats == old(db).network_stats,
{
    let ghost live_dv = live.deep_view();
    let ghost old_dv = old(db).processes.deep_view();

    let mut out: Vec<Process> = Vec::new();
    let mut purged: Vec<u32> = Vec::new();
    let mut ci: usize = 0;
    let mut di: usize = 0;

    proof {
        assert(live_dv.skip(0) =~= live_dv);
        assert(old_dv.skip(0) =~= old_dv);
    }

    while ci < live.len() && di < db.processes.len()
        invariant
            *db == *old(db),
            ci <= live_dv.len(),
            di <= old_dv.len(),
            live.deep_view() == live_dv,
            old(db).processes.deep_view() == old_dv,
            procs_sorted(live_dv),
            procs_sorted(old_dv),
            out.deep_view() + merge_procs(live_dv.skip(ci as int), old_dv.skip(di as int))
                =~= merge_procs(live_dv, old_dv),
            purged@ + purged_pids(live_dv.skip(ci as int), old_dv.skip(di as int)) =~= purged_pids(
                live_dv,
                old_dv,
            ),
        decreases live_dv.len() - ci + old_dv.len() - di,
    {
        let ghost ls = live_dv.skip(ci as int);
        let ghost ds = old_dv.skip(di as int);
        proof {
            assert(ls[0] == live_dv[ci as int]);
            assert(ds[0] == old_dv[di as int]);
            assert(ls.drop_first() =~= live_dv.skip(ci as int + 1));
            assert(ds.drop_first() =~= old_dv.skip(di as int + 1));
        }
        let ghost out0 = out.deep_view();
        let ghost purged0 = purged@;
        let cur = &live[ci];
        let dbp = &db.processes[di];
        proof {
            assert(cur@ == live_dv[ci as int]);
            assert(dbp@ == old_dv[di as int]);
        }
        if cur.pid == dbp.pid {
            if cur.start_time != dbp.start_time {
                purged.push(dbp.pid);
                out.push(cur.clone());
                proof {
                    assert(out.deep_view() =~= out0.push(cur@));
                    assert(merge_procs(ls, ds) == seq![ls[0]] + merge_procs(
                        ls.drop_first(),
                        ds.drop_first(),
                    ));
                    assert(out0.push(cur@) + merge_procs(ls.drop_first(), ds.drop_first())
                        =~= out0 + merge_procs(ls, ds));
                    assert(purged_pids(ls, ds) == seq![ls[0].pid] + purged_pids(
                        ls.drop_first(),
                        ds.drop_first(),
                    ));
                    assert(purged0.push(dbp.pid) + purged_pids(ls.drop_first(), ds.drop_first())
                        =~= purged0 + purged_pids(ls, ds));
                }
            } else {
                // same identity: the stored metadata stands, but the process
                // is in the live snapshot, so the record is alive again
                let mut revived = dbp.clone();
                revived.is_alive = true;
                out.push(revived);
                proof {
                    assert(out.deep_view() =~= out0.push(mark_alive(ds[0])));
                    assert(merge_procs(ls, ds) == seq![mark_alive(ds[0])] + merge_procs(
                        ls.drop_first(),
                        ds.drop_first(),
                    ));
                    assert(out0.push(mark_alive(ds[0])) + merge_procs(
                        ls.drop_first(),
                        ds.drop_first(),
                    ) =~= out0 + merge_procs(ls, ds));
                    assert(purged_pids(ls, ds) == purged_pids(ls.drop_first(), ds.drop_first()));
                }
            }
            ci += 1;
            di += 1;
        } else if cur.pid < dbp.pid {
            out.push(cur.clone());
            proof {
                assert(out.deep_view() =~= out0.push(cur@));
                assert(merge_procs(ls, ds) == seq![ls[0]] + merge_procs(ls.drop_first(), ds));
                assert(out0.push(cur@) + merge_procs(ls.drop_first(), ds) =~= out0 + merge_procs(
                    ls,
                    ds,
                ));
                assert(purged_pids(ls, ds) == purged_pids(ls.drop_first(), ds));
            }
            ci += 1;
        } else {
            let mut dead = dbp.clone();
            dead.is_alive = false;
            out.push(dead);
            proof {
                assert(out.deep_view() =~= out0.push(mark_dead(ds[0])));
                assert(merge_procs(ls, ds) == seq![mark_dead(ds[0])] + merge_procs(
                    ls,
                    ds.drop_first(),
                ));
                assert(out0.push(mark_dead(ds[0])) + merge_procs(ls, ds.drop_first()) =~= out0
                    + merge_procs(ls, ds));
                assert(purged_pids(ls, ds) == purged_pids(ls, ds.drop_first()));
            }
            di += 1;
        }
    }

    while ci < live.len()
        invariant
            *db == *old(db),
            ci <= live_dv.len(),
            di == old_dv.len() || ci == live_dv.len(),
            live.deep_view() == live_dv,
            old(db).processes.deep_view() == old_dv,
            out.deep_view() + merge_procs(live_dv.skip(ci as int), old_dv.skip(di as int))
                =~= merge_procs(live_dv, old_dv),
            purged@ + purged_pids(live_dv.skip(ci as int), old_dv.skip(di as int)) =~= purged_pids(
                live_dv,
                old_dv,
            ),
        decreases live_dv.len() - ci,
    {
        let ghost ls = live_dv.skip(ci as int);
        let ghost ds = old_dv.skip(di as int);
        let ghost out0 = out.deep_view();
        proof {
            assert(ds.len() == 0);
            assert(ls[0] == live_dv[ci as int]);
            assert(ls.drop_first() =~= live_dv.skip(ci as int + 1));
        }
        let cur = &live[ci];
        proof {
            assert(cur@ == live_dv[ci as int]);
        }
        out.push(cur.clone());
        proof {
            assert(out.deep_view() =~= out0.push(cur@));
            assert(merge_procs(ls, ds) == ls);
            assert(ls =~= seq![ls[0]] + ls.drop_first());
            assert(out0.push(cur@) + ls.drop_first() =~= out0 + ls);
            assert(purged_pids(ls, ds) == Seq::<u32>::empty());
            assert(purged_pids(ls.drop_first(), ds) == Seq::<u32>::empty());
        }
        ci += 1;
    }

    while di < db.processes.len()
        invariant
            *db == *old(db),
            ci == live_dv.len(),
            di <= old_dv.len(),
            live.deep_view() == live_dv,
            old(db).processes.deep_view() == old_dv,
            out.deep_view() + merge_procs(live_dv.skip(ci as int), old_dv.skip(di as int))
                =~= merge_procs(live_dv, old_dv),
            purged@ + purged_pids(live_dv.skip(ci as int), old_dv.skip(di as int)) =~= purged_pids(
                live_dv,
                old_dv,
            ),
        decreases old_dv.len() - di,
    {
        let ghost ls = live_dv.skip(ci as int);
        let ghost ds = old_dv.skip(di as int);
        let ghost out0 = out.deep_view();
        proof {
            assert(ls.len() == 0);
            assert(ds[0] == old_dv[di as int]);
            assert(ds.drop_first() =~= old_dv.skip(di as int + 1));
        }
        let dbp = &db.processes[di];
        proof {
            assert(dbp@ == old_dv[di as int]);
        }
        let mut dead = dbp.clone();
        dead.is_alive = false;
        out.push(dead);
        proof {
            assert(out.deep_view() =~= out0.push(mark_dead(ds[0])));
            assert(merge_procs(ls, ds) == ds.map_values(|p: ProcessView| mark_dead(p)));
            assert(merge_procs(ls, ds.drop_first()) == ds.drop_first().map_values(
                |p: ProcessView| mark_dead(p),
            ));
            assert(out0.push(mark_dead(ds[0])) + ds.drop_first().map_values(
                |p: ProcessView| mark_dead(p),
            ) =~= out0 + ds.map_values(|p: ProcessView| mark_dead(p)));
            assert(purged_pids(ls, ds) == Seq::<u32>::empty());
            assert(purged_pids(ls, ds.drop_first()) == Seq::<u32>::empty());
        }
        di += 1;
    }

    proof {
        assert(live_dv.skip(ci as int).len() == 0);
        assert(old_dv.skip(di as int).len() == 0);
        assert(merge_procs(live_dv.skip(ci as int), old_dv.skip(di as int))
            == live_dv.skip(ci as int));
        assert(out.deep_view() =~= merge_procs(live_dv, old_dv));
        assert(purged@ =~= purged_pids(live_dv, old_dv));
        lemma_purged_pids_iff(live_dv, old_dv);
        lemma_merge_procs_sorted(live_dv, old_dv);
    }

    db.processes = out;

    let ghost pred = |s: ProcStat| !replaced_pid(live_dv, old_dv, s.pid);
    let mut kept: Vec<ProcStat> = Vec::new();
    let mut i: usize = 0;
    proof {
        assert(db.proc_stats@.take(0) =~= Seq::<ProcStat>::empty());
    }
    while i < db.proc_stats.len()
        invariant
            i <= db.proc_stats@.len(),
            db.proc_stats@ == old(db).proc_stats@,
            purged@ == purged_pids(live_dv, old_dv),
            forall|p: u32| #[trigger] purged@.contains(p) <==> replaced_pid(live_dv, old_dv, p),
            pred == (|s: ProcStat| !replaced_pid(live_dv, old_dv, s.pid)),
            kept@ =~= keep(db.proc_stats@.take(i as int), pred),
        decreases db.proc_stats@.len() - i,
    {
        let s = db.proc_stats[i];
        let ghost taken = db.proc_stats@.take(i as int);
        proof {
            assert(db.proc_stats@.take(i as int + 1) =~= taken.push(s));
            crate::seq_util::lemma_keep_push(taken, pred, s);
        }
        if !contains_pid(&purged, s.pid) {
            kept.push(s);
        }
        i += 1;
    }
    proof {
        assert(db.proc_stats@.take(db.proc_stats@.len() as int) =~= db.proc_stats@);
        lemma_keep_properties(old(db).proc_stats@, pred);
    }
    db.proc_stats = kept;
}

/// Whether `s` holds a row with this pid but another start time: an earlier
/// process that reused the pid.
pub open spec fn has_pid_with_other_start(s: Seq<ProcessView>, pid: u32, start_time: i64) -> bool {
    exists|j: int|
        0 <= j < s.len() && (#[trigger] s[j]).pid == pid && s[j].start_time != start_time
}

/// The metadata rows of a live snapshot.
pub open spec fn infos(live: Seq<LiveProcessView>) -> Seq<ProcessView> {
    live.map_values(|p: LiveProcessView| p.info)
}

/// Replaces the row carrying `p`'s pid by `p`; rows with other pids stay.
pub open spec fn replace_by_pid(s: Seq<ProcessView>, p: ProcessView) -> Seq<ProcessView> {
    s.map_values(
        |q: ProcessView|
            if q.pid == p.pid {
                p
            } else {
                q
            },
    )
}

/// Inserts `p` into a pid-sorted table at its pid's place.
pub open spec fn insert_sorted(s: Seq<ProcessView>, p: ProcessView) -> Seq<ProcessView>
    decreases s.len(),
{
    if s.len() == 0 {
        seq![p]
    } else if p.pid < s[0].pid {
        seq![p] + s
    } else {
        seq![s[0]] + insert_sorted(s.drop_first(), p)
    }
}

/// What one live process does to the table during a steady-state pass, with
/// the decisions taken against `db0`, the table as it stood when the pass
/// began: replace a reused pid, insert an unknown one, leave the rest alone.
pub open spec fn update_step(s: Seq<ProcessView>, db0: Seq<ProcessView>, p: ProcessView) -> Seq<
    ProcessView,
> {
    if has_pid_with_other_start(db0, p.pid, p.start_time) {
        replace_by_pid(s, p)
    } else if !has_pid(db0, p.pid) {
        insert_sorted(s, p)
    } else {
        s
    }
}

/// Folds [`update_step`] over the live snapshot, in snapshot order.
pub open spec fn apply_live(
    s: Seq<ProcessView>,
    db0: Seq<ProcessView>,
    live: Seq<ProcessView>,
) -> Seq<ProcessView>
    decreases live.len(),
{
    if live.len() == 0 {
        s
    } else {
        apply_live(update_step(s, db0, live[0]), db0, live.drop_first())
    }
}

/// Settles every row's liveness from the snapshot: a row is alive exactly
/// when the live snapshot carries its pid.
pub open spec fn refresh_liveness(s: Seq<ProcessView>, live: Seq<ProcessView>) -> Seq<
    ProcessView,
> {
    s.map_values(
        |q: ProcessView|
            if has_pid(live, q.pid) {
                mark_alive(q)
            } else {
                mark_dead(q)
            },
    )
}

/// The sample a live process contributes at this tick.
pub open spec fn sample_of(p: LiveProcessView, cur_time: u64) -> ProcStat {
    ProcStat {
        pid: p.info.pid,
        timestamp: cur_time as i64,
        total_cpu: p.info.init_total_cpu,
        cpu_core: p.cpu_core,
        virtual_memory: p.virtual_memory,
        resident_memory: p.resident_memory,
        shared_memory: p.shared_memory,
    }
}

/// One sample per live process, in snapshot order.
pub open spec fn samples_of(live: Seq<LiveProcessView>, cur_time: u64) -> Seq<ProcStat> {
    live.map_values(|p: LiveProcessView| sample_of(p, cur_time))
}

/// Inserting an unknown pid into a sorted table keeps it sorted and adds
/// exactly that pid.
#[verifier::rlimit(80)]
pub proof fn lemma_insert_sorted(s: Seq<ProcessView>, p: ProcessView)
    requires
        procs_sorted(s),
        !has_pid(s, p.pid),
    ensures
        procs_sorted(insert_sorted(s, p)),
        forall|q: u32| has_pid(insert_sorted(s, p), q) <==> q == p.pid || has_pid(s, q),
        insert_sorted(s, p).len() == s.len() + 1,
    decreases s.len(),
{
    let out = insert_sorted(s, p);
    if s.len() == 0 {
        assert forall|q: u32| has_pid(out, q) <==> q == p.pid || has_pid(s, q) by {
            if q == p.pid {
                assert(out[0].pid == q);
            }
            if has_pid(out, q) {
                let k = choose|k: int| 0 <= k < out.len() && out[k].pid == q;
                assert(k == 0);
            }
        }
    } else if p.pid < s[0].pid {
        assert(out == seq![p] + s);
        assert forall|a: int, b: int| 0 <= a < b < out.len() implies out[a].pid < out[b].pid by {
            if a > 0 {
                assert(out[a] == s[a - 1] && out[b] == s[b - 1]);
            } else {
                assert(out[b] == s[b - 1]);
                if b > 1 {
                    assert(s[0].pid < s[b - 1].pid);
                }
            }
        }
        assert forall|q: u32| has_pid(out, q) <==> q == p.pid || has_pid(s, q) by {
            if has_pid(out, q) {
                let k = choose|k: int| 0 <= k < out.len() && out[k].pid == q;
                if k > 0 {
                    assert(s[k - 1].pid == q);
                }
            }
            if q == p.pid {
                assert(out[0].pid == q);
            }
            if has_pid(s, q) {
                let k = choose|k: int| 0 <= k < s.len() && s[k].pid == q;
                assert(out[k + 1].pid == q);
            }
        }
    } else {
        let st = s.drop_first();
        assert(forall|i: int| 0 <= i < st.len() ==> (#[trigger] st[i]) == s[i + 1]);
        assert(procs_sorted(st));
        assert(!has_pid(st, p.pid)) by {
            if has_pid(st, p.pid) {
                let k = choose|k: int| 0 <= k < st.len() && st[k].pid == p.pid;
                assert(s[k + 1].pid == p.pid);
            }
        }
        assert(p.pid != s[0].pid) by {
            if p.pid == s[0].pid {
                assert(s[0].pid == p.pid);
            }
        }
        lemma_insert_sorted(st, p);
        let rest = insert_sorted(st, p);
        assert(out == seq![s[0]] + rest);
        assert(forall|k: int| 0 <= k < rest.len() ==> out[k + 1] == #[trigger] rest[k]);
        assert forall|a: int, b: int| 0 <= a < b < out.len() implies out[a].pid < out[b].pid by {
            if a > 0 {
                assert(out[a] == rest[a - 1] && out[b] == rest[b - 1]);
            } else {
                // every pid in the extended tail is above the head's
                let q = out[b].pid;
                assert(rest[b - 1] == out[b]);
                assert(has_pid(rest, q));
                if q == p.pid {
                    assert(s[0].pid < p.pid);
                } else {
                    assert(has_pid(st, q));
                    let k = choose|k: int| 0 <= k < st.len() && st[k].pid == q;
                    assert(s[k + 1].pid == q);
                }
            }
        }
        assert forall|q: u32| has_pid(out, q) <==> q == p.pid || has_pid(s, q) by {
            if has_pid(out, q) {
                let k = choose|k: int| 0 <= k < out.len() && out[k].pid == q;
                if k > 0 {
                    assert(rest[k - 1].pid == q);
                    assert(has_pid(rest, q));
                    if q != p.pid {
                        assert(has_pid(st, q));
                        let t = choose|t: int| 0 <= t < st.len() && st[t].pid == q;
                        assert(s[t + 1].pid == q);
                    }
                }
            }
            if q == p.pid {
                assert(has_pid(rest, q));
                let k = choose|k: int| 0 <= k < rest.len() && rest[k].pid == q;
                assert(out[k + 1].pid == q);
            }
            if has_pid(s, q) {
                let k = choose|k: int| 0 <= k < s.len() && s[k].pid == q;
                if k == 0 {
                    assert(out[0].pid == q);
                } else {
                    assert(st[k - 1].pid == q);
                    assert(has_pid(st, q));
                    assert(has_pid(rest, q));
                    let t = choose|t: int| 0 <= t < rest.len() && rest[t].pid == q;
                    assert(out[t + 1].pid == q);
                }
            }
        }
    }
}

/// Where the pids below `idx` are all under `p`'s and those from `idx` on are
/// all above it, the sorted insertion lands exactly at `idx`.
pub proof fn lemma_insert_sorted_at(s: Seq<ProcessView>, p: ProcessView, idx: int)
    requires
        0 <= idx <= s.len(),
        forall|k: int| 0 <= k < idx ==> (#[trigger] s[k]).pid < p.pid,
        forall|k: int| idx <= k < s.len() ==> p.pid < (#[trigger] s[k]).pid,
    ensures
        insert_sorted(s, p) =~= s.insert(idx, p),
    decreases s.len(),
{
    if idx == 0 {
        if s.len() > 0 {
            assert(p.pid < s[0].pid);
        }
    } else {
        let st = s.drop_first();
        assert(forall|i: int| 0 <= i < st.len() ==> (#[trigger] st[i]) == s[i + 1]);
        lemma_insert_sorted_at(st, p, idx - 1);
        assert(insert_sorted(s, p) == seq![s[0]] + insert_sorted(st, p));
    }
}

/// A steady-state pass on a sorted table keeps it sorted, provided the live
/// pids are distinct and the working table still agrees with the pass's
/// entry snapshot `db0` on which of those pids it holds.
pub proof fn lemma_apply_live_sorted(
    s: Seq<ProcessView>,
    db0: Seq<ProcessView>,
    live: Seq<ProcessView>,
)
    requires
        procs_sorted(s),
        forall|i: int, j: int|
            0 <= i < j < live.len() ==> (#[trigger] live[i]).pid != (#[trigger] live[j]).pid,
        forall|k: int|
            0 <= k < live.len() ==> (has_pid(s, (#[trigger] live[k]).pid) <==> has_pid(
                db0,
                live[k].pid,
            )),
    ensures
        procs_sorted(apply_live(s, db0, live)),
    decreases live.len(),
{
    if live.len() > 0 {
        let p = live[0];
        let lt = live.drop_first();
        assert(forall|i: int| 0 <= i < lt.len() ==> (#[trigger] lt[i]) == live[i + 1]);
        let s2 = update_step(s, db0, p);
        if has_pid_with_other_start(db0, p.pid, p.start_time) {
            assert(s2 == replace_by_pid(s, p));
            assert(forall|i: int| 0 <= i < s2.len() ==> (#[trigger] s2[i]).pid == s[i].pid);
            assert(procs_sorted(s2));
            assert forall|k: int|
                0 <= k < lt.len() implies (has_pid(s2, (#[trigger] lt[k]).pid) <==> has_pid(
                db0,
                lt[k].pid,
            )) by {
                assert(has_pid(s2, lt[k].pid) <==> has_pid(s, lt[k].pid)) by {
                    if has_pid(s2, lt[k].pid) {
                        let t = choose|t: int| 0 <= t < s2.len() && s2[t].pid == lt[k].pid;
                        assert(s[t].pid == lt[k].pid);
                    }
                    if has_pid(s, lt[k].pid) {
                        let t = choose|t: int| 0 <= t < s.len() && s[t].pid == lt[k].pid;
                        assert(s2[t].pid == lt[k].pid);
                    }
                }
                assert(has_pid(s, lt[k].pid) <==> has_pid(db0, lt[k].pid));
            }
            lemma_apply_live_sorted(s2, db0, lt);
        } else if !has_pid(db0, p.pid) {
            assert(!has_pid(s, p.pid));
            lemma_insert_sorted(s, p);
            assert(s2 == insert_sorted(s, p));
            assert forall|k: int|
                0 <= k < lt.len() implies (has_pid(s2, (#[trigger] lt[k]).pid) <==> has_pid(
                db0,
                lt[k].pid,
            )) by {
                assert(live[k + 1] == lt[k]);
                assert(lt[k].pid != p.pid);
                assert(has_pid(s2, lt[k].pid) <==> lt[k].pid == p.pid || has_pid(s, lt[k].pid));
            }
            lemma_apply_live_sorted(s2, db0, lt);
        } else {
            assert(s2 == s);
            assert forall|k: int|
                0 <= k < lt.len() implies (has_pid(s2, (#[trigger] lt[k]).pid) <==> has_pid(
                db0,
                lt[k].pid,
            )) by {
                assert(live[k + 1] == lt[k]);
            }
            lemma_apply_live_sorted(s2, db0, lt);
        }
    }
}

/// Whether some persisted row reuses this pid under another start time.
fn find_pid_with_other_start(procs: &Vec<Process>, pid: u32, start_time: i64) -> (r: bool)
    ensures
        r == has_pid_with_other_start(procs.deep_view(), pid, start_time),
{
    let mut i: usize = 0;
    while i < procs.len()
        invariant
            i <= procs@.len(),
            procs.deep_view().len() == procs@.len(),
            forall|k: int|
                0 <= k < i ==> !((#[trigger] procs.deep_view()[k]).pid == pid
                    && procs.deep_view()[k].start_time != start_time),
        decreases procs@.len() - i,
    {
        if procs[i].pid == pid && procs[i].start_time != start_time {
            proof {
                assert(procs.deep_view()[i as int] == procs@[i as int]@);
            }
            return true;
        }
        proof {
            assert(procs.deep_view()[i as int] == procs@[i as int]@);
        }
        i += 1;
    }
    false
}

/// Whether some persisted row carries this pid.
fn find_pid(procs: &Vec<Process>, pid: u32) -> (r: bool)
    ensures
        r == has_pid(procs.deep_view(), pid),
{
    let mut i: usize = 0;
    while i < procs.len()
        invariant
            i <= procs@.len(),
            procs.deep_view().len() == procs@.len(),
            forall|k: int| 0 <= k < i ==> (#[trigger] procs.deep_view()[k]).pid != pid,
        decreases procs@.len() - i,
    {
        if procs[i].pid == pid {
            proof {
                assert(procs.deep_view()[i as int] == procs@[i as int]@);
            }
            return true;
        }
        proof {
            assert(procs.deep_view()[i as int] == procs@[i as int]@);
        }
        i += 1;
    }
    false
}

/// Replaces the row carrying `p`'s pid by `p`, in place in table order.
fn replace_proc_by_pid(procs: &mut Vec<Process>, p: &Process)
    ensures
        final(procs).deep_view() == replace_by_pid(old(procs).deep_view(), p@),
{
    let mut out: Vec<Process> = Vec::new();
    let mut i: usize = 0;
    while i < procs.len()
        invariant
            i <= procs@.len(),
            procs@ == old(procs)@,
            out.deep_view() =~= replace_by_pid(old(procs).deep_view(), p@).take(i as int),
        decreases procs@.len() - i,
    {
        proof {
            assert(procs.deep_view()[i as int] == procs@[i as int]@);
        }
        let ghost out0 = out.deep_view();
        if procs[i].pid == p.pid {
            out.push(p.clone());
            proof {
                assert(out.deep_view() =~= out0.push(p@));
            }
        } else {
            out.push(procs[i].clone());
            proof {
                assert(out.deep_view() =~= out0.push(procs.deep_view()[i as int]));
            }
        }
        proof {
            assert(out.deep_view() =~= replace_by_pid(old(procs).deep_view(), p@).take(
                i as int + 1,
            ));
        }
        i += 1;
    }
    proof {
        assert(out.deep_view() =~= replace_by_pid(old(procs).deep_view(), p@));
    }
    *procs = out;
}

/// Inserts a row whose pid the sorted table does not hold yet, keeping the
/// order.
fn insert_proc_sorted(procs: &mut Vec<Process>, p: Process)
    requires
        procs_sorted(old(procs).deep_view()),
        !has_pid(old(procs).deep_view(), p@.pid),
    ensures
        final(procs).deep_view() == insert_sorted(old(procs).deep_view(), p@),
{
    let ghost dv = procs.deep_view();
    let mut idx: usize = 0;
    while idx < procs.len() && procs[idx].pid < p.pid
        invariant
            idx <= procs@.len(),
            procs@ == old(procs)@,
            dv == procs.deep_view(),
            forall|k: int| 0 <= k < idx ==> (#[trigger] dv[k]).pid < p@.pid,
        decreases procs@.len() - idx,
    {
        proof {
            assert(dv[idx as int] == procs@[idx as int]@);
        }
        idx += 1;
    }
    proof {
        assert(dv.len() == procs@.len());
        if idx < procs@.len() {
            assert(dv[idx as int] == procs@[idx as int]@);
            assert(dv[idx as int].pid >= p@.pid);
            assert(dv[idx as int].pid != p@.pid);
        }
        assert forall|k: int| idx <= k < dv.len() implies p@.pid < (#[trigger] dv[k]).pid by {
            if k > idx {
                assert(dv[idx as int].pid < dv[k].pid);
            }
            assert(dv[k].pid != p@.pid);
        }
        lemma_insert_sorted_at(dv, p@, idx as int);
    }
    procs.insert(idx, p);
    proof {
        assert(procs.deep_view() =~= dv.insert(idx as int, procs@[idx as int]@));
    }
}

/// Sorted insertion loses no row and gains the inserted one.
proof fn lemma_insert_sorted_contains(s: Seq<ProcessView>, p: ProcessView)
    ensures
        insert_sorted(s, p).contains(p),
        forall|x: ProcessView| s.contains(x) ==> insert_sorted(s, p).contains(x),
    decreases s.len(),
{
    let out = insert_sorted(s, p);
    if s.len() == 0 {
        assert(out[0] == p);
    } else if p.pid < s[0].pid {
        assert(out[0] == p);
        assert forall|x: ProcessView| s.contains(x) implies out.contains(x) by {
            let t = choose|t: int| 0 <= t < s.len() && s[t] == x;
            assert(out[t + 1] == x);
        }
    } else {
        let st = s.drop_first();
        assert(forall|k: int| 0 <= k < st.len() ==> (#[trigger] st[k]) == s[k + 1]);
        lemma_insert_sorted_contains(st, p);
        let rest = insert_sorted(st, p);
        assert(out == seq![s[0]] + rest);
        assert(forall|k: int| 0 <= k < rest.len() ==> out[k + 1] == #[trigger] rest[k]);
        assert(rest.contains(p));
        let k = choose|k: int| 0 <= k < rest.len() && rest[k] == p;
        assert(out[k + 1] == p);
        assert forall|x: ProcessView| s.contains(x) implies out.contains(x) by {
            let t = choose|t: int| 0 <= t < s.len() && s[t] == x;
            if t == 0 {
                assert(out[0] == x);
            } else {
                assert(st[t - 1] == x);
                assert(st.contains(x));
                assert(rest.contains(x));
                let u = choose|u: int| 0 <= u < rest.len() && rest[u] == x;
                assert(out[u + 1] == x);
            }
        }
    }
}

/// One update step for a live process of another pid leaves a row in place.
proof fn lemma_update_step_keeps_row(
    s: Seq<ProcessView>,
    db0: Seq<ProcessView>,
    q: ProcessView,
    row: ProcessView,
)
    requires
        s.contains(row),
        q.pid != row.pid,
    ensures
        update_step(s, db0, q).contains(row),
{
    let out = update_step(s, db0, q);
    if has_pid_with_other_start(db0, q.pid, q.start_time) {
        let t = choose|t: int| 0 <= t < s.len() && s[t] == row;
        assert(out[t] == row);
    } else if !has_pid(db0, q.pid) {
        lemma_insert_sorted_contains(s, q);
    }
}

/// A whole pass over live processes of other pids leaves a row in place.
proof fn lemma_apply_live_keeps_row(
    s: Seq<ProcessView>,
    db0: Seq<ProcessView>,
    live: Seq<ProcessView>,
    row: ProcessView,
)
    requires
        s.contains(row),
        forall|k: int| 0 <= k < live.len() ==> (#[trigger] live[k]).pid != row.pid,
    ensures
        apply_live(s, db0, live).contains(row),
    decreases live.len(),
{
    if live.len() > 0 {
        lemma_update_step_keeps_row(s, db0, live[0], row);
        let lt = live.drop_first();
        assert(forall|k: int| 0 <= k < lt.len() ==> (#[trigger] lt[k]) == live[k + 1]);
        lemma_apply_live_keeps_row(update_step(s, db0, live[0]), db0, lt, row);
    }
}

/// When the entry snapshot holds a live process's pid under another start
/// time, the pass puts the live row in the table and nothing later in the
/// pass disturbs it.
proof fn lemma_apply_live_replaces(
    s: Seq<ProcessView>,
    db0: Seq<ProcessView>,
    live: Seq<ProcessView>,
    i: int,
)
    requires
        forall|a: int, b: int|
            0 <= a < b < live.len() ==> (#[trigger] live[a]).pid != (#[trigger] live[b]).pid,
        0 <= i < live.len(),
        has_pid_with_other_start(db0, live[i].pid, live[i].start_time),
        has_pid(s, live[i].pid),
    ensures
        apply_live(s, db0, live).contains(live[i]),
    decreases live.len(),
{
    let p = live[0];
    let lt = live.drop_first();
    assert(forall|k: int| 0 <= k < lt.len() ==> (#[trigger] lt[k]) == live[k + 1]);
    let s2 = update_step(s, db0, p);
    if i == 0 {
        assert(s2 == replace_by_pid(s, p));
        let t = choose|t: int| 0 <= t < s.len() && (#[trigger] s[t]).pid == p.pid;
        assert(s2[t] == p);
        assert(s2.contains(p));
        assert(forall|k: int| 0 <= k < lt.len() ==> (#[trigger] lt[k]).pid != p.pid);
        lemma_apply_live_keeps_row(s2, db0, lt, p);
    } else {
        assert(live[i].pid != p.pid);
        assert(has_pid(s2, live[i].pid)) by {
            let t = choose|t: int| 0 <= t < s.len() && (#[trigger] s[t]).pid == live[i].pid;
            if has_pid_with_other_start(db0, p.pid, p.start_time) {
                assert(s2[t] == s[t]);
            } else if !has_pid(db0, p.pid) {
                lemma_insert_sorted_contains(s, p);
                assert(s.contains(s[t]));
                assert(s2.contains(s[t]));
                let u = choose|u: int| 0 <= u < s2.len() && s2[u] == s[t];
                assert(s2[u].pid == live[i].pid);
            } else {
                assert(s2[t] == s[t]);
            }
        }
        assert(lt[i - 1] == live[i]);
        lemma_apply_live_replaces(s2, db0, lt, i - 1);
    }
}

/// Identity replacement is destructive in the steady-state pass too: when a
/// persisted row reuses a live process's pid under another start time, the
/// pass ends with a record carrying the live identity, alive; the table is
/// still sorted, so that record is the pid's only one; the pid counts as
/// replaced, so the pass's sample filter drops every earlier sample of it;
/// and the pid's fresh sample of this tick is among those appended.
pub proof fn lemma_update_identity_replacement(
    live: Seq<LiveProcessView>,
    db0: Seq<ProcessView>,
    cur_time: u64,
    i: int,
)
    requires
        procs_sorted(db0),
        forall|a: int, b: int|
            0 <= a < b < live.len() ==> (#[trigger] live[a]).info.pid != (
            #[trigger] live[b]).info.pid,
        0 <= i < live.len(),
        has_pid_with_other_start(db0, live[i].info.pid, live[i].info.start_time),
    ensures
        refresh_liveness(apply_live(db0, db0, infos(live)), infos(live)).contains(
            mark_alive(live[i].info),
        ),
        procs_sorted(refresh_liveness(apply_live(db0, db0, infos(live)), infos(live))),
        replaced_pid(infos(live), db0, live[i].info.pid),
        samples_of(live, cur_time)[i] == sample_of(live[i], cur_time),
{
    let linfos = infos(live);
    assert(forall|k: int| 0 <= k < live.len() ==> (#[trigger] linfos[k]) == live[k].info);
    assert forall|a: int, b: int| 0 <= a < b < linfos.len() implies (#[trigger] linfos[a]).pid != (
    #[trigger] linfos[b]).pid by {
        assert(linfos[a] == live[a].info && linfos[b] == live[b].info);
    }
    let j = choose|j: int|
        0 <= j < db0.len() && (#[trigger] db0[j]).pid == linfos[i].pid && db0[j].start_time
            != linfos[i].start_time;
    assert(has_pid(db0, linfos[i].pid));
    lemma_apply_live_replaces(db0, db0, linfos, i);
    let applied = apply_live(db0, db0, linfos);
    let refreshed = refresh_liveness(applied, linfos);
    let t = choose|t: int| 0 <= t < applied.len() && applied[t] == linfos[i];
    assert(has_pid(linfos, linfos[i].pid)) by {
        assert(linfos[i].pid == linfos[i].pid);
    }
    assert(refreshed[t] == mark_alive(linfos[i]));
    assert(refreshed.contains(mark_alive(live[i].info)));
    assert forall|k: int| 0 <= k < linfos.len() implies (has_pid(
        db0,
        (#[trigger] linfos[k]).pid,
    ) <==> has_pid(db0, linfos[k].pid)) by {}
    lemma_apply_live_sorted(db0, db0, linfos);
    assert(forall|k: int| 0 <= k < refreshed.len() ==> (#[trigger] refreshed[k]).pid
        == applied[k].pid);
    assert(procs_sorted(refreshed));
    assert(replaced_pid(linfos, db0, linfos[i].pid)) by {
        assert(linfos[i].pid == db0[j].pid && linfos[i].start_time != db0[j].start_time);
    }
}

/// One steady-state pass over the process tables.
///
/// For each live process: a persisted record under the same pid but another
/// start time is replaced and its samples purged; a pid with no record is
/// inserted; a record matching on pid and start time keeps its stored
/// metadata. One sample per live process is appended at `cur_time`, and then
/// every record's liveness is settled from the snapshot: alive exactly when
/// its pid is live ([`refresh_liveness`]). Decisions are taken against the
/// table as it stood when the pass began, as [`update_step`] states. No
/// other table is touched.
pub fn update_process_data(db: &mut Database, cur_time: u64, live: &Vec<LiveProcess>)
    requires
        old(db).wf(),
        cur_time <= i64::MAX as u64,
        forall|i: int, j: int|
            0 <= i < j < live.deep_view().len() ==> (#[trigger] live.deep_view()[i]).info.pid != (
            #[trigger] live.deep_view()[j]).info.pid,
    ensures
        final(db).wf(),
        final(db).processes.deep_view() == refresh_liveness(
            apply_live(
                old(db).processes.deep_view(),
                old(db).processes.deep_view(),
                infos(live.deep_view()),
            ),
            infos(live.deep_view()),
        ),
        final(db).proc_stats@ == keep(
            old(db).proc_stats@,
            |s: ProcStat|
                !replaced_pid(infos(live.deep_view()), old(db).processes.deep_view(), s.pid),
        ) + samples_of(live.deep_view(), cur_time),
        final(db).cpus == old(db).cpus,
        final(db).cpu_stats == old(db).cpu_stats,
        final(db).memory == old(db).memory,
        final(db).disks == old(db).disks,
        final(db).disk_stats == old(db).disk_stats,
        final(db).interfaces == old(db).interfaces,
        final(db).network_stats == old(db).network_stats,
{
    let ghost live_dv = live.deep_view();
    let ghost linfos = infos(live.deep_view());
    let ghost db0 = old(db).processes.deep_view();
    proof {
        assert(forall|i: int| 0 <= i < live_dv.len() ==> (#[trigger] linfos[i]) == live_dv[i].info);
    }

    // Decide every action against the entry snapshot, before any write.
    let mut replace_flags: Vec<bool> = Vec::new();
    let mut insert_flags: Vec<bool> = Vec::new();
    let mut purged: Vec<u32> = Vec::new();
    let mut k: usize = 0;
    while k < live.len()
        invariant
            *db == *old(db),
            live.deep_view() == live_dv,
            linfos == infos(live_dv),
            db0 == old(db).processes.deep_view(),
            k <= live_dv.len(),
            live_dv.len() == live@.len(),
            replace_flags@.len() == k,
            insert_flags@.len() == k,
            forall|t: int|
                0 <= t < k ==> replace_flags@[t] == has_pid_with_other_start(
                    db0,
                    (#[trigger] linfos[t]).pid,
                    linfos[t].start_time,
                ),
            forall|t: int|
                0 <= t < k ==> insert_flags@[t] == (!has_pid_with_other_start(
                    db0,
                    (#[trigger] linfos[t]).pid,
                    linfos[t].start_time,
                ) && !has_pid(db0, linfos[t].pid)),
            forall|q: u32|
                #[trigger] purged@.contains(q) <==> replaced_pid(linfos.take(k as int), db0, q),
        decreases live_dv.len() - k,
    {
        proof {
            assert(live_dv[k as int] == live@[k as int]@);
        }
        let ghost purged0 = purged@;
        let r = find_pid_with_other_start(&db.processes, live[k].info.pid, live[k].info.start_time);
        let ins = if r {
            false
        } else {
            !find_pid(&db.processes, live[k].info.pid)
        };
        if r {
            purged.push(live[k].info.pid);
        }
        replace_flags.push(r);
        insert_flags.push(ins);
        proof {
            let tk = linfos.take(k as int);
            let tk1 = linfos.take(k as int + 1);
            assert(tk1 =~= tk.push(linfos[k as int]));
            assert forall|q: u32| #[trigger] purged@.contains(q) <==> replaced_pid(
                tk1,
                db0,
                q,
            ) by {
                if purged@.contains(q) {
                    if purged0.contains(q) {
                        assert(replaced_pid(tk, db0, q));
                        let (i, j): (int, int) = choose|i: int, j: int|
                            #![trigger tk[i], db0[j]]
                            0 <= i < tk.len() && 0 <= j < db0.len() && tk[i].pid == q && db0[j].pid
                                == q && tk[i].start_time != db0[j].start_time;
                        assert(tk1[i] == tk[i]);
                        assert(replaced_pid(tk1, db0, q));
                    } else {
                        assert(r && q == linfos[k as int].pid);
                        let j = choose|j: int|
                            0 <= j < db0.len() && (#[trigger] db0[j]).pid == q && db0[j].start_time
                                != linfos[k as int].start_time;
                        assert(tk1[k as int] == linfos[k as int]);
                        assert(replaced_pid(tk1, db0, q));
                    }
                }
                if replaced_pid(tk1, db0, q) {
                    let (i, j): (int, int) = choose|i: int, j: int|
                        #![trigger tk1[i], db0[j]]
                        0 <= i < tk1.len() && 0 <= j < db0.len() && tk1[i].pid == q && db0[j].pid
                            == q && tk1[i].start_time != db0[j].start_time;
                    if i < k as int {
                        assert(tk[i] == tk1[i]);
                        assert(replaced_pid(tk, db0, q));
                        assert(purged0.contains(q));
                        let t = choose|t: int| 0 <= t < purged0.len() && purged0[t] == q;
                        assert(purged@[t] == q);
                    } else {
                        assert(tk1[i] == linfos[k as int]);
                        assert(has_pid_with_other_start(db0, q, linfos[k as int].start_time));
                        assert(r);
                        assert(purged@[purged@.len() - 1] == q);
                    }
                }
            }
        }
        k += 1;
    }
    proof {
        assert(linfos.take(live_dv.len() as int) =~= linfos);
    }

    // Apply the decided writes to the table, in snapshot order.
    let mut k: usize = 0;
    proof {
        assert(linfos.skip(0) =~= linfos);
        assert(db.processes.deep_view() == db0);
        assert forall|t: int| 0 <= t < linfos.len() implies (has_pid(
            db.processes.deep_view(),
            (#[trigger] linfos[t]).pid,
        ) <==> has_pid(db0, linfos[t].pid)) by {
            assert(db.processes.deep_view() == db0);
        }
    }
    while k < live.len()
        invariant
            live.deep_view() == live_dv,
            linfos == infos(live_dv),
            db0 == old(db).processes.deep_view(),
            k <= live_dv.len(),
            live_dv.len() == live@.len(),
            replace_flags@.len() == live_dv.len(),
            insert_flags@.len() == live_dv.len(),
            forall|t: int|
                0 <= t < live_dv.len() ==> replace_flags@[t] == has_pid_with_other_start(
                    db0,
                    (#[trigger] linfos[t]).pid,
                    linfos[t].start_time,
                ),
            forall|t: int|
                0 <= t < live_dv.len() ==> insert_flags@[t] == (!has_pid_with_other_start(
                    db0,
                    (#[trigger] linfos[t]).pid,
                    linfos[t].start_time,
                ) && !has_pid(db0, linfos[t].pid)),
            forall|i: int, j: int|
                0 <= i < j < linfos.len() ==> (#[trigger] linfos[i]).pid != (
                #[trigger] linfos[j]).pid,
            procs_sorted(db.processes.deep_view()),
            forall|t: int|
                k <= t < linfos.len() ==> (has_pid(
                    db.processes.deep_view(),
                    (#[trigger] linfos[t]).pid,
                ) <==> has_pid(db0, linfos[t].pid)),
            apply_live(db.processes.deep_view(), db0, linfos.skip(k as int)) == apply_live(
                db0,
                db0,
                linfos,
            ),
            db.proc_stats == old(db).proc_stats,
            db.cpus == old(db).cpus,
            db.cpu_stats == old(db).cpu_stats,
            db.memory == old(db).memory,
            db.disks == old(db).disks,
            db.disk_stats == old(db).disk_stats,
            db.interfaces == old(db).interfaces,
            db.network_stats == old(db).network_stats,
        decreases live_dv.len() - k,
    {
        let ghost cur = db.processes.deep_view();
        let ghost ls = linfos.skip(k as int);
        proof {
            assert(ls[0] == linfos[k as int]);
            assert(ls.drop_first() =~= linfos.skip(k as int + 1));
            assert(live_dv[k as int] == live@[k as int]@);
            assert(linfos[k as int] == live_dv[k as int].info);
        }
        if replace_flags[k] {
            replace_proc_by_pid(&mut db.processes, &live[k].info);
            proof {
                assert(update_step(cur, db0, linfos[k as int]) == db.processes.deep_view());
            }
        } else if insert_flags[k] {
            proof {
                assert(has_pid(cur, linfos[k as int].pid) <==> has_pid(db0, linfos[k as int].pid));
            }
            insert_proc_sorted(&mut db.processes, live[k].info.clone());
            proof {
                assert(update_step(cur, db0, linfos[k as int]) == db.processes.deep_view());
            }
        } else {
            proof {
                assert(update_step(cur, db0, linfos[k as int]) == db.processes.deep_view());
            }
        }
        proof {
            let cur2 = db.processes.deep_view();
            assert(apply_live(cur, db0, ls) == apply_live(cur2, db0, ls.drop_first()));
            // Sortedness and pid agreement carry to the next iteration.
            if replace_flags@[k as int] {
                assert(forall|i: int|
                    0 <= i < cur2.len() ==> (#[trigger] cur2[i]).pid == cur[i].pid);
                assert(procs_sorted(cur2));
                assert forall|t: int|
                    k + 1 <= t < linfos.len() implies (has_pid(cur2, (#[trigger] linfos[t]).pid)
                    <==> has_pid(db0, linfos[t].pid)) by {
                    assert(has_pid(cur2, linfos[t].pid) <==> has_pid(cur, linfos[t].pid)) by {
                        if has_pid(cur2, linfos[t].pid) {
                            let u = choose|u: int| 0 <= u < cur2.len() && cur2[u].pid
                                == linfos[t].pid;
                            assert(cur[u].pid == linfos[t].pid);
                        }
                        if has_pid(cur, linfos[t].pid) {
                            let u = choose|u: int| 0 <= u < cur.len() && cur[u].pid
                                == linfos[t].pid;
                            assert(cur2[u].pid == linfos[t].pid);
                        }
                    }
                }
            } else if insert_flags@[k as int] {
                lemma_insert_sorted(cur, linfos[k as int]);
                assert forall|t: int|
                    k + 1 <= t < linfos.len() implies (has_pid(cur2, (#[trigger] linfos[t]).pid)
                    <==> has_pid(db0, linfos[t].pid)) by {
                    assert(linfos[t].pid != linfos[k as int].pid);
                    assert(has_pid(cur2, linfos[t].pid) <==> linfos[t].pid == linfos[k as int].pid
                        || has_pid(cur, linfos[t].pid));
                }
            }
        }
        k += 1;
    }
    proof {
        assert(linfos.skip(live_dv.len() as int).len() == 0);
        assert(apply_live(db.processes.deep_view(), db0, linfos.skip(live_dv.len() as int))
            == db.processes.deep_view());
    }

    // Purge the samples of every replaced identity.
    let ghost pred = |s: ProcStat| !replaced_pid(linfos, db0, s.pid);
    let mut kept: Vec<ProcStat> = Vec::new();
    let mut i: usize = 0;
    proof {
        assert(db.proc_stats@.take(0) =~= Seq::<ProcStat>::empty());
    }
    while i < db.proc_stats.len()
        invariant
            i <= db.proc_stats@.len(),
            db.proc_stats@ == old(db).proc_stats@,
            forall|q: u32| #[trigger] purged@.contains(q) <==> replaced_pid(linfos, db0, q),
            pred == (|s: ProcStat| !replaced_pid(linfos, db0, s.pid)),
            kept@ =~= keep(db.proc_stats@.take(i as int), pred),
        decreases db.proc_stats@.len() - i,
    {
        let s = db.proc_stats[i];
        let ghost taken = db.proc_stats@.take(i as int);
        proof {
            assert(db.proc_stats@.take(i as int + 1) =~= taken.push(s));
            crate::seq_util::lemma_keep_push(taken, pred, s);
        }
        if !contains_pid(&purged, s.pid) {
            kept.push(s);
        }
        i += 1;
    }
    proof {
        assert(db.proc_stats@.take(db.proc_stats@.len() as int) =~= db.proc_stats@);
    }
    db.proc_stats = kept;

    // Append one sample per live process at this tick.
    let mut k: usize = 0;
    let ghost stats_base = db.proc_stats@;
    while k < live.len()
        invariant
            live.deep_view() == live_dv,
            live_dv.len() == live@.len(),
            k <= live_dv.len(),
            cur_time <= i64::MAX as u64,
            db.proc_stats@ =~= stats_base + samples_of(live_dv.take(k as int), cur_time),
            db.cpus == old(db).cpus,
            db.cpu_stats == old(db).cpu_stats,
            db.memory == old(db).memory,
            db.disks == old(db).disks,
            db.disk_stats == old(db).disk_stats,
            db.interfaces == old(db).interfaces,
            db.network_stats == old(db).network_stats,
            procs_sorted(db.processes.deep_view()),
            db.processes.deep_view() == apply_live(db0, db0, linfos),
        decreases live_dv.len() - k,
    {
        proof {
            assert(live_dv[k as int] == live@[k as int]@);
        }
        let p = &live[k];
        let stat = ProcStat {
            pid: p.info.pid,
            timestamp: cur_time as i64,
            total_cpu: p.info.init_total_cpu,
            cpu_core: p.cpu_core,
            virtual_memory: p.virtual_memory,
            resident_memory: p.resident_memory,
            shared_memory: p.shared_memory,
        };
        db.proc_stats.push(stat);
        proof {
            assert(live_dv.take(k as int + 1) =~= live_dv.take(k as int).push(live_dv[k as int]));
            assert(samples_of(live_dv.take(k as int + 1), cur_time) =~= samples_of(
                live_dv.take(k as int),
                cur_time,
            ).push(sample_of(live_dv[k as int], cur_time)));
            assert(stat == sample_of(live_dv[k as int], cur_time));
        }
        k += 1;
    }
    proof {
        assert(live_dv.take(live_dv.len() as int) =~= live_dv);
    }

    // Mark everything the snapshot does not carry as dead.
    let ghost procs_mid = db.processes.deep_view();
    let mut out: Vec<Process> = Vec::new();
    let mut i: usize = 0;
    while i < db.processes.len()
        invariant
            live.deep_view() == live_dv,
            linfos == infos(live_dv),
            i <= db.processes@.len(),
            procs_mid == db.processes.deep_view(),
            procs_mid.len() == db.processes@.len(),
            out.deep_view() =~= refresh_liveness(procs_mid, linfos).take(i as int),
        decreases db.processes@.len() - i,
    {
        proof {
            assert(procs_mid[i as int] == db.processes@[i as int]@);
        }
        let ghost out0 = out.deep_view();
        let alive_now = live_has_pid(live, db.processes[i].pid);
        let mut row = db.processes[i].clone();
        row.is_alive = alive_now;
        out.push(row);
        proof {
            if has_pid(linfos, procs_mid[i as int].pid) {
                assert(out.deep_view() =~= out0.push(mark_alive(procs_mid[i as int])));
            } else {
                assert(out.deep_view() =~= out0.push(mark_dead(procs_mid[i as int])));
            }
            assert(out.deep_view() =~= refresh_liveness(procs_mid, linfos).take(i as int + 1));
        }
        i += 1;
    }
    proof {
        assert(out.deep_view() =~= refresh_liveness(procs_mid, linfos));
        // pids are untouched by the marking, so order is kept
        assert(forall|t: int|
            0 <= t < out.deep_view().len() ==> (#[trigger] out.deep_view()[t]).pid
                == procs_mid[t].pid);
        lemma_apply_live_sorted(db0, db0, linfos);
    }
    db.processes = out;
}

/// Whether the live snapshot carries this pid.
fn live_has_pid(live: &Vec<LiveProcess>, pid: u32) -> (r: bool)
    ensures
        r == has_pid(infos(live.deep_view()), pid),
{
    let ghost linfos = infos(live.deep_view());
    let mut i: usize = 0;
    while i < live.len()
        invariant
            i <= live@.len(),
            linfos == infos(live.deep_view()),
            linfos.len() == live@.len(),
            forall|k: int| 0 <= k < i ==> (#[trigger] linfos[k]).pid != pid,
        decreases live@.len() - i,
    {
        proof {
            assert(linfos[i as int] == live@[i as int]@.info);
        }
        if live[i].info.pid == pid {
            return true;
        }
        i += 1;
    }
    false
}

} // verus!
