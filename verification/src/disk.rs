//! Disk reconciliation.
//!
//! Devices are keyed by name. Every pass upserts the live devices and then
//! hard-deletes whatever the live enumeration no longer shows — samples
//! first, then the device row, so no sample ever dangles.

use vstd::prelude::*;

use crate::database::{disk_names_unique, Database};
use crate::seq_util::{keep, lemma_keep_all, lemma_keep_distributes, lemma_keep_properties,
    lemma_keep_push};
use crate::tables::{Disk, DiskStat, DiskStatView, DiskView};

verus! {

/// Mathematical view of a [`DiskMetrics`].
pub ghost struct DiskMetricsView {
    pub name: Seq<char>,
    pub mount: Seq<char>,
    pub file_system_type: Seq<char>,
    pub used: u32,
    pub available: u32,
}

/// One live disk as the enumeration reports it.
#[derive(Debug)]
pub struct DiskMetrics {
    /// Name of the disk device.
    pub name: String,
    /// Folder the device is mounted to.
    pub mount: String,
    /// Type of the file system.
    pub file_system_type: String,
    /// Used space in MB.
    pub used: u32,
    /// Available space in MB.
    pub available: u32,
}

impl View for DiskMetrics {
    type V = DiskMetricsView;

    open spec fn view(&self) -> DiskMetricsView {
        DiskMetricsView {
            name: self.name@,
            mount: self.mount@,
            file_system_type: self.file_system_type@,
            used: self.used,
            available: self.available,
        }
    }
}

impl DeepView for DiskMetrics {
    type V = DiskMetricsView;

    open spec fn deep_view(&self) -> DiskMetricsView {
        self@
    }
}

impl Clone for DiskMetrics {
    fn clone(&self) -> (r: Self)
        ensures
            r@ == self@,
    {
        DiskMetrics {
            name: self.name.clone(),
            mount: self.mount.clone(),
            file_system_type: self.file_system_type.clone(),
            used: self.used,
            available: self.available,
        }
    }
}

/// Whether the live enumeration carries a device of this name.
pub open spec fn live_has_disk(live: Seq<DiskMetricsView>, name: Seq<char>) -> bool {
    exists|i: int| 0 <= i < live.len() && (#[trigger] live[i]).name == name
}

/// Whether the device table carries this name.
pub open spec fn has_disk_name(s: Seq<DiskView>, name: Seq<char>) -> bool {
    exists|i: int| 0 <= i < s.len() && (#[trigger] s[i]).device_name == name
}

/// The device row a live disk maps to.
pub open spec fn disk_row_of(d: DiskMetricsView) -> DiskView {
    DiskView { device_name: d.name, mount: d.mount, fs_type: d.file_system_type }
}

/// Upserts one live disk: an existing row of the same name is overwritten in
/// place, a new name is appended.
pub open spec fn upsert_disk(s: Seq<DiskView>, d: DiskMetricsView) -> Seq<DiskView> {
    if has_disk_name(s, d.name) {
        s.map_values(
            |q: DiskView|
                if q.device_name == d.name {
                    disk_row_of(d)
                } else {
                    q
                },
        )
    } else {
        s.push(disk_row_of(d))
    }
}

/// Upserts the whole live enumeration, in order.
pub open spec fn upsert_disks(s: Seq<DiskView>, live: Seq<DiskMetricsView>) -> Seq<DiskView>
    decreases live.len(),
{
    if live.len() == 0 {
        s
    } else {
        upsert_disks(upsert_disk(s, live[0]), live.drop_first())
    }
}

/// The sample a live disk contributes at this tick.
pub open spec fn disk_stat_of(d: DiskMetricsView, cur_time: u64) -> DiskStatView {
    DiskStatView {
        device_name: d.name,
        timestamp: cur_time as i64,
        used: d.used,
        available: d.available,
    }
}

/// One sample per live disk, in order.
pub open spec fn disk_stats_of(live: Seq<DiskMetricsView>, cur_time: u64) -> Seq<DiskStatView> {
    live.map_values(|d: DiskMetricsView| disk_stat_of(d, cur_time))
}

/// Upserting keeps device names unique: an overwrite leaves the name
/// sequence as it was, an append adds an unseen name.
pub proof fn lemma_upsert_disks_unique(s: Seq<DiskView>, live: Seq<DiskMetricsView>)
    requires
        disk_names_unique(s),
    ensures
        disk_names_unique(upsert_disks(s, live)),
        forall|name: Seq<char>|
            has_disk_name(upsert_disks(s, live), name) <==> has_disk_name(s, name) || live_has_disk(
                live,
                name,
            ),
    decreases live.len(),
{
    if live.len() == 0 {
        assert forall|name: Seq<char>|
            has_disk_name(upsert_disks(s, live), name) <==> has_disk_name(s, name) || live_has_disk(
                live,
                name,
            ) by {
            if live_has_disk(live, name) {
                let i = choose|i: int| 0 <= i < live.len() && (#[trigger] live[i]).name == name;
            }
        }
    } else {
        let d = live[0];
        let lt = live.drop_first();
        assert(forall|i: int| 0 <= i < lt.len() ==> (#[trigger] lt[i]) == live[i + 1]);
        let s2 = upsert_disk(s, d);
        assert(disk_names_unique(s2) && (forall|name: Seq<char>|
            has_disk_name(s2, name) <==> has_disk_name(s, name) || name == d.name)) by {
            if has_disk_name(s, d.name) {
                assert(forall|i: int|
                    0 <= i < s2.len() ==> (#[trigger] s2[i]).device_name == s[i].device_name);
                assert forall|name: Seq<char>|
                    has_disk_name(s2, name) <==> has_disk_name(s, name) || name == d.name by {
                    if has_disk_name(s2, name) {
                        let i = choose|i: int|
                            0 <= i < s2.len() && (#[trigger] s2[i]).device_name == name;
                        assert(s[i].device_name == name);
                    }
                    if has_disk_name(s, name) {
                        let i = choose|i: int|
                            0 <= i < s.len() && (#[trigger] s[i]).device_name == name;
                        assert(s2[i].device_name == name);
                    }
                    if name == d.name {
                        let i = choose|i: int|
                            0 <= i < s.len() && (#[trigger] s[i]).device_name == d.name;
                        assert(s2[i].device_name == name);
                    }
                }
            } else {
                assert(s2 == s.push(disk_row_of(d)));
                assert forall|name: Seq<char>|
                    has_disk_name(s2, name) <==> has_disk_name(s, name) || name == d.name by {
                    if has_disk_name(s2, name) {
                        let i = choose|i: int|
                            0 <= i < s2.len() && (#[trigger] s2[i]).device_name == name;
                        if i < s.len() {
                            assert(s[i].device_name == name);
                        }
                    }
                    if has_disk_name(s, name) {
                        let i = choose|i: int|
                            0 <= i < s.len() && (#[trigger] s[i]).device_name == name;
                        assert(s2[i].device_name == name);
                    }
                    if name == d.name {
                        assert(s2[s.len() as int].device_name == name);
                    }
                }
                assert forall|a: int, b: int| 0 <= a < b < s2.len() implies (
                #[trigger] s2[a]).device_name != (#[trigger] s2[b]).device_name by {
                    if b == s.len() {
                        assert(s2[b].device_name == d.name);
                        assert(s2[a] == s[a]);
                        if s[a].device_name == d.name {
                            assert(has_disk_name(s, d.name));
                        }
                    }
                }
            }
        }
        lemma_upsert_disks_unique(s2, lt);
        assert forall|name: Seq<char>|
            has_disk_name(upsert_disks(s, live), name) <==> has_disk_name(s, name) || live_has_disk(
                live,
                name,
            ) by {
            assert(has_disk_name(upsert_disks(s2, lt), name) <==> has_disk_name(s2, name)
                || live_has_disk(lt, name));
            assert(live_has_disk(live, name) <==> name == d.name || live_has_disk(lt, name)) by {
                if live_has_disk(live, name) {
                    let i = choose|i: int| 0 <= i < live.len() && (#[trigger] live[i]).name == name;
                    if i > 0 {
                        assert(lt[i - 1].name == name);
                    }
                }
                if live_has_disk(lt, name) {
                    let i = choose|i: int| 0 <= i < lt.len() && (#[trigger] lt[i]).name == name;
                    assert(live[i + 1].name == name);
                }
                if name == d.name {
                    assert(live[0].name == name);
                }
            }
        }
    }
}

/// Whether the live enumeration carries this device name.
fn disks_contain_name(cur_disks: &Vec<DiskMetrics>, name: &String) -> (r: bool)
    ensures
        r == live_has_disk(cur_disks.deep_view(), name@),
{
    let ghost dv = cur_disks.deep_view();
    let mut i: usize = 0;
    while i < cur_disks.len()
        invariant
            i <= cur_disks@.len(),
            dv == cur_disks.deep_view(),
            dv.len() == cur_disks@.len(),
            forall|k: int| 0 <= k < i ==> (#[trigger] dv[k]).name != name@,
        decreases cur_disks@.len() - i,
    {
        proof {
            assert(dv[i as int] == cur_disks@[i as int]@);
        }
        if cur_disks[i].name == *name {
            return true;
        }
        i += 1;
    }
    false
}

/// Whether the device table carries this name.
fn table_has_disk(disks: &Vec<Disk>, name: &String) -> (r: bool)
    ensures
        r == has_disk_name(disks.deep_view(), name@),
{
    let ghost dv = disks.deep_view();
    let mut i: usize = 0;
    while i < disks.len()
        invariant
            i <= disks@.len(),
            dv == disks.deep_view(),
            dv.len() == disks@.len(),
            forall|k: int| 0 <= k < i ==> (#[trigger] dv[k]).device_name != name@,
        decreases disks@.len() - i,
    {
        proof {
            assert(dv[i as int] == disks@[i as int]@);
        }
        if disks[i].device_name == *name {
            return true;
        }
        i += 1;
    }
    false
}

/// Hard-deletes every device absent from the live enumeration: its samples
/// first, then the device row, so referential integrity holds throughout.
/// Afterwards no sample row and no device row carries an absent name, and
/// every row of a still-live device survives unchanged.
pub fn clean_up_old_disk_data(db: &mut Database, cur_disks: &Vec<DiskMetrics>)
    requires
        old(db).wf(),
    ensures
        final(db).wf(),
        final(db).disk_stats.deep_view() == keep(
            old(db).disk_stats.deep_view(),
            |st: DiskStatView| live_has_disk(cur_disks.deep_view(), st.device_name),
        ),
        final(db).disks.deep_view() == keep(
            old(db).disks.deep_view(),
            |d: DiskView| live_has_disk(cur_disks.deep_view(), d.device_name),
        ),
        // Removal is total: nothing of an absent device survives.
        forall|k: int|
            0 <= k < final(db).disk_stats.deep_view().len() ==> live_has_disk(
                cur_disks.deep_view(),
                (#[trigger] final(db).disk_stats.deep_view()[k]).device_name,
            ),
        forall|k: int|
            0 <= k < final(db).disks.deep_view().len() ==> live_has_disk(
                cur_disks.deep_view(),
                (#[trigger] final(db).disks.deep_view()[k]).device_name,
            ),
        // And it removes nothing else.
        forall|k: int|
            0 <= k < old(db).disk_stats.deep_view().len() && live_has_disk(
                cur_disks.deep_view(),
                (#[trigger] old(db).disk_stats.deep_view()[k]).device_name,
            ) ==> final(db).disk_stats.deep_view().contains(old(db).disk_stats.deep_view()[k]),
        forall|k: int|
            0 <= k < old(db).disks.deep_view().len() && live_has_disk(
                cur_disks.deep_view(),
                (#[trigger] old(db).disks.deep_view()[k]).device_name,
            ) ==> final(db).disks.deep_view().contains(old(db).disks.deep_view()[k]),
        final(db).processes == old(db).processes,
        final(db).proc_stats == old(db).proc_stats,
        final(db).cpus == old(db).cpus,
        final(db).cpu_stats == old(db).cpu_stats,
        final(db).memory == old(db).memory,
        final(db).interfaces == old(db).interfaces,
        final(db).network_stats == old(db).network_stats,
{
    let ghost live_dv = cur_disks.deep_view();

    // Samples first.
    let ghost stat_pred = |st: DiskStatView| live_has_disk(live_dv, st.device_name);
    let mut kept_stats: Vec<DiskStat> = Vec::new();
    let mut i: usize = 0;
    proof {
        assert(db.disk_stats.deep_view().take(0) =~= Seq::<DiskStatView>::empty());
    }
    while i < db.disk_stats.len()
        invariant
            i <= db.disk_stats@.len(),
            db.disk_stats@ == old(db).disk_stats@,
            db.disk_stats.deep_view().len() == db.disk_stats@.len(),
            live_dv == cur_disks.deep_view(),
            stat_pred == (|st: DiskStatView| live_has_disk(live_dv, st.device_name)),
            kept_stats.deep_view() =~= keep(db.disk_stats.deep_view().take(i as int), stat_pred),
        decreases db.disk_stats@.len() - i,
    {
        let ghost taken = db.disk_stats.deep_view().take(i as int);
        proof {
            assert(db.disk_stats.deep_view()[i as int] == db.disk_stats@[i as int]@);
            assert(db.disk_stats.deep_view().take(i as int + 1) =~= taken.push(
                db.disk_stats.deep_view()[i as int],
            ));
            lemma_keep_push(taken, stat_pred, db.disk_stats.deep_view()[i as int]);
        }
        let ghost kept0 = kept_stats.deep_view();
        if disks_contain_name(cur_disks, &db.disk_stats[i].device_name) {
            kept_stats.push(db.disk_stats[i].clone());
            proof {
                assert(kept_stats.deep_view() =~= kept0.push(db.disk_stats.deep_view()[i as int]));
            }
        }
        i += 1;
    }
    proof {
        assert(db.disk_stats.deep_view().take(db.disk_stats@.len() as int) =~= db.disk_stats.deep_view());
        lemma_keep_properties(old(db).disk_stats.deep_view(), stat_pred);
    }
    db.disk_stats = kept_stats;

    // Then the device rows.
    let ghost disk_pred = |d: DiskView| live_has_disk(live_dv, d.device_name);
    let mut kept_disks: Vec<Disk> = Vec::new();
    let mut i: usize = 0;
    proof {
        assert(db.disks.deep_view().take(0) =~= Seq::<DiskView>::empty());
    }
    while i < db.disks.len()
        invariant
            i <= db.disks@.len(),
            db.disks@ == old(db).disks@,
            db.disks.deep_view().len() == db.disks@.len(),
            live_dv == cur_disks.deep_view(),
            disk_pred == (|d: DiskView| live_has_disk(live_dv, d.device_name)),
            kept_disks.deep_view() =~= keep(db.disks.deep_view().take(i as int), disk_pred),
        decreases db.disks@.len() - i,
    {
        let ghost taken = db.disks.deep_view().take(i as int);
        proof {
            assert(db.disks.deep_view()[i as int] == db.disks@[i as int]@);
            assert(db.disks.deep_view().take(i as int + 1) =~= taken.push(
                db.disks.deep_view()[i as int],
            ));
            lemma_keep_push(taken, disk_pred, db.disks.deep_view()[i as int]);
        }
        let ghost kept0 = kept_disks.deep_view();
        if disks_contain_name(cur_disks, &db.disks[i].device_name) {
            kept_disks.push(db.disks[i].clone());
            proof {
                assert(kept_disks.deep_view() =~= kept0.push(db.disks.deep_view()[i as int]));
            }
        }
        i += 1;
    }
    proof {
        assert(db.disks.deep_view().take(db.disks@.len() as int) =~= db.disks.deep_view());
        lemma_keep_properties(old(db).disks.deep_view(), disk_pred);
        lemma_keep_disks_unique(old(db).disks.deep_view(), disk_pred);
    }
    db.disks = kept_disks;
}

/// Overwrites the device row carrying `d`'s name with `d`'s metadata, in
/// place in table order.
fn replace_disk_by_name(disks: &mut Vec<Disk>, d: &DiskMetrics)
    ensures
        final(disks).deep_view() == old(disks).deep_view().map_values(
            |q: DiskView|
                if q.device_name == d@.name {
                    disk_row_of(d@)
                } else {
                    q
                },
        ),
{
    let ghost target = old(disks).deep_view().map_values(
        |q: DiskView|
            if q.device_name == d@.name {
                disk_row_of(d@)
            } else {
                q
            },
    );
    let mut out: Vec<Disk> = Vec::new();
    let mut i: usize = 0;
    while i < disks.len()
        invariant
            i <= disks@.len(),
            disks@ == old(disks)@,
            target == old(disks).deep_view().map_values(
                |q: DiskView|
                    if q.device_name == d@.name {
                        disk_row_of(d@)
                    } else {
                        q
                    },
            ),
            out.deep_view() =~= target.take(i as int),
        decreases disks@.len() - i,
    {
        proof {
            assert(disks.deep_view()[i as int] == disks@[i as int]@);
        }
        let ghost out0 = out.deep_view();
        if disks[i].device_name == d.name {
            out.push(
                Disk {
                    device_name: d.name.clone(),
                    mount: d.mount.clone(),
                    fs_type: d.file_system_type.clone(),
                },
            );
            proof {
                assert(out.deep_view() =~= out0.push(disk_row_of(d@)));
            }
        } else {
            out.push(disks[i].clone());
            proof {
                assert(out.deep_view() =~= out0.push(disks.deep_view()[i as int]));
            }
        }
        proof {
            assert(out.deep_view() =~= target.take(i as int + 1));
        }
        i += 1;
    }
    proof {
        assert(out.deep_view() =~= target);
    }
    *disks = out;
}

/// Full disk reconciliation at agent start: every live device is upserted
/// (its stored metadata overwritten), then everything absent from the live
/// enumeration is hard-deleted, samples first. No sample is appended here.
pub fn init_disk_data(db: &mut Database, disks: &Vec<DiskMetrics>)
    requires
        old(db).wf(),
    ensures
        final(db).wf(),
        final(db).disks.deep_view() == keep(
            upsert_disks(old(db).disks.deep_view(), disks.deep_view()),
            |d: DiskView| live_has_disk(disks.deep_view(), d.device_name),
        ),
        final(db).disk_stats.deep_view() == keep(
            old(db).disk_stats.deep_view(),
            |st: DiskStatView| live_has_disk(disks.deep_view(), st.device_name),
        ),
        forall|k: int|
            0 <= k < final(db).disks.deep_view().len() ==> live_has_disk(
                disks.deep_view(),
                (#[trigger] final(db).disks.deep_view()[k]).device_name,
            ),
        forall|k: int|
            0 <= k < final(db).disk_stats.deep_view().len() ==> live_has_disk(
                disks.deep_view(),
                (#[trigger] final(db).disk_stats.deep_view()[k]).device_name,
            ),
        final(db).processes == old(db).processes,
        final(db).proc_stats == old(db).proc_stats,
        final(db).cpus == old(db).cpus,
        final(db).cpu_stats == old(db).cpu_stats,
        final(db).memory == old(db).memory,
        final(db).interfaces == old(db).interfaces,
        final(db).network_stats == old(db).network_stats,
{
    let ghost live_dv = disks.deep_view();
    let ghost old_disks = old(db).disks.deep_view();

    let mut k: usize = 0;
    proof {
        assert(live_dv.skip(0) =~= live_dv);
    }
    while k < disks.len()
        invariant
            k <= live_dv.len(),
            live_dv == disks.deep_view(),
            live_dv.len() == disks@.len(),
            old_disks == old(db).disks.deep_view(),
            upsert_disks(db.disks.deep_view(), live_dv.skip(k as int)) == upsert_disks(
                old_disks,
                live_dv,
            ),
            db.processes == old(db).processes,
            db.proc_stats == old(db).proc_stats,
            db.cpus == old(db).cpus,
            db.cpu_stats == old(db).cpu_stats,
            db.memory == old(db).memory,
            db.disk_stats == old(db).disk_stats,
            db.interfaces == old(db).interfaces,
            db.network_stats == old(db).network_stats,
        decreases live_dv.len() - k,
    {
        let ghost cur = db.disks.deep_view();
        let ghost ls = live_dv.skip(k as int);
        proof {
            assert(ls[0] == live_dv[k as int]);
            assert(ls.drop_first() =~= live_dv.skip(k as int + 1));
            assert(live_dv[k as int] == disks@[k as int]@);
        }
        if table_has_disk(&db.disks, &disks[k].name) {
            replace_disk_by_name(&mut db.disks, &disks[k]);
        } else {
            let d = &disks[k];
            let ghost disks0 = db.disks.deep_view();
            db.disks.push(
                Disk {
                    device_name: d.name.clone(),
                    mount: d.mount.clone(),
                    fs_type: d.file_system_type.clone(),
                },
            );
            proof {
                assert(db.disks.deep_view() =~= disks0.push(disk_row_of(live_dv[k as int])));
            }
        }
        proof {
            assert(db.disks.deep_view() == upsert_disk(cur, live_dv[k as int]));
            assert(upsert_disks(cur, ls) == upsert_disks(db.disks.deep_view(), ls.drop_first()));
        }
        k += 1;
    }
    proof {
        assert(live_dv.skip(live_dv.len() as int).len() == 0);
        assert(upsert_disks(db.disks.deep_view(), live_dv.skip(live_dv.len() as int))
            == db.disks.deep_view());
        lemma_upsert_disks_unique(old_disks, live_dv);
    }

    clean_up_old_disk_data(db, disks);
}

/// One steady-state disk pass: every live device is upserted (an existing
/// row's stored metadata overwritten with the live mount point and file
/// system), one sample per live device is appended at `cur_time`, and
/// everything absent from the live enumeration is hard-deleted, samples
/// first.
pub fn update_disk_data(db: &mut Database, cur_time: u64, disks: &Vec<DiskMetrics>)
    requires
        old(db).wf(),
        cur_time <= i64::MAX as u64,
    ensures
        final(db).wf(),
        final(db).disks.deep_view() == keep(
            upsert_disks(old(db).disks.deep_view(), disks.deep_view()),
            |d: DiskView| live_has_disk(disks.deep_view(), d.device_name),
        ),
        final(db).disk_stats.deep_view() == keep(
            old(db).disk_stats.deep_view(),
            |st: DiskStatView| live_has_disk(disks.deep_view(), st.device_name),
        ) + disk_stats_of(disks.deep_view(), cur_time),
        forall|k: int|
            0 <= k < final(db).disks.deep_view().len() ==> live_has_disk(
                disks.deep_view(),
                (#[trigger] final(db).disks.deep_view()[k]).device_name,
            ),
        forall|k: int|
            0 <= k < final(db).disk_stats.deep_view().len() ==> live_has_disk(
                disks.deep_view(),
                (#[trigger] final(db).disk_stats.deep_view()[k]).device_name,
            ),
        final(db).processes == old(db).processes,
        final(db).proc_stats == old(db).proc_stats,
        final(db).cpus == old(db).cpus,
        final(db).cpu_stats == old(db).cpu_stats,
        final(db).memory == old(db).memory,
        final(db).interfaces == old(db).interfaces,
        final(db).network_stats == old(db).network_stats,
{
    let ghost live_dv = disks.deep_view();
    let ghost old_disks = old(db).disks.deep_view();

    // Upsert every live device, as the init pass does.
    let mut k: usize = 0;
    proof {
        assert(live_dv.skip(0) =~= live_dv);
    }
    while k < disks.len()
        invariant
            k <= live_dv.len(),
            live_dv == disks.deep_view(),
            live_dv.len() == disks@.len(),
            old_disks == old(db).disks.deep_view(),
            upsert_disks(db.disks.deep_view(), live_dv.skip(k as int)) == upsert_disks(
                old_disks,
                live_dv,
            ),
            db.processes == old(db).processes,
            db.proc_stats == old(db).proc_stats,
            db.cpus == old(db).cpus,
            db.cpu_stats == old(db).cpu_stats,
            db.memory == old(db).memory,
            db.disk_stats == old(db).disk_stats,
            db.interfaces == old(db).interfaces,
            db.network_stats == old(db).network_stats,
        decreases live_dv.len() - k,
    {
        let ghost cur = db.disks.deep_view();
        let ghost ls = live_dv.skip(k as int);
        proof {
            assert(ls[0] == live_dv[k as int]);
            assert(ls.drop_first() =~= live_dv.skip(k as int + 1));
            assert(live_dv[k as int] == disks@[k as int]@);
        }
        if table_has_disk(&db.disks, &disks[k].name) {
            replace_disk_by_name(&mut db.disks, &disks[k]);
        } else {
            let d = &disks[k];
            let ghost disks0 = db.disks.deep_view();
            db.disks.push(
                Disk {
                    device_name: d.name.clone(),
                    mount: d.mount.clone(),
                    fs_type: d.file_system_type.clone(),
                },
            );
            proof {
                assert(db.disks.deep_view() =~= disks0.push(disk_row_of(live_dv[k as int])));
            }
        }
        proof {
            assert(db.disks.deep_view() == upsert_disk(cur, live_dv[k as int]));
            assert(upsert_disks(cur, ls) == upsert_disks(db.disks.deep_view(), ls.drop_first()));
        }
        k += 1;
    }
    proof {
        assert(live_dv.skip(live_dv.len() as int).len() == 0);
        assert(upsert_disks(db.disks.deep_view(), live_dv.skip(live_dv.len() as int))
            == db.disks.deep_view());
        lemma_upsert_disks_unique(old_disks, live_dv);
    }

    // One sample per live device.
    let ghost stats0 = db.disk_stats.deep_view();
    let mut k: usize = 0;
    while k < disks.len()
        invariant
            k <= live_dv.len(),
            live_dv == disks.deep_view(),
            live_dv.len() == disks@.len(),
            cur_time <= i64::MAX as u64,
            db.disk_stats.deep_view() =~= stats0 + disk_stats_of(
                live_dv.take(k as int),
                cur_time,
            ),
            disk_names_unique(db.disks.deep_view()),
            db.disks.deep_view() == upsert_disks(old_disks, live_dv),
            db.processes == old(db).processes,
            db.proc_stats == old(db).proc_stats,
            db.cpus == old(db).cpus,
            db.cpu_stats == old(db).cpu_stats,
            db.memory == old(db).memory,
            db.interfaces == old(db).interfaces,
            db.network_stats == old(db).network_stats,
        decreases live_dv.len() - k,
    {
        proof {
            assert(live_dv[k as int] == disks@[k as int]@);
        }
        let d = &disks[k];
        let ghost ds0 = db.disk_stats.deep_view();
        db.disk_stats.push(
            DiskStat {
                device_name: d.name.clone(),
                timestamp: cur_time as i64,
                used: d.used,
                available: d.available,
            },
        );
        proof {
            assert(db.disk_stats.deep_view() =~= ds0.push(disk_stat_of(live_dv[k as int], cur_time)));
            assert(live_dv.take(k as int + 1) =~= live_dv.take(k as int).push(live_dv[k as int]));
            assert(disk_stats_of(live_dv.take(k as int + 1), cur_time) =~= disk_stats_of(
                live_dv.take(k as int),
                cur_time,
            ).push(disk_stat_of(live_dv[k as int], cur_time)));
        }
        k += 1;
    }
    proof {
        assert(live_dv.take(live_dv.len() as int) =~= live_dv);
    }

    let ghost mid_stats = db.disk_stats.deep_view();
    clean_up_old_disk_data(db, disks);
    proof {
        let stat_pred = |st: DiskStatView| live_has_disk(live_dv, st.device_name);
        let fresh = disk_stats_of(live_dv, cur_time);
        assert(mid_stats == stats0 + fresh);
        lemma_keep_distributes(stats0, fresh, stat_pred);
        assert forall|i: int| 0 <= i < fresh.len() implies stat_pred(#[trigger] fresh[i]) by {
            assert(fresh[i] == disk_stat_of(live_dv[i], cur_time));
            assert(live_dv[i].name == fresh[i].device_name);
        }
        lemma_keep_all(fresh, stat_pred);
    }
}

/// Filtering a device table whose names are unique leaves them unique.
pub proof fn lemma_keep_disks_unique(s: Seq<DiskView>, pred: spec_fn(DiskView) -> bool)
    requires
        disk_names_unique(s),
    ensures
        disk_names_unique(keep(s, pred)),
    decreases s.len(),
{
    if s.len() > 0 {
        let sd = s.drop_last();
        assert(forall|i: int| 0 <= i < sd.len() ==> (#[trigger] sd[i]) == s[i]);
        lemma_keep_disks_unique(sd, pred);
        if pred(s.last()) {
            lemma_keep_properties(sd, pred);
            let out = keep(s, pred);
            let kd = keep(sd, pred);
            assert(out == kd.push(s.last()));
            assert forall|a: int, b: int| 0 <= a < b < out.len() implies (
            #[trigger] out[a]).device_name != (#[trigger] out[b]).device_name by {
                if b == out.len() - 1 {
                    assert(out[a] == kd[a]);
                    assert(sd.contains(kd[a]));
                    let t = choose|t: int| 0 <= t < sd.len() && sd[t] == kd[a];
                    assert(s[t] == kd[a]);
                    assert(s[t].device_name != s[s.len() - 1].device_name);
                } else {
                    assert(out[a] == kd[a] && out[b] == kd[b]);
                }
            }
        }
    }
}

} // verus!
