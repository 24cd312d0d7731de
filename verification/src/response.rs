//! The joined view the read-only layer serves: each device together with its
//! most recent sample. The core keeps the invariants (no dangling sample, at
//! most one row per device) that make this join meaningful; the shaping here
//! is the one read-side query whose result is worth pinning down.

use vstd::prelude::*;

use crate::database::Database;
use crate::tables::{DiskStat, DiskStatView, DiskView};

verus! {

/// Mathematical view of a [`DiskInfo`] row.
pub ghost struct DiskInfoView {
    pub device_name: Seq<char>,
    pub mount: Seq<char>,
    pub fs_type: Seq<char>,
    pub timestamp: i64,
    pub used: u32,
    pub available: u32,
}

/// One device joined with its most recent sample.
#[derive(Debug)]
pub struct DiskInfo {
    /// Name of the device.
    pub device_name: String,
    /// Folder the device is mounted to.
    pub mount: String,
    /// Type of file system used by the disk.
    pub fs_type: String,
    /// Unix epoch timestamp of the most recent sample.
    pub timestamp: i64,
    /// Amount of disk space used in MB.
    pub used: u32,
    /// Amount of disk space available in MB.
    pub available: u32,
}

impl View for DiskInfo {
    type V = DiskInfoView;

    open spec fn view(&self) -> DiskInfoView {
        DiskInfoView {
            device_name: self.device_name@,
            mount: self.mount@,
            fs_type: self.fs_type@,
            timestamp: self.timestamp,
            used: self.used,
            available: self.available,
        }
    }
}

impl DeepView for DiskInfo {
    type V = DiskInfoView;

    open spec fn deep_view(&self) -> DiskInfoView {
        self@
    }
}

impl Clone for DiskInfo {
    fn clone(&self) -> (r: Self)
        ensures
            r@ == self@,
    {
        DiskInfo {
            device_name: self.device_name.clone(),
            mount: self.mount.clone(),
            fs_type: self.fs_type.clone(),
            timestamp: self.timestamp,
            used: self.used,
            available: self.available,
        }
    }
}

/// The device's most recent sample: among its rows, the first one carrying
/// the greatest timestamp; `None` when it has no sample.
pub open spec fn latest_stat_for(stats: Seq<DiskStatView>, name: Seq<char>) -> Option<DiskStatView>
    decreases stats.len(),
{
    if stats.len() == 0 {
        None
    } else {
        let rest = latest_stat_for(stats.drop_first(), name);
        if stats[0].device_name == name {
            match rest {
                Some(b) => if b.timestamp > stats[0].timestamp {
                    Some(b)
                } else {
                    Some(stats[0])
                },
                None => Some(stats[0]),
            }
        } else {
            rest
        }
    }
}

/// The joined row of one device and one sample.
pub open spec fn joined_row(d: DiskView, st: DiskStatView) -> DiskInfoView {
    DiskInfoView {
        device_name: d.device_name,
        mount: d.mount,
        fs_type: d.fs_type,
        timestamp: st.timestamp,
        used: st.used,
        available: st.available,
    }
}

/// One joined row per device that has at least one sample, in table order.
pub open spec fn disk_info_rows(disks: Seq<DiskView>, stats: Seq<DiskStatView>) -> Seq<
    DiskInfoView,
>
    decreases disks.len(),
{
    if disks.len() == 0 {
        Seq::empty()
    } else {
        let rest = disk_info_rows(disks.drop_first(), stats);
        match latest_stat_for(stats, disks[0].device_name) {
            Some(st) => seq![joined_row(disks[0], st)] + rest,
            None => rest,
        }
    }
}

/// Appending one sample row either leaves the lookup alone or improves it.
proof fn lemma_latest_push(stats: Seq<DiskStatView>, x: DiskStatView, name: Seq<char>)
    ensures
        latest_stat_for(stats.push(x), name) == (if x.device_name == name {
            match latest_stat_for(stats, name) {
                Some(b) => if x.timestamp > b.timestamp {
                    Some(x)
                } else {
                    Some(b)
                },
                None => Some(x),
            }
        } else {
            latest_stat_for(stats, name)
        }),
    decreases stats.len(),
{
    let sp = stats.push(x);
    if stats.len() == 0 {
        assert(sp[0] == x);
        assert(sp.drop_first() =~= Seq::<DiskStatView>::empty());
    } else {
        assert(sp[0] == stats[0]);
        assert(sp.drop_first() =~= stats.drop_first().push(x));
        lemma_latest_push(stats.drop_first(), x, name);
    }
}

/// The most recent sample per device: each device of the table joined with
/// the first of its sample rows that carries the greatest timestamp; devices
/// without samples are left out, as [`disk_info_rows`] states.
pub fn latest_disk_info(db: &Database) -> (r: Vec<DiskInfo>)
    ensures
        r.deep_view() == disk_info_rows(db.disks.deep_view(), db.disk_stats.deep_view()),
{
    let ghost disks_dv = db.disks.deep_view();
    let ghost stats_dv = db.disk_stats.deep_view();
    let mut out: Vec<DiskInfo> = Vec::new();
    let mut k: usize = 0;
    proof {
        assert(disks_dv.skip(0) =~= disks_dv);
    }
    while k < db.disks.len()
        invariant
            k <= disks_dv.len(),
            disks_dv == db.disks.deep_view(),
            stats_dv == db.disk_stats.deep_view(),
            disks_dv.len() == db.disks@.len(),
            stats_dv.len() == db.disk_stats@.len(),
            out.deep_view() + disk_info_rows(disks_dv.skip(k as int), stats_dv) =~= disk_info_rows(
                disks_dv,
                stats_dv,
            ),
        decreases disks_dv.len() - k,
    {
        let ghost ds = disks_dv.skip(k as int);
        proof {
            assert(ds[0] == disks_dv[k as int]);
            assert(ds.drop_first() =~= disks_dv.skip(k as int + 1));
            assert(disks_dv[k as int] == db.disks@[k as int]@);
        }
        let d = &db.disks[k];

        // scan for the first sample of this device with the greatest timestamp
        let mut best: Option<DiskStat> = None;
        let mut i: usize = 0;
        proof {
            assert(stats_dv.take(0) =~= Seq::<DiskStatView>::empty());
        }
        while i < db.disk_stats.len()
            invariant
                i <= stats_dv.len(),
                stats_dv == db.disk_stats.deep_view(),
                stats_dv.len() == db.disk_stats@.len(),
                disks_dv == db.disks.deep_view(),
                disks_dv.len() == db.disks@.len(),
                0 <= k < disks_dv.len(),
                d == &db.disks[k as int],
                (match best {
                    Some(b) => latest_stat_for(stats_dv.take(i as int), disks_dv[k as int].device_name)
                        == Some(b@),
                    None => latest_stat_for(stats_dv.take(i as int), disks_dv[k as int].device_name)
                        is None,
                }),
            decreases stats_dv.len() - i,
        {
            let ghost taken = stats_dv.take(i as int);
            proof {
                assert(stats_dv[i as int] == db.disk_stats@[i as int]@);
                assert(stats_dv.take(i as int + 1) =~= taken.push(stats_dv[i as int]));
                lemma_latest_push(taken, stats_dv[i as int], disks_dv[k as int].device_name);
            }
            if db.disk_stats[i].device_name == d.device_name {
                let replace = match &best {
                    Some(b) => db.disk_stats[i].timestamp > b.timestamp,
                    None => true,
                };
                if replace {
                    best = Some(db.disk_stats[i].clone());
                }
            }
            i += 1;
        }
        proof {
            assert(stats_dv.take(stats_dv.len() as int) =~= stats_dv);
        }

        let ghost out0 = out.deep_view();
        match best {
            Some(st) => {
                out.push(
                    DiskInfo {
                        device_name: d.device_name.clone(),
                        mount: d.mount.clone(),
                        fs_type: d.fs_type.clone(),
                        timestamp: st.timestamp,
                        used: st.used,
                        available: st.available,
                    },
                );
                proof {
                    assert(out.deep_view() =~= out0.push(joined_row(ds[0], st@)));
                    assert(disk_info_rows(ds, stats_dv) == seq![joined_row(ds[0], st@)]
                        + disk_info_rows(ds.drop_first(), stats_dv));
                    assert(out0.push(joined_row(ds[0], st@)) + disk_info_rows(
                        ds.drop_first(),
                        stats_dv,
                    ) =~= out0 + disk_info_rows(ds, stats_dv));
                }
            },
            None => {
                proof {
                    assert(disk_info_rows(ds, stats_dv) == disk_info_rows(
                        ds.drop_first(),
                        stats_dv,
                    ));
                }
            },
        }
        k += 1;
    }
    proof {
        assert(disks_dv.skip(disks_dv.len() as int).len() == 0);
        assert(out.deep_view() + disk_info_rows(disks_dv.skip(disks_dv.len() as int), stats_dv)
            =~= out.deep_view());
    }
    out
}

} // verus!
