//! Memory recording: append-only, nothing to reconcile.

use vstd::prelude::*;

use crate::database::Database;
use crate::snapshot::MemValues;
use crate::tables::Memory;

verus! {

/// Scales a byte count down to KB, clamped into the 32-bit column.
pub open spec fn kb_of(bytes: u64) -> u32 {
    if bytes / 1000 > u32::MAX as u64 {
        u32::MAX
    } else {
        (bytes / 1000) as u32
    }
}

/// Converts bytes to KB, clamped into the 32-bit column.
fn to_kb(bytes: u64) -> (r: u32)
    ensures
        r == kb_of(bytes),
{
    let kb = bytes / 1000;
    if kb > u32::MAX as u64 {
        u32::MAX
    } else {
        kb as u32
    }
}

/// Appends one memory sample carrying the live totals, scaled to KB. Nothing
/// else changes.
pub fn update_memory_data(db: &mut Database, cur_time: u64, mem: &MemValues)
    requires
        old(db).wf(),
        cur_time <= i64::MAX as u64,
    ensures
        final(db).wf(),
        final(db).memory@ == old(db).memory@.push(
            Memory {
                timestamp: cur_time as i64,
                total: kb_of(mem.total),
                free: kb_of(mem.available),
                swap_total: kb_of(mem.swap_total),
                swap_free: kb_of(mem.swap_free),
            },
        ),
        final(db).processes == old(db).processes,
        final(db).proc_stats == old(db).proc_stats,
        final(db).cpus == old(db).cpus,
        final(db).cpu_stats == old(db).cpu_stats,
        final(db).disks == old(db).disks,
        final(db).disk_stats == old(db).disk_stats,
        final(db).interfaces == old(db).interfaces,
        final(db).network_stats == old(db).network_stats,
{
    let row = Memory {
        timestamp: cur_time as i64,
        total: to_kb(mem.total),
        free: to_kb(mem.available),
        swap_total: to_kb(mem.swap_total),
        swap_free: to_kb(mem.swap_free),
    };
    db.memory.push(row);
}

} // verus!
