//! Network-interface reconciliation.
//!
//! Interfaces are keyed by name. Each pass resolves every live interface's IP
//! address through the address-resolution table, upserts or refreshes the
//! interface rows, appends one counter-delta sample per interface, and
//! hard-deletes whatever is no longer live — samples first, then the
//! interface row.

use vstd::prelude::*;

use crate::database::{interface_names_unique, Database};
use crate::memory::kb_of;
use crate::seq_util::{keep, lemma_keep_all, lemma_keep_distributes, lemma_keep_properties,
    lemma_keep_push};
use crate::snapshot::{ArpEntry, ArpEntryView, LiveInterface, LiveInterfaceView};
use crate::tables::{NetworkInterface, NetworkInterfaceView, NetworkStat, NetworkStatView};

verus! {

/// The view of an optional address.
pub open spec fn ip_view(o: Option<String>) -> Option<Seq<char>> {
    match o {
        Some(s) => Some(s@),
        None => None,
    }
}

/// The address the resolution table gives an interface: that of its first
/// entry, if it has one.
pub open spec fn spec_resolve_ip(arp: Seq<ArpEntryView>, name: Seq<char>) -> Option<Seq<char>>
    decreases arp.len(),
{
    if arp.len() == 0 {
        None
    } else if arp[0].device == name {
        Some(arp[0].ip_address)
    } else {
        spec_resolve_ip(arp.drop_first(), name)
    }
}

/// The interface row a live interface maps to, its address resolved.
pub open spec fn interface_row_of(i: LiveInterfaceView, arp: Seq<ArpEntryView>) -> NetworkInterfaceView {
    NetworkInterfaceView { name: i.name, ip_addr: spec_resolve_ip(arp, i.name) }
}

/// Whether the interface table carries this name.
pub open spec fn has_iface_name(s: Seq<NetworkInterfaceView>, name: Seq<char>) -> bool {
    exists|i: int| 0 <= i < s.len() && (#[trigger] s[i]).name == name
}

/// Whether the live snapshot carries this interface name.
pub open spec fn live_has_iface(live: Seq<LiveInterfaceView>, name: Seq<char>) -> bool {
    exists|i: int| 0 <= i < live.len() && (#[trigger] live[i]).name == name
}

/// The address stored on the first row of this name.
pub open spec fn stored_ip(s: Seq<NetworkInterfaceView>, name: Seq<char>) -> Option<Seq<char>>
    decreases s.len(),
{
    if s.len() == 0 {
        None
    } else if s[0].name == name {
        s[0].ip_addr
    } else {
        stored_ip(s.drop_first(), name)
    }
}

/// Overwrites every row of this name by `row`.
pub open spec fn replace_iface(s: Seq<NetworkInterfaceView>, row: NetworkInterfaceView) -> Seq<
    NetworkInterfaceView,
> {
    s.map_values(
        |q: NetworkInterfaceView|
            if q.name == row.name {
                row
            } else {
                q
            },
    )
}

/// Upserts one live interface against the current table: an existing name is
/// overwritten with the freshly resolved row, a new one appended.
pub open spec fn upsert_iface(
    s: Seq<NetworkInterfaceView>,
    i: LiveInterfaceView,
    arp: Seq<ArpEntryView>,
) -> Seq<NetworkInterfaceView> {
    if has_iface_name(s, i.name) {
        replace_iface(s, interface_row_of(i, arp))
    } else {
        s.push(interface_row_of(i, arp))
    }
}

/// Upserts the whole live snapshot, in order.
pub open spec fn upsert_ifaces(
    s: Seq<NetworkInterfaceView>,
    live: Seq<LiveInterfaceView>,
    arp: Seq<ArpEntryView>,
) -> Seq<NetworkInterfaceView>
    decreases live.len(),
{
    if live.len() == 0 {
        s
    } else {
        upsert_ifaces(upsert_iface(s, live[0], arp), live.drop_first(), arp)
    }
}

/// What one live interface does during a steady-state pass, with decisions
/// taken against `db0`, the table as it stood when the pass began: an unknown
/// name is inserted with its resolved address; a known name whose stored
/// address differs from the resolved one is refreshed; the rest stand.
pub open spec fn iface_step(
    s: Seq<NetworkInterfaceView>,
    db0: Seq<NetworkInterfaceView>,
    i: LiveInterfaceView,
    arp: Seq<ArpEntryView>,
) -> Seq<NetworkInterfaceView> {
    let row = interface_row_of(i, arp);
    if !has_iface_name(db0, i.name) {
        s.push(row)
    } else if stored_ip(db0, i.name) != row.ip_addr {
        replace_iface(s, row)
    } else {
        s
    }
}

/// Folds [`iface_step`] over the live snapshot, in snapshot order.
pub open spec fn apply_ifaces(
    s: Seq<NetworkInterfaceView>,
    db0: Seq<NetworkInterfaceView>,
    live: Seq<LiveInterfaceView>,
    arp: Seq<ArpEntryView>,
) -> Seq<NetworkInterfaceView>
    decreases live.len(),
{
    if live.len() == 0 {
        s
    } else {
        apply_ifaces(iface_step(s, db0, live[0], arp), db0, live.drop_first(), arp)
    }
}

/// Clamps a 64-bit counter into the 32-bit column.
pub open spec fn sat_u32(x: u64) -> u32 {
    if x > u32::MAX as u64 {
        u32::MAX
    } else {
        x as u32
    }
}

/// The sample a live interface contributes at this tick: its counter deltas,
/// bytes scaled down to KB.
pub open spec fn net_stat_of(i: LiveInterfaceView, cur_time: u64) -> NetworkStatView {
    NetworkStatView {
        name: i.name,
        timestamp: cur_time as i64,
        delta_bytes_recv: kb_of(i.recv_bytes),
        delta_bytes_sent: kb_of(i.sent_bytes),
        delta_packets_recv: sat_u32(i.recv_packets),
        delta_packets_sent: sat_u32(i.sent_packets),
        delta_err_recv: sat_u32(i.recv_errs),
        delta_err_sent: sat_u32(i.sent_errs),
    }
}

/// One sample per live interface, in snapshot order.
pub open spec fn net_stats_of(live: Seq<LiveInterfaceView>, cur_time: u64) -> Seq<NetworkStatView> {
    live.map_values(|i: LiveInterfaceView| net_stat_of(i, cur_time))
}

/// Upserting keeps interface names unique, and the names afterwards are the
/// old ones plus the live ones.
pub proof fn lemma_upsert_ifaces_unique(
    s: Seq<NetworkInterfaceView>,
    live: Seq<LiveInterfaceView>,
    arp: Seq<ArpEntryView>,
)
    requires
        interface_names_unique(s),
    ensures
        interface_names_unique(upsert_ifaces(s, live, arp)),
    decreases live.len(),
{
    if live.len() > 0 {
        let i0 = live[0];
        let s2 = upsert_iface(s, i0, arp);
        assert(interface_names_unique(s2)) by {
            if has_iface_name(s, i0.name) {
                assert(forall|t: int| 0 <= t < s2.len() ==> (#[trigger] s2[t]).name == s[t].name);
            } else {
                assert forall|a: int, b: int| 0 <= a < b < s2.len() implies (
                #[trigger] s2[a]).name != (#[trigger] s2[b]).name by {
                    if b == s.len() {
                        if s[a].name == i0.name {
                            assert(has_iface_name(s, i0.name));
                        }
                    }
                }
            }
        }
        lemma_upsert_ifaces_unique(s2, live.drop_first(), arp);
    }
}

/// A steady-state pass keeps interface names unique, provided the live names
/// are distinct and the working table still agrees with the entry snapshot
/// `db0` on which of those names it holds.
pub proof fn lemma_apply_ifaces_unique(
    s: Seq<NetworkInterfaceView>,
    db0: Seq<NetworkInterfaceView>,
    live: Seq<LiveInterfaceView>,
    arp: Seq<ArpEntryView>,
)
    requires
        interface_names_unique(s),
        forall|i: int, j: int|
            0 <= i < j < live.len() ==> (#[trigger] live[i]).name != (#[trigger] live[j]).name,
        forall|k: int|
            0 <= k < live.len() ==> (has_iface_name(s, (#[trigger] live[k]).name)
                <==> has_iface_name(db0, live[k].name)),
    ensures
        interface_names_unique(apply_ifaces(s, db0, live, arp)),
    decreases live.len(),
{
    if live.len() > 0 {
        let i0 = live[0];
        let lt = live.drop_first();
        assert(forall|i: int| 0 <= i < lt.len() ==> (#[trigger] lt[i]) == live[i + 1]);
        let s2 = iface_step(s, db0, i0, arp);
        if !has_iface_name(db0, i0.name) {
            assert(!has_iface_name(s, i0.name));
            assert(interface_names_unique(s2)) by {
                assert forall|a: int, b: int| 0 <= a < b < s2.len() implies (
                #[trigger] s2[a]).name != (#[trigger] s2[b]).name by {
                    if b == s.len() {
                        if s[a].name == i0.name {
                            assert(has_iface_name(s, i0.name));
                        }
                    }
                }
            }
            assert forall|k: int|
                0 <= k < lt.len() implies (has_iface_name(s2, (#[trigger] lt[k]).name)
                <==> has_iface_name(db0, lt[k].name)) by {
                assert(lt[k].name != i0.name);
                assert(has_iface_name(s2, lt[k].name) <==> has_iface_name(s, lt[k].name)) by {
                    if has_iface_name(s2, lt[k].name) {
                        let t = choose|t: int| 0 <= t < s2.len() && (#[trigger] s2[t]).name
                            == lt[k].name;
                        if t < s.len() {
                            assert(s[t].name == lt[k].name);
                        }
                    }
                    if has_iface_name(s, lt[k].name) {
                        let t = choose|t: int| 0 <= t < s.len() && (#[trigger] s[t]).name
                            == lt[k].name;
                        assert(s2[t].name == lt[k].name);
                    }
                }
            }
            lemma_apply_ifaces_unique(s2, db0, lt, arp);
        } else if stored_ip(db0, i0.name) != interface_row_of(i0, arp).ip_addr {
            assert(forall|t: int| 0 <= t < s2.len() ==> (#[trigger] s2[t]).name == s[t].name);
            assert forall|k: int|
                0 <= k < lt.len() implies (has_iface_name(s2, (#[trigger] lt[k]).name)
                <==> has_iface_name(db0, lt[k].name)) by {
                assert(has_iface_name(s2, lt[k].name) <==> has_iface_name(s, lt[k].name)) by {
                    if has_iface_name(s2, lt[k].name) {
                        let t = choose|t: int| 0 <= t < s2.len() && (#[trigger] s2[t]).name
                            == lt[k].name;
                        assert(s[t].name == lt[k].name);
                    }
                    if has_iface_name(s, lt[k].name) {
                        let t = choose|t: int| 0 <= t < s.len() && (#[trigger] s[t]).name
                            == lt[k].name;
                        assert(s2[t].name == lt[k].name);
                    }
                }
            }
            lemma_apply_ifaces_unique(s2, db0, lt, arp);
        } else {
            assert forall|k: int|
                0 <= k < lt.len() implies (has_iface_name(s2, (#[trigger] lt[k]).name)
                <==> has_iface_name(db0, lt[k].name)) by {
                assert(live[k + 1] == lt[k]);
            }
            lemma_apply_ifaces_unique(s2, db0, lt, arp);
        }
    }
}

/// Filtering an interface table whose names are unique leaves them unique.
pub proof fn lemma_keep_ifaces_unique(
    s: Seq<NetworkInterfaceView>,
    pred: spec_fn(NetworkInterfaceView) -> bool,
)
    requires
        interface_names_unique(s),
    ensures
        interface_names_unique(keep(s, pred)),
    decreases s.len(),
{
    if s.len() > 0 {
        let sd = s.drop_last();
        assert(forall|i: int| 0 <= i < sd.len() ==> (#[trigger] sd[i]) == s[i]);
        lemma_keep_ifaces_unique(sd, pred);
        if pred(s.last()) {
            lemma_keep_properties(sd, pred);
            let out = keep(s, pred);
            let kd = keep(sd, pred);
            assert(out == kd.push(s.last()));
            assert forall|a: int, b: int| 0 <= a < b < out.len() implies (
            #[trigger] out[a]).name != (#[trigger] out[b]).name by {
                if b == out.len() - 1 {
                    assert(out[a] == kd[a]);
                    assert(sd.contains(kd[a]));
                    let t = choose|t: int| 0 <= t < sd.len() && sd[t] == kd[a];
                    assert(s[t] == kd[a]);
                    assert(s[t].name != s[s.len() - 1].name);
                } else {
                    assert(out[a] == kd[a] && out[b] == kd[b]);
                }
            }
        }
    }
}

/// Resolves an interface's address through the resolution table: the address
/// of its first entry, if any.
pub fn resolve_ip(arp: &Vec<ArpEntry>, name: &String) -> (r: Option<String>)
    ensures
        ip_view(r) == spec_resolve_ip(arp.deep_view(), name@),
{
    let ghost adv = arp.deep_view();
    let mut i: usize = 0;
    proof {
        assert(adv.skip(0) =~= adv);
    }
    while i < arp.len()
        invariant
            i <= arp@.len(),
            adv == arp.deep_view(),
            adv.len() == arp@.len(),
            spec_resolve_ip(adv, name@) == spec_resolve_ip(adv.skip(i as int), name@),
        decreases arp@.len() - i,
    {
        proof {
            assert(adv[i as int] == arp@[i as int]@);
            assert(adv.skip(i as int)[0] == adv[i as int]);
            assert(adv.skip(i as int).drop_first() =~= adv.skip(i as int + 1));
        }
        if arp[i].device == *name {
            return Some(arp[i].ip_address.clone());
        }
        i += 1;
    }
    proof {
        assert(adv.skip(adv.len() as int).len() == 0);
    }
    None
}

/// Whether the live snapshot carries this interface name.
fn snapshot_has_iface(interfaces: &Vec<LiveInterface>, name: &String) -> (r: bool)
    ensures
        r == live_has_iface(interfaces.deep_view(), name@),
{
    let ghost dv = interfaces.deep_view();
    let mut i: usize = 0;
    while i < interfaces.len()
        invariant
            i <= interfaces@.len(),
            dv == interfaces.deep_view(),
            dv.len() == interfaces@.len(),
            forall|k: int| 0 <= k < i ==> (#[trigger] dv[k]).name != name@,
        decreases interfaces@.len() - i,
    {
        proof {
            assert(dv[i as int] == interfaces@[i as int]@);
        }
        if interfaces[i].name == *name {
            return true;
        }
        i += 1;
    }
    false
}

/// Whether the interface table carries this name.
fn table_has_iface(ifaces: &Vec<NetworkInterface>, name: &String) -> (r: bool)
    ensures
        r == has_iface_name(ifaces.deep_view(), name@),
{
    let ghost dv = ifaces.deep_view();
    let mut i: usize = 0;
    while i < ifaces.len()
        invariant
            i <= ifaces@.len(),
            dv == ifaces.deep_view(),
            dv.len() == ifaces@.len(),
            forall|k: int| 0 <= k < i ==> (#[trigger] dv[k]).name != name@,
        decreases ifaces@.len() - i,
    {
        proof {
            assert(dv[i as int] == ifaces@[i as int]@);
        }
        if ifaces[i].name == *name {
            return true;
        }
        i += 1;
    }
    false
}

/// The address stored on the first row of this name.
fn table_stored_ip(ifaces: &Vec<NetworkInterface>, name: &String) -> (r: Option<String>)
    ensures
        ip_view(r) == stored_ip(ifaces.deep_view(), name@),
{
    let ghost dv = ifaces.deep_view();
    let mut i: usize = 0;
    proof {
        assert(dv.skip(0) =~= dv);
    }
    while i < ifaces.len()
        invariant
            i <= ifaces@.len(),
            dv == ifaces.deep_view(),
            dv.len() == ifaces@.len(),
            stored_ip(dv, name@) == stored_ip(dv.skip(i as int), name@),
        decreases ifaces@.len() - i,
    {
        proof {
            assert(dv[i as int] == ifaces@[i as int]@);
            assert(dv.skip(i as int)[0] == dv[i as int]);
            assert(dv.skip(i as int).drop_first() =~= dv.skip(i as int + 1));
        }
        if ifaces[i].name == *name {
            let r = match &ifaces[i].ip_addr {
                Some(ip) => Some(ip.clone()),
                None => None,
            };
            proof {
                assert(ip_view(r) == dv[i as int].ip_addr);
            }
            return r;
        }
        i += 1;
    }
    proof {
        assert(dv.skip(dv.len() as int).len() == 0);
    }
    None
}

/// Whether two optional addresses are the same.
fn ip_eq(a: &Option<String>, b: &Option<String>) -> (r: bool)
    ensures
        r == (ip_view(*a) == ip_view(*b)),
{
    match a {
        Some(x) => match b {
            Some(y) => *x == *y,
            None => false,
        },
        None => b.is_none(),
    }
}

/// Overwrites every row of `row`'s name by `row`, in place in table order.
fn replace_iface_by_name(ifaces: &mut Vec<NetworkInterface>, row: &NetworkInterface)
    ensures
        final(ifaces).deep_view() == replace_iface(old(ifaces).deep_view(), row@),
{
    let ghost target = replace_iface(old(ifaces).deep_view(), row@);
    let mut out: Vec<NetworkInterface> = Vec::new();
    let mut i: usize = 0;
    while i < ifaces.len()
        invariant
            i <= ifaces@.len(),
            ifaces@ == old(ifaces)@,
            target == replace_iface(old(ifaces).deep_view(), row@),
            out.deep_view() =~= target.take(i as int),
        decreases ifaces@.len() - i,
    {
        proof {
            assert(ifaces.deep_view()[i as int] == ifaces@[i as int]@);
        }
        let ghost out0 = out.deep_view();
        if ifaces[i].name == row.name {
            out.push(row.clone());
            proof {
                assert(out.deep_view() =~= out0.push(row@));
            }
        } else {
            out.push(ifaces[i].clone());
            proof {
                assert(out.deep_view() =~= out0.push(ifaces.deep_view()[i as int]));
            }
        }
        proof {
            assert(out.deep_view() =~= target.take(i as int + 1));
        }
        i += 1;
    }
    proof {
        assert(out.deep_view() =~= target);
    }
    *ifaces = out;
}

/// Hard-deletes every interface absent from the live snapshot: its samples
/// first, then the interface row. Afterwards no sample row and no interface
/// row carries an absent name, and every row of a still-live interface
/// survives unchanged.
pub fn clean_up_old_interfaces(db: &mut Database, cur_interfaces: &Vec<LiveInterface>)
    requires
        old(db).wf(),
    ensures
        final(db).wf(),
        final(db).network_stats.deep_view() == keep(
            old(db).network_stats.deep_view(),
            |st: NetworkStatView| live_has_iface(cur_interfaces.deep_view(), st.name),
        ),
        final(db).interfaces.deep_view() == keep(
            old(db).interfaces.deep_view(),
            |q: NetworkInterfaceView| live_has_iface(cur_interfaces.deep_view(), q.name),
        ),
        forall|k: int|
            0 <= k < final(db).network_stats.deep_view().len() ==> live_has_iface(
                cur_interfaces.deep_view(),
                (#[trigger] final(db).network_stats.deep_view()[k]).name,
            ),
        forall|k: int|
            0 <= k < final(db).interfaces.deep_view().len() ==> live_has_iface(
                cur_interfaces.deep_view(),
                (#[trigger] final(db).interfaces.deep_view()[k]).name,
            ),
        final(db).processes == old(db).processes,
        final(db).proc_stats == old(db).proc_stats,
        final(db).cpus == old(db).cpus,
        final(db).cpu_stats == old(db).cpu_stats,
        final(db).memory == old(db).memory,
        final(db).disks == old(db).disks,
        final(db).disk_stats == old(db).disk_stats,
{
    let ghost live_dv = cur_interfaces.deep_view();

    // Samples first.
    let ghost stat_pred = |st: NetworkStatView| live_has_iface(live_dv, st.name);
    let mut kept_stats: Vec<NetworkStat> = Vec::new();
    let mut i: usize = 0;
    proof {
        assert(db.network_stats.deep_view().take(0) =~= Seq::<NetworkStatView>::empty());
    }
    while i < db.network_stats.len()
        invariant
            i <= db.network_stats@.len(),
            db.network_stats@ == old(db).network_stats@,
            db.network_stats.deep_view().len() == db.network_stats@.len(),
            live_dv == cur_interfaces.deep_view(),
            stat_pred == (|st: NetworkStatView| live_has_iface(live_dv, st.name)),
            kept_stats.deep_view() =~= keep(
                db.network_stats.deep_view().take(i as int),
                stat_pred,
            ),
        decreases db.network_stats@.len() - i,
    {
        let ghost taken = db.network_stats.deep_view().take(i as int);
        proof {
            assert(db.network_stats.deep_view()[i as int] == db.network_stats@[i as int]@);
            assert(db.network_stats.deep_view().take(i as int + 1) =~= taken.push(
                db.network_stats.deep_view()[i as int],
            ));
            lemma_keep_push(taken, stat_pred, db.network_stats.deep_view()[i as int]);
        }
        let ghost kept0 = kept_stats.deep_view();
        if snapshot_has_iface(cur_interfaces, &db.network_stats[i].name) {
            kept_stats.push(db.network_stats[i].clone());
            proof {
                assert(kept_stats.deep_view() =~= kept0.push(
                    db.network_stats.deep_view()[i as int],
                ));
            }
        }
        i += 1;
    }
    proof {
        assert(db.network_stats.deep_view().take(db.network_stats@.len() as int)
            =~= db.network_stats.deep_view());
        lemma_keep_properties(old(db).network_stats.deep_view(), stat_pred);
    }
    db.network_stats = kept_stats;

    // Then the interface rows.
    let ghost iface_pred = |q: NetworkInterfaceView| live_has_iface(live_dv, q.name);
    let mut kept_ifaces: Vec<NetworkInterface> = Vec::new();
    let mut i: usize = 0;
    proof {
        assert(db.interfaces.deep_view().take(0) =~= Seq::<NetworkInterfaceView>::empty());
    }
    while i < db.interfaces.len()
        invariant
            i <= db.interfaces@.len(),
            db.interfaces@ == old(db).interfaces@,
            db.interfaces.deep_view().len() == db.interfaces@.len(),
            live_dv == cur_interfaces.deep_view(),
            iface_pred == (|q: NetworkInterfaceView| live_has_iface(live_dv, q.name)),
            kept_ifaces.deep_view() =~= keep(db.interfaces.deep_view().take(i as int), iface_pred),
        decreases db.interfaces@.len() - i,
    {
        let ghost taken = db.interfaces.deep_view().take(i as int);
        proof {
            assert(db.interfaces.deep_view()[i as int] == db.interfaces@[i as int]@);
            assert(db.interfaces.deep_view().take(i as int + 1) =~= taken.push(
                db.interfaces.deep_view()[i as int],
            ));
            lemma_keep_push(taken, iface_pred, db.interfaces.deep_view()[i as int]);
        }
        let ghost kept0 = kept_ifaces.deep_view();
        if snapshot_has_iface(cur_interfaces, &db.interfaces[i].name) {
            kept_ifaces.push(db.interfaces[i].clone());
            proof {
                assert(kept_ifaces.deep_view() =~= kept0.push(db.interfaces.deep_view()[i as int]));
            }
        }
        i += 1;
    }
    proof {
        assert(db.interfaces.deep_view().take(db.interfaces@.len() as int)
            =~= db.interfaces.deep_view());
        lemma_keep_properties(old(db).interfaces.deep_view(), iface_pred);
        lemma_keep_ifaces_unique(old(db).interfaces.deep_view(), iface_pred);
    }
    db.interfaces = kept_ifaces;
}

/// Full network reconciliation at agent start: every live interface is
/// upserted with its freshly resolved address, then everything absent from
/// the live snapshot is hard-deleted, samples first. No sample is appended
/// here.
pub fn init_network_data(db: &mut Database, interfaces: &Vec<LiveInterface>, arp: &Vec<ArpEntry>)
    requires
        old(db).wf(),
    ensures
        final(db).wf(),
        final(db).interfaces.deep_view() == keep(
            upsert_ifaces(old(db).interfaces.deep_view(), interfaces.deep_view(), arp.deep_view()),
            |q: NetworkInterfaceView| live_has_iface(interfaces.deep_view(), q.name),
        ),
        final(db).network_stats.deep_view() == keep(
            old(db).network_stats.deep_view(),
            |st: NetworkStatView| live_has_iface(interfaces.deep_view(), st.name),
        ),
        forall|k: int|
            0 <= k < final(db).interfaces.deep_view().len() ==> live_has_iface(
                interfaces.deep_view(),
                (#[trigger] final(db).interfaces.deep_view()[k]).name,
            ),
        forall|k: int|
            0 <= k < final(db).network_stats.deep_view().len() ==> live_has_iface(
                interfaces.deep_view(),
                (#[trigger] final(db).network_stats.deep_view()[k]).name,
            ),
        final(db).processes == old(db).processes,
        final(db).proc_stats == old(db).proc_stats,
        final(db).cpus == old(db).cpus,
        final(db).cpu_stats == old(db).cpu_stats,
        final(db).memory == old(db).memory,
        final(db).disks == old(db).disks,
        final(db).disk_stats == old(db).disk_stats,
{
    let ghost live_dv = interfaces.deep_view();
    let ghost arp_dv = arp.deep_view();
    let ghost old_ifaces = old(db).interfaces.deep_view();

    let mut k: usize = 0;
    proof {
        assert(live_dv.skip(0) =~= live_dv);
    }
    while k < interfaces.len()
        invariant
            k <= live_dv.len(),
            live_dv == interfaces.deep_view(),
            live_dv.len() == interfaces@.len(),
            arp_dv == arp.deep_view(),
            old_ifaces == old(db).interfaces.deep_view(),
            upsert_ifaces(db.interfaces.deep_view(), live_dv.skip(k as int), arp_dv)
                == upsert_ifaces(old_ifaces, live_dv, arp_dv),
            db.processes == old(db).processes,
            db.proc_stats == old(db).proc_stats,
            db.cpus == old(db).cpus,
            db.cpu_stats == old(db).cpu_stats,
            db.memory == old(db).memory,
            db.disks == old(db).disks,
            db.disk_stats == old(db).disk_stats,
            db.network_stats == old(db).network_stats,
        decreases live_dv.len() - k,
    {
        let ghost cur = db.interfaces.deep_view();
        let ghost ls = live_dv.skip(k as int);
        proof {
            assert(ls[0] == live_dv[k as int]);
            assert(ls.drop_first() =~= live_dv.skip(k as int + 1));
            assert(live_dv[k as int] == interfaces@[k as int]@);
        }
        let ip = resolve_ip(arp, &interfaces[k].name);
        let row = NetworkInterface { name: interfaces[k].name.clone(), ip_addr: ip };
        proof {
            assert(row@ == interface_row_of(live_dv[k as int], arp_dv));
        }
        if table_has_iface(&db.interfaces, &interfaces[k].name) {
            replace_iface_by_name(&mut db.interfaces, &row);
        } else {
            let ghost ifaces0 = db.interfaces.deep_view();
            db.interfaces.push(row);
            proof {
                assert(db.interfaces.deep_view() =~= ifaces0.push(
                    interface_row_of(live_dv[k as int], arp_dv),
                ));
            }
        }
        proof {
            assert(db.interfaces.deep_view() == upsert_iface(cur, live_dv[k as int], arp_dv));
            assert(upsert_ifaces(cur, ls, arp_dv) == upsert_ifaces(
                db.interfaces.deep_view(),
                ls.drop_first(),
                arp_dv,
            ));
        }
        k += 1;
    }
    proof {
        assert(live_dv.skip(live_dv.len() as int).len() == 0);
        assert(upsert_ifaces(db.interfaces.deep_view(), live_dv.skip(live_dv.len() as int), arp_dv)
            == db.interfaces.deep_view());
        lemma_upsert_ifaces_unique(old_ifaces, live_dv, arp_dv);
    }

    clean_up_old_interfaces(db, interfaces);
}

/// One steady-state network pass: unknown live interfaces are inserted, a
/// known interface whose stored address differs from the freshly resolved one
/// is refreshed, one counter-delta sample per live interface is appended at
/// `cur_time`, and everything absent from the live snapshot is hard-deleted,
/// samples first. Decisions are taken against the table as it stood when the
/// pass began, as [`iface_step`] states.
pub fn update_network_interface_data(
    db: &mut Database,
    cur_time: u64,
    interfaces: &Vec<LiveInterface>,
    arp: &Vec<ArpEntry>,
)
    requires
        old(db).wf(),
        cur_time <= i64::MAX as u64,
        forall|i: int, j: int|
            0 <= i < j < interfaces.deep_view().len() ==> (#[trigger] interfaces.deep_view()[i]).name
                != (#[trigger] interfaces.deep_view()[j]).name,
    ensures
        final(db).wf(),
        final(db).interfaces.deep_view() == keep(
            apply_ifaces(
                old(db).interfaces.deep_view(),
                old(db).interfaces.deep_view(),
                interfaces.deep_view(),
                arp.deep_view(),
            ),
            |q: NetworkInterfaceView| live_has_iface(interfaces.deep_view(), q.name),
        ),
        final(db).network_stats.deep_view() == keep(
            old(db).network_stats.deep_view(),
            |st: NetworkStatView| live_has_iface(interfaces.deep_view(), st.name),
        ) + net_stats_of(interfaces.deep_view(), cur_time),
        forall|k: int|
            0 <= k < final(db).interfaces.deep_view().len() ==> live_has_iface(
                interfaces.deep_view(),
                (#[trigger] final(db).interfaces.deep_view()[k]).name,
            ),
        forall|k: int|
            0 <= k < final(db).network_stats.deep_view().len() ==> live_has_iface(
                interfaces.deep_view(),
                (#[trigger] final(db).network_stats.deep_view()[k]).name,
            ),
        final(db).processes == old(db).processes,
        final(db).proc_stats == old(db).proc_stats,
        final(db).cpus == old(db).cpus,
        final(db).cpu_stats == old(db).cpu_stats,
        final(db).memory == old(db).memory,
        final(db).disks == old(db).disks,
        final(db).disk_stats == old(db).disk_stats,
{
    let ghost live_dv = interfaces.deep_view();
    let ghost arp_dv = arp.deep_view();
    let ghost db0 = old(db).interfaces.deep_view();

    let mut k: usize = 0;
    proof {
        assert(live_dv.skip(0) =~= live_dv);
        assert(db.interfaces.deep_view() == db0);
        assert forall|t: int| 0 <= t < live_dv.len() implies (has_iface_name(
            db.interfaces.deep_view(),
            (#[trigger] live_dv[t]).name,
        ) <==> has_iface_name(db0, live_dv[t].name)) by {
            assert(db.interfaces.deep_view() == db0);
        }
        assert forall|t: int| 0 <= t < live_dv.len() implies stored_ip(
            db.interfaces.deep_view(),
            (#[trigger] live_dv[t]).name,
        ) == stored_ip(db0, live_dv[t].name) by {
            assert(db.interfaces.deep_view() == db0);
        }
    }
    while k < interfaces.len()
        invariant
            k <= live_dv.len(),
            live_dv == interfaces.deep_view(),
            live_dv.len() == interfaces@.len(),
            arp_dv == arp.deep_view(),
            db0 == old(db).interfaces.deep_view(),
            forall|i: int, j: int|
                0 <= i < j < live_dv.len() ==> (#[trigger] live_dv[i]).name != (
                #[trigger] live_dv[j]).name,
            interface_names_unique(db.interfaces.deep_view()),
            forall|t: int|
                k <= t < live_dv.len() ==> (has_iface_name(
                    db.interfaces.deep_view(),
                    (#[trigger] live_dv[t]).name,
                ) <==> has_iface_name(db0, live_dv[t].name)),
            forall|t: int|
                k <= t < live_dv.len() ==> stored_ip(
                    db.interfaces.deep_view(),
                    (#[trigger] live_dv[t]).name,
                ) == stored_ip(db0, live_dv[t].name),
            apply_ifaces(db.interfaces.deep_view(), db0, live_dv.skip(k as int), arp_dv)
                == apply_ifaces(db0, db0, live_dv, arp_dv),
            db.processes == old(db).processes,
            db.proc_stats == old(db).proc_stats,
            db.cpus == old(db).cpus,
            db.cpu_stats == old(db).cpu_stats,
            db.memory == old(db).memory,
            db.disks == old(db).disks,
            db.disk_stats == old(db).disk_stats,
            db.network_stats == old(db).network_stats,
        decreases live_dv.len() - k,
    {
        let ghost cur = db.interfaces.deep_view();
        let ghost ls = live_dv.skip(k as int);
        proof {
            assert(ls[0] == live_dv[k as int]);
            assert(ls.drop_first() =~= live_dv.skip(k as int + 1));
            assert(live_dv[k as int] == interfaces@[k as int]@);
        }
        let ip = resolve_ip(arp, &interfaces[k].name);
        let row = NetworkInterface { name: interfaces[k].name.clone(), ip_addr: ip };
        proof {
            assert(row@ == interface_row_of(live_dv[k as int], arp_dv));
        }
        // The live names are distinct and only this pass writes, so the
        // entry snapshot still answers for this name.
        if !table_has_iface(&db.interfaces, &interfaces[k].name) {
            let ghost ifaces0 = db.interfaces.deep_view();
            db.interfaces.push(row);
            proof {
                assert(db.interfaces.deep_view() =~= ifaces0.push(
                    interface_row_of(live_dv[k as int], arp_dv),
                ));
            }
        } else {
            let stored = table_stored_ip(&db.interfaces, &interfaces[k].name);
            proof {
                assert(stored_ip(cur, live_dv[k as int].name) == stored_ip(
                    db0,
                    live_dv[k as int].name,
                ));
            }
            if !ip_eq(&stored, &row.ip_addr) {
                replace_iface_by_name(&mut db.interfaces, &row);
            }
        }
        proof {
            assert(db.interfaces.deep_view() == iface_step(cur, db0, live_dv[k as int], arp_dv));
            assert(apply_ifaces(cur, db0, ls, arp_dv) == apply_ifaces(
                db.interfaces.deep_view(),
                db0,
                ls.drop_first(),
                arp_dv,
            ));
            let cur2 = db.interfaces.deep_view();
            // uniqueness and name agreement carry to the next iteration
            if !has_iface_name(db0, live_dv[k as int].name) {
                assert(!has_iface_name(cur, live_dv[k as int].name));
                assert forall|a: int, b: int| 0 <= a < b < cur2.len() implies (
                #[trigger] cur2[a]).name != (#[trigger] cur2[b]).name by {
                    if b == cur.len() {
                        if cur[a].name == live_dv[k as int].name {
                            assert(has_iface_name(cur, live_dv[k as int].name));
                        }
                    }
                }
                assert forall|t: int|
                    k + 1 <= t < live_dv.len() implies (has_iface_name(
                    cur2,
                    (#[trigger] live_dv[t]).name,
                ) <==> has_iface_name(db0, live_dv[t].name)) by {
                    assert(live_dv[t].name != live_dv[k as int].name);
                    assert(has_iface_name(cur2, live_dv[t].name) <==> has_iface_name(
                        cur,
                        live_dv[t].name,
                    )) by {
                        if has_iface_name(cur2, live_dv[t].name) {
                            let u = choose|u: int| 0 <= u < cur2.len() && (#[trigger] cur2[u]).name
                                == live_dv[t].name;
                            if u < cur.len() {
                                assert(cur[u].name == live_dv[t].name);
                            }
                        }
                        if has_iface_name(cur, live_dv[t].name) {
                            let u = choose|u: int| 0 <= u < cur.len() && (#[trigger] cur[u]).name
                                == live_dv[t].name;
                            assert(cur2[u].name == live_dv[t].name);
                        }
                    }
                }
            } else if cur2 != cur {
                assert(forall|t: int| 0 <= t < cur2.len() ==> (#[trigger] cur2[t]).name == cur[t].name);
                assert forall|t: int|
                    k + 1 <= t < live_dv.len() implies (has_iface_name(
                    cur2,
                    (#[trigger] live_dv[t]).name,
                ) <==> has_iface_name(db0, live_dv[t].name)) by {
                    assert(has_iface_name(cur2, live_dv[t].name) <==> has_iface_name(
                        cur,
                        live_dv[t].name,
                    )) by {
                        if has_iface_name(cur2, live_dv[t].name) {
                            let u = choose|u: int| 0 <= u < cur2.len() && (#[trigger] cur2[u]).name
                                == live_dv[t].name;
                            assert(cur[u].name == live_dv[t].name);
                        }
                        if has_iface_name(cur, live_dv[t].name) {
                            let u = choose|u: int| 0 <= u < cur.len() && (#[trigger] cur[u]).name
                                == live_dv[t].name;
                            assert(cur2[u].name == live_dv[t].name);
                        }
                    }
                }
            }
            assert forall|t: int| k + 1 <= t < live_dv.len() implies stored_ip(
                cur2,
                (#[trigger] live_dv[t]).name,
            ) == stored_ip(db0, live_dv[t].name) by {
                assert(live_dv[t].name != live_dv[k as int].name);
                let row_v = interface_row_of(live_dv[k as int], arp_dv);
                if !has_iface_name(db0, live_dv[k as int].name) {
                    assert(cur2 == cur.push(row_v));
                    lemma_stored_ip_push(cur, row_v, live_dv[t].name);
                } else if stored_ip(db0, live_dv[k as int].name) != row_v.ip_addr {
                    assert(cur2 == replace_iface(cur, row_v));
                    lemma_stored_ip_replace(cur, row_v, live_dv[t].name);
                } else {
                    assert(cur2 == cur);
                }
            }
        }
        k += 1;
    }
    proof {
        assert(live_dv.skip(live_dv.len() as int).len() == 0);
        assert(apply_ifaces(db.interfaces.deep_view(), db0, live_dv.skip(live_dv.len() as int), arp_dv)
            == db.interfaces.deep_view());
    }

    // One sample per live interface.
    let ghost stats0 = db.network_stats.deep_view();
    let mut k: usize = 0;
    while k < interfaces.len()
        invariant
            k <= live_dv.len(),
            live_dv == interfaces.deep_view(),
            live_dv.len() == interfaces@.len(),
            cur_time <= i64::MAX as u64,
            db.network_stats.deep_view() =~= stats0 + net_stats_of(
                live_dv.take(k as int),
                cur_time,
            ),
            interface_names_unique(db.interfaces.deep_view()),
            db.interfaces.deep_view() == apply_ifaces(db0, db0, live_dv, arp.deep_view()),
            arp_dv == arp.deep_view(),
            db0 == old(db).interfaces.deep_view(),
            db.processes == old(db).processes,
            db.proc_stats == old(db).proc_stats,
            db.cpus == old(db).cpus,
            db.cpu_stats == old(db).cpu_stats,
            db.memory == old(db).memory,
            db.disks == old(db).disks,
            db.disk_stats == old(db).disk_stats,
        decreases live_dv.len() - k,
    {
        proof {
            assert(live_dv[k as int] == interfaces@[k as int]@);
        }
        let i = &interfaces[k];
        let ghost ns0 = db.network_stats.deep_view();
        let kb_recv = if i.recv_bytes / 1000 > u32::MAX as u64 {
            u32::MAX
        } else {
            (i.recv_bytes / 1000) as u32
        };
        let kb_sent = if i.sent_bytes / 1000 > u32::MAX as u64 {
            u32::MAX
        } else {
            (i.sent_bytes / 1000) as u32
        };
        let row = NetworkStat {
            name: i.name.clone(),
            timestamp: cur_time as i64,
            delta_bytes_recv: kb_recv,
            delta_bytes_sent: kb_sent,
            delta_packets_recv: clamp_u32(i.recv_packets),
            delta_packets_sent: clamp_u32(i.sent_packets),
            delta_err_recv: clamp_u32(i.recv_errs),
            delta_err_sent: clamp_u32(i.sent_errs),
        };
        db.network_stats.push(row);
        proof {
            assert(db.network_stats.deep_view() =~= ns0.push(
                net_stat_of(live_dv[k as int], cur_time),
            ));
            assert(live_dv.take(k as int + 1) =~= live_dv.take(k as int).push(live_dv[k as int]));
            assert(net_stats_of(live_dv.take(k as int + 1), cur_time) =~= net_stats_of(
                live_dv.take(k as int),
                cur_time,
            ).push(net_stat_of(live_dv[k as int], cur_time)));
        }
        k += 1;
    }
    proof {
        assert(live_dv.take(live_dv.len() as int) =~= live_dv);
    }

    let ghost mid_stats = db.network_stats.deep_view();
    clean_up_old_interfaces(db, interfaces);
    proof {
        let stat_pred = |st: NetworkStatView| live_has_iface(live_dv, st.name);
        let fresh = net_stats_of(live_dv, cur_time);
        assert(mid_stats == stats0 + fresh);
        lemma_keep_distributes(stats0, fresh, stat_pred);
        assert forall|i: int| 0 <= i < fresh.len() implies stat_pred(#[trigger] fresh[i]) by {
            assert(fresh[i] == net_stat_of(live_dv[i], cur_time));
            assert(live_dv[i].name == fresh[i].name);
        }
        lemma_keep_all(fresh, stat_pred);
        lemma_apply_ifaces_unique(db0, db0, live_dv, arp_dv);
    }
}

/// Clamps a 64-bit counter into the 32-bit column.
fn clamp_u32(x: u64) -> (r: u32)
    ensures
        r == sat_u32(x),
{
    if x > u32::MAX as u64 {
        u32::MAX
    } else {
        x as u32
    }
}

/// Appending a row of another name does not change what the lookup returns.
proof fn lemma_stored_ip_push(s: Seq<NetworkInterfaceView>, x: NetworkInterfaceView, n: Seq<char>)
    requires
        x.name != n,
    ensures
        stored_ip(s.push(x), n) == stored_ip(s, n),
        has_iface_name(s.push(x), n) == has_iface_name(s, n),
    decreases s.len(),
{
    let sp = s.push(x);
    if s.len() == 0 {
        assert(sp[0] == x);
        assert(sp.drop_first() =~= Seq::<NetworkInterfaceView>::empty());
    } else {
        assert(sp[0] == s[0]);
        assert(sp.drop_first() =~= s.drop_first().push(x));
        lemma_stored_ip_push(s.drop_first(), x, n);
    }
    assert(has_iface_name(sp, n) == has_iface_name(s, n)) by {
        if has_iface_name(sp, n) {
            let t = choose|t: int| 0 <= t < sp.len() && (#[trigger] sp[t]).name == n;
            assert(t < s.len());
            assert(s[t].name == n);
        }
        if has_iface_name(s, n) {
            let t = choose|t: int| 0 <= t < s.len() && (#[trigger] s[t]).name == n;
            assert(sp[t].name == n);
        }
    }
}

/// Overwriting the rows of another name does not change what the lookup
/// returns.
proof fn lemma_stored_ip_replace(
    s: Seq<NetworkInterfaceView>,
    row: NetworkInterfaceView,
    n: Seq<char>,
)
    requires
        row.name != n,
    ensures
        stored_ip(replace_iface(s, row), n) == stored_ip(s, n),
    decreases s.len(),
{
    let sr = replace_iface(s, row);
    if s.len() > 0 {
        assert(sr[0] == if s[0].name == row.name {
            row
        } else {
            s[0]
        });
        assert(sr[0].name == n <==> s[0].name == n);
        assert(sr.drop_first() =~= replace_iface(s.drop_first(), row));
        lemma_stored_ip_replace(s.drop_first(), row, n);
        if s[0].name == n {
            assert(sr[0] == s[0]);
        }
    }
}

} // verus!
