use nebula::database::Database;
use nebula::network::{clean_up_old_interfaces, init_network_data, update_network_interface_data};
use nebula::snapshot::{ArpEntry, LiveInterface};
use nebula::tables::{NetworkInterface, NetworkStat};

fn live(name: &str, recv_bytes: u64, sent_bytes: u64) -> LiveInterface {
    LiveInterface {
        name: name.to_string(),
        recv_bytes,
        sent_bytes,
        recv_packets: 4,
        sent_packets: 5,
        recv_errs: 0,
        sent_errs: 1,
    }
}

fn arp(device: &str, ip: &str) -> ArpEntry {
    ArpEntry { device: device.to_string(), ip_address: ip.to_string() }
}

fn iface(name: &str, ip: Option<&str>) -> NetworkInterface {
    NetworkInterface { name: name.to_string(), ip_addr: ip.map(|s| s.to_string()) }
}

fn net_stat(name: &str, timestamp: i64) -> NetworkStat {
    NetworkStat {
        name: name.to_string(),
        timestamp,
        delta_bytes_recv: 1,
        delta_bytes_sent: 1,
        delta_packets_recv: 1,
        delta_packets_sent: 1,
        delta_err_recv: 0,
        delta_err_sent: 0,
    }
}

/// Cleanup removes everything of an interface absent from the live snapshot.
#[test]
fn test_clean_up_old_interface_data() {
    let mut db = Database::new();
    db.interfaces.push(iface("eth9", None));
    db.network_stats.push(net_stat("eth9", 10));

    let cur: Vec<LiveInterface> = Vec::new();
    clean_up_old_interfaces(&mut db, &cur);

    assert!(db.interfaces.is_empty());
    assert!(db.network_stats.is_empty());
}

/// Initialization upserts every live interface with its resolved address,
/// drops stale interfaces with their samples, and appends no sample.
#[test]
fn test_init_interface_data() {
    let mut db = Database::new();
    db.interfaces.push(iface("stale0", Some("9.9.9.9")));
    db.network_stats.push(net_stat("stale0", 10));

    let cur = vec![live("eth0", 1000, 2000), live("lo", 0, 0)];
    let table = vec![arp("eth0", "10.0.0.7")];
    init_network_data(&mut db, &cur, &table);

    assert_eq!(db.interfaces.len(), 2);
    let eth0: Vec<&NetworkInterface> =
        db.interfaces.iter().filter(|i| i.name == "eth0").collect();
    assert_eq!(eth0.len(), 1);
    assert_eq!(eth0[0].ip_addr.as_deref(), Some("10.0.0.7"));
    let lo: Vec<&NetworkInterface> = db.interfaces.iter().filter(|i| i.name == "lo").collect();
    assert_eq!(lo[0].ip_addr, None);
    assert!(db.network_stats.is_empty());
}

/// One steady-state pass: a stored address that no longer matches the
/// resolved one is refreshed, and one counter-delta sample is appended per
/// live interface, byte counts scaled to KB.
#[test]
fn test_update_network_data() {
    let mut db = Database::new();
    db.interfaces.push(iface("eth0", Some("1.2.3.4")));
    db.interfaces.push(iface("lo", Some("1.2.3.4")));

    let cur_time: u64 = 1700000200;
    let cur = vec![live("eth0", 123_000, 45_000), live("lo", 10, 20)];
    let table = vec![arp("eth0", "10.0.0.7")];
    update_network_interface_data(&mut db, cur_time, &cur, &table);

    assert_eq!(db.interfaces.len(), 2);
    for i in db.interfaces.iter() {
        assert_ne!(i.ip_addr.as_deref(), Some("1.2.3.4"));
    }
    let eth0: Vec<&NetworkInterface> =
        db.interfaces.iter().filter(|i| i.name == "eth0").collect();
    assert_eq!(eth0[0].ip_addr.as_deref(), Some("10.0.0.7"));

    assert_eq!(db.network_stats.len(), 2);
    let s0 = &db.network_stats[0];
    assert_eq!(s0.name, "eth0");
    assert_eq!(s0.timestamp, cur_time as i64);
    assert_eq!(s0.delta_bytes_recv, 123);
    assert_eq!(s0.delta_bytes_sent, 45);
    assert_eq!(s0.delta_packets_recv, 4);
    assert_eq!(s0.delta_packets_sent, 5);
    assert_eq!(s0.delta_err_recv, 0);
    assert_eq!(s0.delta_err_sent, 1);
    // sub-KB byte counts round down to zero
    assert_eq!(db.network_stats[1].delta_bytes_recv, 0);
}

/// A counter too large for its column is clamped, not wrapped.
#[test]
fn test_update_network_data_clamps() {
    let mut db = Database::new();
    let cur_time: u64 = 1700000300;
    let mut big = live("eth0", u64::MAX, 0);
    big.recv_packets = u64::MAX;
    let cur = vec![big];
    let table: Vec<ArpEntry> = Vec::new();
    update_network_interface_data(&mut db, cur_time, &cur, &table);

    assert_eq!(db.network_stats.len(), 1);
    assert_eq!(db.network_stats[0].delta_bytes_recv, u32::MAX);
    assert_eq!(db.network_stats[0].delta_packets_recv, u32::MAX);
    assert_eq!(db.network_stats[0].delta_bytes_sent, 0);
}
