use nebula::database::Database;
use nebula::response::latest_disk_info;
use nebula::tables::{Disk, DiskStat};

fn disk(name: &str, mount: &str) -> Disk {
    Disk { device_name: name.to_string(), mount: mount.to_string(), fs_type: "ext4".to_string() }
}

fn stat(name: &str, timestamp: i64, used: u32) -> DiskStat {
    DiskStat { device_name: name.to_string(), timestamp, used, available: 1000 }
}

/// Each device is joined with its most recent sample; a device without a
/// sample yields no row.
#[test]
fn test_latest_disk_info() {
    let mut db = Database::new();
    db.disks.push(disk("/dev/sda1", "/"));
    db.disks.push(disk("/dev/sdb1", "/data"));
    db.disks.push(disk("/dev/sdc1", "/scratch"));
    db.disk_stats.push(stat("/dev/sda1", 10, 1));
    db.disk_stats.push(stat("/dev/sda1", 30, 3));
    db.disk_stats.push(stat("/dev/sda1", 20, 2));
    db.disk_stats.push(stat("/dev/sdb1", 5, 9));

    let info = latest_disk_info(&db);
    assert_eq!(info.len(), 2);
    assert_eq!(info[0].device_name, "/dev/sda1");
    assert_eq!(info[0].mount, "/");
    assert_eq!(info[0].timestamp, 30);
    assert_eq!(info[0].used, 3);
    assert_eq!(info[1].device_name, "/dev/sdb1");
    assert_eq!(info[1].timestamp, 5);
    assert_eq!(info[1].used, 9);
}

/// On a timestamp tie, the earlier of the tied sample rows wins.
#[test]
fn test_latest_disk_info_tie() {
    let mut db = Database::new();
    db.disks.push(disk("/dev/sda1", "/"));
    db.disk_stats.push(stat("/dev/sda1", 10, 1));
    db.disk_stats.push(stat("/dev/sda1", 10, 2));

    let info = latest_disk_info(&db);
    assert_eq!(info.len(), 1);
    assert_eq!(info[0].used, 1);
}
