use nebula::database::Database;
use nebula::df::{parse_disk_data, parse_u32_prefix};
use nebula::disk::{clean_up_old_disk_data, init_disk_data, update_disk_data, DiskMetrics};
use nebula::tables::{Disk, DiskStat};

fn metrics(name: &str, mount: &str, fs: &str, used: u32, available: u32) -> DiskMetrics {
    DiskMetrics {
        name: name.to_string(),
        mount: mount.to_string(),
        file_system_type: fs.to_string(),
        used,
        available,
    }
}

fn disk(name: &str) -> Disk {
    Disk {
        device_name: name.to_string(),
        mount: format!("/mnt/{}", name.trim_start_matches('/')),
        fs_type: "ext4".to_string(),
    }
}

fn disk_stat(name: &str, timestamp: i64) -> DiskStat {
    DiskStat { device_name: name.to_string(), timestamp, used: 1, available: 2 }
}

/// Cleanup removes everything of a device absent from the live set —
/// samples and the device row — and nothing of a still-live device.
#[test]
fn test_clean_up_disks() {
    let mut db = Database::new();
    db.disks.push(disk("/test/disk"));
    db.disks.push(disk("/old/disk"));
    db.disk_stats.push(disk_stat("/old/disk", 10));

    let cur_disks = vec![metrics("/test/disk", "/test/folder", "ext4", 21, 42)];
    clean_up_old_disk_data(&mut db, &cur_disks);

    assert_eq!(db.disks.len(), 1);
    assert_eq!(db.disks[0].device_name, "/test/disk");
    assert_eq!(db.disk_stats.len(), 0);
}

/// Initialization replaces stored metadata with the live enumeration and
/// drops stale devices with their samples; it appends no sample itself.
#[test]
fn test_init_disk_data() {
    let mut db = Database::new();
    db.disks.push(disk("/gone"));
    db.disks.push(disk("/dev/sda1"));
    db.disk_stats.push(disk_stat("/gone", 5));

    let cur_disks = vec![
        metrics("/dev/sda1", "/", "ext4", 100, 900),
        metrics("/dev/sdb1", "/data", "xfs", 7, 3),
    ];
    init_disk_data(&mut db, &cur_disks);

    assert_eq!(db.disks.len(), 2);
    let sda: Vec<&Disk> = db.disks.iter().filter(|d| d.device_name == "/dev/sda1").collect();
    assert_eq!(sda.len(), 1);
    assert_eq!(sda[0].mount, "/");
    let sdb: Vec<&Disk> = db.disks.iter().filter(|d| d.device_name == "/dev/sdb1").collect();
    assert_eq!(sdb.len(), 1);
    assert_eq!(sdb[0].fs_type, "xfs");
    assert_eq!(db.disk_stats.len(), 0);
}

/// One steady-state pass: every live device upserted, one sample per live
/// device at the tick, stale devices gone with their samples.
#[test]
fn disk_test_update_disk_data() {
    let mut db = Database::new();
    db.disks.push(disk("/dev/sda1"));
    db.disks.push(disk("/stale"));
    db.disk_stats.push(disk_stat("/stale", 9));
    db.disk_stats.push(disk_stat("/dev/sda1", 9));

    let cur_time: u64 = 1700000100;
    let cur_disks = vec![
        metrics("/dev/sda1", "/", "ext4", 100, 900),
        metrics("/dev/sdb1", "/data", "xfs", 7, 3),
    ];
    update_disk_data(&mut db, cur_time, &cur_disks);

    assert_eq!(db.disks.len(), 2);
    // a known device's stored metadata is refreshed from the live enumeration
    let sda: Vec<&Disk> = db.disks.iter().filter(|d| d.device_name == "/dev/sda1").collect();
    assert_eq!(sda[0].mount, "/");

    // one fresh sample per live device, stale samples gone
    assert_eq!(db.disk_stats.len(), 3);
    let fresh: Vec<&DiskStat> = db
        .disk_stats
        .iter()
        .filter(|s| s.timestamp == cur_time as i64)
        .collect();
    assert_eq!(fresh.len(), 2);
    assert_eq!(fresh[0].device_name, "/dev/sda1");
    assert_eq!(fresh[0].used, 100);
    assert_eq!(fresh[1].device_name, "/dev/sdb1");
    assert_eq!(fresh[1].available, 3);
    assert!(db.disk_stats.iter().all(|s| s.device_name != "/stale"));
}

/// Parsing well-formed enumeration output: the header is dropped, virtual
/// file systems are skipped, figures are exact integer MB.
#[test]
fn test_parse_disk_data() {
    let output = "Filesystem     Type  1M-blocks  Used Avail Use% Mounted on\n\
                  /dev/sda1      ext4     50000M 3310M 44000M   8% /\n\
                  tmpfs          tmpfs     1000M    0M  1000M   0% /run\n\
                  /dev/sdb1      xfs        800M  123M   677M  16% /data\n";
    let disks = parse_disk_data(output).expect("well-formed output parses");
    assert_eq!(disks.len(), 2);
    assert_eq!(disks[0].name, "/dev/sda1");
    assert_eq!(disks[0].file_system_type, "ext4");
    assert_eq!(disks[0].used, 3310);
    assert_eq!(disks[0].available, 44000);
    assert_eq!(disks[0].mount, "/");
    assert_eq!(disks[1].name, "/dev/sdb1");
    assert_eq!(disks[1].used, 123);
    assert_eq!(disks[1].available, 677);
    assert_eq!(disks[1].mount, "/data");
}

/// A rooted row that does not fit the column grammar fails the whole parse.
#[test]
fn test_parse_disk_data_malformed() {
    // too few columns on a rooted row
    let output = "Filesystem Type 1M-blocks Used Avail Use% Mounted on\n/dev/sda1 ext4\n";
    assert!(parse_disk_data(output).is_none());

    // a non-numeric size column
    let output2 = "header\n/dev/sda1 ext4 50000M 3.1GM 44000M 8% /\n";
    assert!(parse_disk_data(output2).is_none());

    // a size out of the 32-bit range
    let output3 = "header\n/dev/sda1 ext4 50000M 99999999999M 44000M 8% /\n";
    assert!(parse_disk_data(output3).is_none());

    // a size column missing its unit letter
    let output4 = "header\n/dev/sda1 ext4 50000M 1234 44000M 8% /\n";
    assert!(parse_disk_data(output4).is_none());
}

/// A figure's leading digit run is read exactly; a field with no leading
/// digit, or one past the column's range, is refused.
#[test]
fn test_parse_u32_prefix() {
    assert_eq!(parse_u32_prefix("512 KB"), Some(512));
    assert_eq!(parse_u32_prefix("512"), Some(512));
    assert_eq!(parse_u32_prefix("0x"), Some(0));
    assert_eq!(parse_u32_prefix("KB"), None);
    assert_eq!(parse_u32_prefix(""), None);
    assert_eq!(parse_u32_prefix("4294967295 rest"), Some(u32::MAX));
    assert_eq!(parse_u32_prefix("4294967296"), None);
}

/// Output with a header only, or nothing at all, parses to no disks.
#[test]
fn test_parse_disk_data_empty() {
    assert_eq!(parse_disk_data("").expect("empty output is fine").len(), 0);
    assert_eq!(
        parse_disk_data("Filesystem Type 1M-blocks Used Avail Use% Mounted on\n")
            .expect("header only is fine")
            .len(),
        0
    );
}
