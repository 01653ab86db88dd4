use dirscan::volumes::{filter_volumes, str_starts_with, VolumeInfo};

fn vol(name: &str, mount: &str) -> VolumeInfo {
    VolumeInfo {
        name: name.to_string(),
        mount_point: mount.to_string(),
        total_space: 1000,
        available_space: 500,
        file_system: "apfs".to_string(),
        is_removable: false,
    }
}

#[test]
fn shadowed_data_volume_is_dropped() {
    let disks = vec![vol("Macintosh HD", "/"), vol("Macintosh HD", "/System/Volumes/Data")];
    let kept = filter_volumes(disks);
    assert_eq!(kept.len(), 1);
    assert_eq!(kept[0].mount_point, "/");
}

#[test]
fn longer_duplicate_mount_is_dropped_shorter_is_kept() {
    // A later duplicate with a mount point at least as long is dropped; a
    // later strictly shorter one is kept alongside the earlier record.
    let disks = vec![
        vol("disk", "/mnt/a"),
        vol("disk", "/mnt/abc"),
        vol("disk", "/m"),
    ];
    let kept = filter_volumes(disks);
    let mounts: Vec<&str> = kept.iter().map(|v| v.mount_point.as_str()).collect();
    assert_eq!(mounts, vec!["/mnt/a", "/m"]);
}

#[test]
fn distinct_names_all_kept_in_order() {
    let disks = vec![vol("one", "/1"), vol("two", "/2"), vol("three", "/3")];
    let kept = filter_volumes(disks);
    let names: Vec<&str> = kept.iter().map(|v| v.name.as_str()).collect();
    assert_eq!(names, vec!["one", "two", "three"]);
    assert_eq!(kept[0].total_space, 1000);
    assert_eq!(kept[0].available_space, 500);
    assert_eq!(kept[0].file_system, "apfs");
    assert!(!kept[0].is_removable);
}

#[test]
fn starts_with_checks_prefixes() {
    assert!(str_starts_with("/System/Volumes/Data", "/System/Volumes/Data"));
    assert!(str_starts_with("/System/Volumes/Data/x", "/System/Volumes/Data"));
    assert!(!str_starts_with("/System/Volumes", "/System/Volumes/Data"));
    assert!(!str_starts_with("/Users", "/System/Volumes/Data"));
    assert!(str_starts_with("anything", ""));
}
