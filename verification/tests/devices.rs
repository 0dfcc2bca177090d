use fsx_tools::blocks::{unique_keys, LeafWalk};
use fsx_tools::domain::MediaKind;
use fsx_tools::runtime::{
    batch_media_kind, copy_chunk_bytes_for_file, copy_chunk_bytes_for_media,
    inflight_max_bytes_for_media, inflight_reserve_bytes_for_file, media_of_block,
    option_u64_saturating_add, option_u64_saturating_sub, parse_setting, preferred_thread_count,
    transfer_profile_key, BlockAncestor,
};
use fsx_tools::telemetry::{
    counter_delta, device_key, device_key_for_block_device, diskstats_bytes_for_keys,
    local_path_from_transfer_arg, mount_source_device, parse_major_minor, parse_proc_io_counters,
    preferred_scheduler, proc_io_deltas, unescape_mountinfo_field, ProcIoCounters, ProcIoDeltas,
};

#[test]
fn device_numbers_have_two_parts() {
    assert_eq!(device_key(0x0801), (8, 1));
    assert_eq!(device_key(0x0010_3005), (0x30, 0x105));
    assert_eq!(device_key_for_block_device(0), None);
    assert_eq!(device_key_for_block_device(0x0103), Some((1, 3)));
}

#[test]
fn disk_statistics_are_summed_by_device() {
    let raw = "   8       0 sda 10 0 100 0 5 0 40 0\n   8       1 sda1 1 0 7 0 1 0 3 0\nbroken\n";
    assert_eq!(diskstats_bytes_for_keys(raw, &[(8, 0)], &[(8, 1)]), (Some(51200), Some(1536)));
    assert_eq!(diskstats_bytes_for_keys(raw, &[(9, 9)], &[]), (None, None));
}

#[test]
fn mounts_are_found_by_the_longest_path() {
    let raw = "1 0 8:1 / / rw - ext4 /dev/sda1 rw\n2 1 8:2 / /mnt/my\\040disk rw - ext4 /dev/sdb1 rw\n3 1 0:3 / /proc rw - proc proc rw\n";
    assert_eq!(mount_source_device(raw, "/mnt/my disk/file"), Some("/dev/sdb1".to_string()));
    assert_eq!(mount_source_device(raw, "/home"), Some("/dev/sda1".to_string()));
    assert_eq!(unescape_mountinfo_field("a\\134b\\040c"), "a\\b c");
    assert_eq!(unescape_mountinfo_field("caf\\303\\251"), "caf\u{e9}");
    assert_eq!(unescape_mountinfo_field("\\377"), "\u{fffd}");
}

#[test]
fn small_files_of_the_kernel_are_read() {
    assert_eq!(parse_major_minor(" 259:3\n"), Some((259, 3)));
    assert_eq!(parse_major_minor("259"), None);
    let raw = "rchar: 10\nwchar: 20\nsyscr: 1\nread_bytes: 30\nwrite_bytes: 40\n";
    let counters = ProcIoCounters { rchar: 10, wchar: 20, read_bytes: 30, write_bytes: 40 };
    assert_eq!(parse_proc_io_counters(raw), Some(counters));
    assert_eq!(parse_proc_io_counters("rchar: 10\n"), None);
    assert_eq!(preferred_scheduler("none mq-deadline [bfq]"), Some("mq-deadline".to_string()));
    assert_eq!(preferred_scheduler("none [mq-deadline] bfq"), None);
    assert_eq!(local_path_from_transfer_arg("./a//"), Some("./a".to_string()));
    assert_eq!(local_path_from_transfer_arg("host:a"), None);
}

#[test]
fn counters_are_compared_and_added() {
    assert_eq!(counter_delta(Some(3), Some(10)), Some(7));
    assert_eq!(counter_delta(Some(10), Some(3)), Some(0));
    assert_eq!(counter_delta(None, Some(3)), None);
    let at = |n: u64| Some(ProcIoCounters { rchar: n, wchar: n, read_bytes: n, write_bytes: n });
    let delta = proc_io_deltas(at(1), at(5));
    let each = |n: Option<u64>| ProcIoDeltas { rchar: n, wchar: n, read_bytes: n, write_bytes: n };
    assert_eq!(delta, each(Some(4)));
    assert_eq!(delta.plus(each(None)), each(Some(4)));
    assert_eq!(delta.plus(delta), each(Some(8)));
    assert_eq!(option_u64_saturating_sub(Some(1), Some(2)), Some(0));
    assert_eq!(option_u64_saturating_add(None, None), None);
}

#[test]
fn storage_is_told_by_rotation() {
    let block = |name: &str, rotational: Option<&str>| BlockAncestor {
        name: name.to_string(),
        rotational: rotational.map(|s| s.to_string()),
    };
    let spinning = vec![block("sda1", None), block("sda", Some("1\n"))];
    assert_eq!(media_of_block(&spinning, "/sys/block/sda/sda1"), MediaKind::Hdd);
    let flash = vec![block("nvme0n1p1", None), block("nvme0n1", Some("0"))];
    assert_eq!(media_of_block(&flash, "/sys/x"), MediaKind::Nvme);
    let plain = vec![block("sda", Some("0"))];
    assert_eq!(media_of_block(&plain, "/sys/x"), MediaKind::Other);
    assert_eq!(media_of_block(&vec![], "/sys/block/nvme0n1"), MediaKind::Nvme);
    let ends = [MediaKind::Nvme, MediaKind::Hdd];
    assert_eq!(batch_media_kind(MediaKind::Nvme, &ends), MediaKind::Hdd);
    assert_eq!(batch_media_kind(MediaKind::Nvme, &[]), MediaKind::Nvme);
}

#[test]
fn work_is_sized_for_the_storage() {
    assert_eq!(parse_setting(Some(" 12 ")), Some(12));
    assert_eq!(parse_setting(Some("0")), None);
    assert_eq!(preferred_thread_count(MediaKind::Hdd, Some(9), 64), 2);
    assert_eq!(preferred_thread_count(MediaKind::Nvme, None, 64), 32);
    assert_eq!(preferred_thread_count(MediaKind::Other, None, 64), 8);
    assert_eq!(copy_chunk_bytes_for_media(MediaKind::Hdd, None), 4 << 20);
    assert_eq!(copy_chunk_bytes_for_media(MediaKind::Hdd, Some(1)), 64 << 10);
    assert_eq!(copy_chunk_bytes_for_file(MediaKind::Hdd, Some(128), 5), 64 << 10);
    assert_eq!(copy_chunk_bytes_for_file(MediaKind::Hdd, Some(128), 1 << 20), 256 << 10);
    assert_eq!(copy_chunk_bytes_for_file(MediaKind::Hdd, Some(128), 1 << 30), 128 << 10);
    assert_eq!(inflight_max_bytes_for_media(MediaKind::Nvme, Some(7)), Some(7 << 20));
    assert_eq!(inflight_max_bytes_for_media(MediaKind::Hdd, None), Some(96 << 20));
    assert_eq!(inflight_max_bytes_for_media(MediaKind::Nvme, None), None);
    assert_eq!(inflight_reserve_bytes_for_file(10, MediaKind::Hdd), 4 << 20);
    assert_eq!(inflight_reserve_bytes_for_file(1 << 40, MediaKind::Hdd), 32 << 20);
    assert_eq!(inflight_reserve_bytes_for_file(10, MediaKind::Nvme), 1 << 20);
}

#[test]
fn profiles_are_told_apart() {
    let a = transfer_profile_key(Some(1), Some(2));
    assert_ne!(a, transfer_profile_key(Some(2), Some(1)));
    assert_eq!(a, transfer_profile_key(Some(1), Some(2)));
}

#[test]
fn leaves_are_visited_once() {
    let mut walk = LeafWalk::new("dm-0");
    assert_eq!(walk.next(), Some("dm-0".to_string()));
    walk.found(&vec!["sda1".to_string(), "sdb1".to_string()], None);
    let first = walk.next().unwrap();
    walk.found(&vec![], Some((8, if first == "sda1" { 1 } else { 17 })));
    let second = walk.next().unwrap();
    assert_ne!(first, second);
    walk.found(&vec!["dm-0".to_string()], Some((8, 33)));
    assert_eq!(walk.next(), None);
    assert_eq!(LeafWalk::new("sda").finish(Some((8, 0))), vec![(8, 0)]);
    assert_eq!(unique_keys(&vec![(8, 0), (8, 1), (8, 0)]), vec![(8, 0), (8, 1)]);
}
