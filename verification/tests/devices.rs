use ps2_backup_tool::extents::{
    check_dir_contiguity, check_file_contiguity, look_first, run_covers, windows_extents,
    EntryProbe, ExtentReply, ExtentScan, FirstLook, RunScan,
};
use ps2_backup_tool::filesystem::{
    detect_devices, detect_primary_device, get_device_info, get_space_info, is_offered_windows,
    is_removable_macos, is_system_volume_macos, linux_mount_points, system_drive,
    windows_directory, windows_root, windows_roots, CommandOutput, DeviceInfo, DeviceProbe,
    FilesystemType, FsError, SpaceProbe, SpaceStat, Volume,
};
use ps2_backup_tool::format::{
    check_mount_point, disk_identifier_macos, format_drive_fat32, format_drive_for_opl,
    format_outcome, DriveQuery,
};
use ps2_backup_tool::lsblk::{mount_points, mount_points_in};
use ps2_backup_tool::settings::{get_settings, save_settings, AppSettings, AppState};
use ps2_backup_tool::checksum::ChecksumAlgo;

fn output(success: bool, stdout: &str, stderr: &str) -> CommandOutput {
    CommandOutput {
        success,
        stdout: stdout.as_bytes().to_vec(),
        stderr: stderr.as_bytes().to_vec(),
    }
}

fn device(name: &str, removable: bool) -> DeviceInfo {
    DeviceInfo {
        name: name.into(),
        mount_point: format!("/media/{}", name),
        filesystem: FilesystemType::Fat32,
        free_space: 1,
        total_space: 2,
        is_removable: removable,
        recommended_mode: "split".into(),
    }
}

fn wide(s: &str) -> Vec<u16> {
    s.encode_utf16().chain([0, 0x41]).collect()
}

// ---------------------------------------------------------------- file systems

#[test]
fn test_filesystem_needs_split() {
    assert!(FilesystemType::Fat32.needs_split());
    assert!(!FilesystemType::Ntfs.needs_split());
    assert!(!FilesystemType::ExFat.needs_split());
}

#[test]
fn test_recommended_mode() {
    assert_eq!(FilesystemType::Fat32.recommended_mode(), "split");
    assert_eq!(FilesystemType::Ntfs.recommended_mode(), "nosplit");
    assert_eq!(FilesystemType::ExFat.recommended_mode(), "nosplit");
}

#[test]
fn file_systems_have_names() {
    assert_eq!(FilesystemType::Fat32.display_name(), "FAT32");
    assert_eq!(FilesystemType::ExFat.display_name(), "exFAT");
    assert_eq!(FilesystemType::HfsPlus.display_name(), "HFS+");
    assert_eq!(FilesystemType::Unknown("btrfs".into()).display_name(), "btrfs");
}

#[test]
fn device_errors_in_words() {
    assert_eq!(FsError::Io("x".into()).message(), "IO error: x");
    assert_eq!(FsError::NoDevices.message(), "No removable devices found");
    assert_eq!(
        FsError::UnsupportedOs.message(),
        "Filesystem detection not supported on this OS"
    );
    assert_eq!(
        FsError::DetectionFailed("x".into()).message(),
        "Failed to detect filesystem: x"
    );
}

// ---------------------------------------------------------------- devices

#[test]
fn linux_devices_by_findmnt() {
    for (text, name) in [
        ("vfat 14.9G 3G\n", "FAT32"),
        ("  fat32 1 1", "FAT32"),
        ("ntfs3 1T 1T", "NTFS"),
        ("exfat", "exFAT"),
        ("ext4 1 1", "ext4"),
        ("btrfs 1 1", "btrfs"),
        ("", ""),
    ] {
        let probe = DeviceProbe::Linux(Ok(output(false, text, "")));
        let info = get_device_info("/media/usb", Some("usb".into()), (3, 9), &probe).unwrap();
        assert_eq!(info.filesystem.display_name(), name);
        assert_eq!(info.name, "usb");
        assert_eq!((info.free_space, info.total_space), (3, 9));
        assert!(info.is_removable);
    }
    let unnamed = get_device_info("/", None, (0, 0), &DeviceProbe::Linux(Ok(output(true, "vfat", ""))));
    let unnamed = unnamed.unwrap();
    assert_eq!((unnamed.name.as_str(), unnamed.recommended_mode.as_str()), ("USB Drive", "split"));
    let failed = get_device_info("/", None, (0, 0), &DeviceProbe::Linux(Err("no findmnt".into())));
    assert_eq!(failed.unwrap_err().message(), "Failed to detect filesystem: no findmnt");
}

#[test]
fn macos_devices_by_diskutil() {
    let probe = DeviceProbe::MacOs(Ok(output(true, "<string>exFAT</string>", "")));
    let info = get_device_info("/Volumes/X", None, (0, 0), &probe).unwrap();
    assert_eq!((info.name.as_str(), info.recommended_mode.as_str()), ("Unknown", "nosplit"));
    let probe = DeviceProbe::MacOs(Ok(output(true, "MS-DOS FAT32 and NTFS", "")));
    let info = get_device_info("/Volumes/X", Some("X".into()), (0, 0), &probe).unwrap();
    assert_eq!(info.filesystem.display_name(), "FAT32");
    let probe = DeviceProbe::MacOs(Ok(output(true, "nothing", "")));
    let info = get_device_info("/Volumes/X", None, (0, 0), &probe).unwrap();
    assert_eq!(info.filesystem.display_name(), "Unknown");
    let probe = DeviceProbe::MacOs(Ok(output(false, "FAT32", "not a disk")));
    let failed = get_device_info("/Volumes/X", None, (0, 0), &probe);
    assert_eq!(failed.unwrap_err().message(), "Failed to detect filesystem: not a disk");
}

#[test]
fn windows_devices_by_volume() {
    let probe = DeviceProbe::Windows { volume: Some((wide("GAMES"), wide("fat32"))), drive_type: 2 };
    let info = get_device_info("E:\\", None, (5, 6), &probe).unwrap();
    assert_eq!((info.name.as_str(), info.mount_point.as_str()), ("GAMES", "E:\\"));
    assert_eq!(info.filesystem.display_name(), "FAT32");
    assert!(info.is_removable);
    let probe = DeviceProbe::Windows { volume: Some((wide(""), wide("ReFS"))), drive_type: 3 };
    let info = get_device_info("E:\\", None, (0, 0), &probe).unwrap();
    assert_eq!((info.name.as_str(), info.filesystem.display_name().as_str()), ("E:", "REFS"));
    assert!(!info.is_removable);
    let probe = DeviceProbe::Windows { volume: None, drive_type: 2 };
    let info = get_device_info("F", None, (0, 0), &probe).unwrap();
    assert_eq!((info.name.as_str(), info.filesystem.display_name().as_str()), ("F", "Unknown"));
    let unended = DeviceProbe::Windows { volume: Some((vec![0x41], vec![0x42])), drive_type: 2 };
    let info = get_device_info("G:\\", None, (0, 0), &unended).unwrap();
    assert_eq!((info.name.as_str(), info.filesystem.display_name().as_str()), ("G:", ""));
}

#[test]
fn chosen_volumes_come_before_spare_ones() {
    let volume = |name: &str, chosen, spare| Volume { chosen, spare, info: Ok(device(name, true)) };
    let names = |v: &[Volume]| -> Vec<String> {
        detect_devices(v).into_iter().map(|d| d.name).collect()
    };
    assert_eq!(names(&[volume("a", false, true), volume("b", true, true)]), ["b"]);
    assert_eq!(names(&[volume("a", false, true), volume("b", false, false)]), ["a"]);
    let broken = Volume { chosen: true, spare: true, info: Err(FsError::NoDevices) };
    assert_eq!(names(&[broken, volume("c", false, true)]), ["c"]);
    assert!(names(&[]).is_empty());
}

#[test]
fn the_primary_device_is_the_first_removable_one() {
    let found = detect_primary_device(Ok(vec![device("a", false), device("b", true), device("c", true)]));
    assert_eq!(found.unwrap().name, "b");
    let none = detect_primary_device(Ok(vec![device("a", false)]));
    assert!(matches!(none, Err(FsError::NoDevices)));
    let failed = detect_primary_device(Err(FsError::DetectionFailed("x".into())));
    assert!(matches!(failed, Err(FsError::DetectionFailed(_))));
}

#[test]
fn space_comes_from_the_nearest_level() {
    let stat = |fragment, available, blocks| SpaceProbe {
        is_dir: true,
        stat: Some(SpaceStat { fragment, available, blocks }),
    };
    assert_eq!(get_space_info(&[stat(512, 10, 100)]), (5120, 51200));
    let none = SpaceProbe { is_dir: true, stat: None };
    assert_eq!(get_space_info(&[none, stat(0, 1, 1), stat(4, 0, 0), stat(4, 1, 2)]), (4, 8));
    let gone = SpaceProbe { is_dir: false, stat: None };
    assert_eq!(get_space_info(&[none, gone, stat(4, 1, 2)]), (0, 0));
    assert_eq!(get_space_info(&[]), (0, 0));
    let vast = stat(u64::MAX, u64::MAX, u64::MAX);
    assert_eq!(get_space_info(&[stat(4, 1, 2), vast]), (4, 8));
    assert_eq!(get_space_info(&[gone, vast]), (0, 0));
    assert_eq!(get_space_info(&[stat(u64::MAX, 5, 0), stat(0, 5, 5), stat(4, 1, 2)]), (4, 8));
}

#[test]
fn lsblk_lists_mounted_partitions() {
    let text = r#"{"blockdevices": [
        {"name": "nvme0n1", "tran": "nvme", "children": [
            {"name": "nvme0n1p2", "mountpoint": "/", "tran": "nvme"}]},
        {"name": "sdz", "tran": null, "rm": false, "hotplug": false, "children": [
            {"mountpoint": "/home", "tran": "usb", "rm": true}]},
        {"name": "sda", "tran": "usb", "mountpoint": "/ignored", "children": [
            {"name": "sda1", "mountpoint": "/media/a"},
            {"name": "sda2", "mountpoint": null},
            {"name": "sda3", "mountpoint": ""}]},
        {"name": "sdb", "tran": "usb"},
        {"name": "sdc", "tran": "usb", "children": [{"mountpoint": "/media/c"}]}]}"#;
    assert_eq!(mount_points(text), ["/media/a", "/media/c"]);
    assert!(mount_points("not json").is_empty());
    assert!(mount_points("[1, 2]").is_empty());
    let found = linux_mount_points(&Ok(output(true, text, "")));
    assert_eq!(found.unwrap(), ["/media/a", "/media/c"]);
    let failed = linux_mount_points(&Err("no lsblk".into()));
    assert_eq!(failed.unwrap_err().message(), "Failed to detect filesystem: no lsblk");
}

#[test]
fn a_document_is_walked_by_its_members() {
    let mut part = serde_json::Map::new();
    part.insert("mountpoint".into(), serde_json::Value::String("/mnt/x".into()));
    let mut dev = serde_json::Map::new();
    let parts = vec![serde_json::Value::Object(part), serde_json::Value::Bool(true)];
    dev.insert("children".into(), serde_json::Value::Array(parts));
    let mut fixed = dev.clone();
    fixed.insert("rm".into(), serde_json::Value::Bool(false));
    dev.insert("tran".into(), serde_json::Value::String("usb".into()));
    let mut top = serde_json::Map::new();
    let devices = vec![
        serde_json::Value::Null,
        serde_json::Value::Object(dev),
        serde_json::Value::Object(fixed),
    ];
    top.insert("blockdevices".into(), serde_json::Value::Array(devices));
    assert_eq!(mount_points_in(&serde_json::Value::Object(top)), ["/mnt/x"]);
    assert!(mount_points_in(&serde_json::Value::Null).is_empty());
}

#[test]
fn removable_storage_is_offered() {
    let offered = |device: &str| {
        let text = format!(
            r#"{{"blockdevices": [{{{}, "children": [{{"mountpoint": "/x"}}]}}]}}"#,
            device
        );
        !mount_points(&text).is_empty()
    };
    assert!(offered(r#""tran": "usb", "rm": false, "hotplug": false"#));
    assert!(offered(r#""tran": "usb""#));
    assert!(offered(r#""tran": null, "rm": false, "hotplug": true"#));
    assert!(offered(r#""tran": "mmc", "rm": true, "hotplug": false"#));
    assert!(offered(r#""tran": "sata", "rm": "0", "hotplug": "1""#));
    assert!(offered(r#""tran": "sata", "rm": "1""#));
    assert!(!offered(r#""tran": "sata", "rm": false, "hotplug": false"#));
    assert!(!offered(r#""tran": "nvme", "rm": "0", "hotplug": "0""#));
    assert!(!offered(r#""tran": null, "rm": false"#));
    assert!(offered(r#""tran": null"#));
    assert!(offered(r#""name": "mmcblk0""#));
    assert!(offered(r#""tran": "mmc", "rm": "x", "hotplug": 1"#));
    for bus in ["ata", "sata", "nvme", "sas", "virtio"] {
        assert!(!offered(&format!(r#""tran": "{}""#, bus)));
    }
}

#[test]
fn macos_volumes() {
    assert!(is_removable_macos(Some(b"   Removable Media:   Removable")));
    assert!(is_removable_macos(Some(b"   Protocol:                 USB")));
    assert!(is_removable_macos(Some(b"Device Location: External")));
    assert!(!is_removable_macos(Some(b"   Protocol:  USB")));
    assert!(!is_removable_macos(None));
    assert!(is_system_volume_macos("Macintosh HD"));
    assert!(is_system_volume_macos(".timemachine"));
    assert!(!is_system_volume_macos("PS2"));
}

#[test]
fn windows_drives() {
    let buffer: Vec<u16> = "C:\\\0E:\\\0\0".encode_utf16().collect();
    assert_eq!(windows_roots(&buffer, 8).unwrap(), ["C:\\", "E:\\"]);
    assert_eq!(windows_roots(&buffer, 4).unwrap(), ["C:\\"]);
    let unended: Vec<u16> = "C:\\".encode_utf16().collect();
    assert_eq!(windows_roots(&unended, 3).unwrap(), ["C:\\"]);
    let pair = [0xD834, 0xDD1E, 0x41, 0xD800, 0x42, 0xDC00, 0xD83D];
    assert_eq!(windows_roots(&pair, 7).unwrap(), ["𝄞A\u{FFFD}B\u{FFFD}\u{FFFD}"]);
    assert_eq!(
        windows_roots(&buffer, 0).unwrap_err().message(),
        "Failed to detect filesystem: GetLogicalDriveStringsW failed"
    );
    assert_eq!(system_drive(Some("d:".into())), "D:");
    assert_eq!(system_drive(None), "C:");
    assert!(is_offered_windows("E:\\", 2, "C:"));
    assert!(is_offered_windows("E:\\", 3, "C:"));
    assert!(!is_offered_windows("E:\\", 5, "C:"));
    assert!(!is_offered_windows("c:\\", 3, "C:"));
    assert_eq!(windows_root("E:"), "E:\\");
    assert_eq!(windows_root("E:\\"), "E:\\");
    assert_eq!(windows_directory("E:/"), "E:/");
    assert_eq!(windows_directory("E:\\x"), "E:\\x\\");
}

// ---------------------------------------------------------------- formatting

#[test]
fn formatting_runs_the_right_program() {
    let mut dev = device("usb", true);
    let cmd = format_drive_fat32(&dev, "PS2", &DriveQuery::Linux(Ok(b"/dev/sdb1\n".to_vec()))).unwrap();
    assert_eq!(cmd.program, "mkfs.fat");
    assert_eq!(cmd.args, ["-F", "32", "-n", "PS2", "/dev/sdb1"]);
    let plist = b"<key>DeviceIdentifier</key>\n<string>disk2s1</string>".to_vec();
    let cmd = format_drive_fat32(&dev, "PS2", &DriveQuery::MacOs(Ok(plist))).unwrap();
    assert_eq!(cmd.program, "diskutil");
    assert_eq!(cmd.args, ["eraseDisk", "FAT32", "PS2", "MBRFormat", "/dev/disk2"]);
    dev.mount_point = "E:\\".into();
    let cmd = format_drive_fat32(&dev, "PS2", &DriveQuery::Windows).unwrap();
    assert_eq!(cmd.program, "format");
    assert_eq!(cmd.args, ["E:", "/FS:FAT32", "/V:PS2", "/Q", "/Y"]);
}

#[test]
fn formatting_needs_a_drive() {
    let dev = device("usb", true);
    let blank = format_drive_fat32(&dev, "X", &DriveQuery::Linux(Ok(b" \n".to_vec())));
    assert_eq!(
        blank.unwrap_err().message(),
        "Failed to detect filesystem: Could not determine device path"
    );
    let failed = format_drive_fat32(&dev, "X", &DriveQuery::MacOs(Err("no diskutil".into())));
    assert_eq!(failed.unwrap_err().message(), "Failed to detect filesystem: no diskutil");
    assert_eq!(
        disk_identifier_macos("<string>disk2s1</string>").unwrap_err().message(),
        "Failed to detect filesystem: Could not determine disk identifier"
    );
    let odd = "<key>DeviceIdentifier</key><string>diskX</string>";
    assert_eq!(disk_identifier_macos(odd).unwrap(), "/dev/diskX");
}

#[test]
fn a_slice_is_on_its_disk() {
    let disk = |id: &str| {
        let plist = format!("<key>DeviceIdentifier</key><string>{}</string>", id);
        disk_identifier_macos(&plist).unwrap()
    };
    assert_eq!(disk("disk2"), "/dev/disk2");
    assert_eq!(disk("disk2s1"), "/dev/disk2");
    assert_eq!(disk("disk2s10"), "/dev/disk2");
    assert_eq!(disk("disk12s345"), "/dev/disk12");
    assert_eq!(disk("disk2s1s1"), "/dev/disk2");
    assert_eq!(disk("disk"), "/dev/disk");
    assert_eq!(disk("disks1"), "/dev/disks1");
    assert_eq!(disk("disk2s"), "/dev/disk2s");
    assert_eq!(disk("disk2p1"), "/dev/disk2p1");
}

#[test]
fn formatting_may_fail() {
    let query = DriveQuery::Windows;
    assert!(format_outcome(&query, &Ok(output(true, "", "ignored"))).is_ok());
    assert_eq!(
        format_outcome(&query, &Ok(output(false, "", "locked"))).unwrap_err().message(),
        "Failed to detect filesystem: format failed: locked"
    );
    let linux = DriveQuery::Linux(Ok(vec![]));
    assert_eq!(
        format_outcome(&linux, &Ok(output(false, "", "busy"))).unwrap_err().message(),
        "Failed to detect filesystem: mkfs.fat failed: busy"
    );
    assert_eq!(
        format_outcome(&query, &Err("missing".into())).unwrap_err().message(),
        "Failed to detect filesystem: missing"
    );
}

#[test]
fn a_formatted_drive_has_an_empty_list() {
    assert!(check_mount_point("/x", true).is_ok());
    assert_eq!(check_mount_point("/x", false).unwrap_err(), "Invalid mount point: /x");
    let (list, message) = format_drive_for_opl("PS2");
    assert!(list.is_empty());
    assert_eq!(
        message,
        "Drive formatted as FAT32 (PS2). ul.cfg created. Ready to add games."
    );
}

// ---------------------------------------------------------------- extents

#[test]
fn one_extent_is_contiguous() {
    let c = check_file_contiguity("ul.x", &Ok(10), &Ok(1)).unwrap();
    assert!(c.contiguous);
    let c = check_file_contiguity("ul.x", &Ok(10), &Ok(4)).unwrap();
    assert_eq!((c.contiguous, c.extents, c.size), (false, 4, 10));
    let c = check_file_contiguity("ul.x", &Ok(0), &Err(FsError::UnsupportedOs)).unwrap();
    assert_eq!((c.contiguous, c.extents), (true, 1));
    let e = check_file_contiguity("ul.x", &Err("gone".into()), &Ok(1)).unwrap_err();
    assert_eq!(e.message(), "IO error: gone");
    assert!(check_file_contiguity("ul.x", &Ok(1), &Err(FsError::UnsupportedOs)).is_err());
}

#[test]
fn a_directory_is_checked_by_prefix() {
    let file = |name: &str, is_file| EntryProbe::Entry {
        name: name.into(),
        is_file,
        size: Ok(5),
        extents: Ok(2),
    };
    let entries = [file("ul.a", true), file("other", true), file("ul.dir", false)];
    let found = check_dir_contiguity(&entries, "ul.").unwrap();
    assert_eq!(found.len(), 1);
    assert_eq!(found[0].file, "ul.a");
    assert_eq!(check_dir_contiguity(&entries, "").unwrap().len(), 2);
    let broken = [file("ul.a", true), EntryProbe::Unreadable("bad entry".into())];
    assert_eq!(
        check_dir_contiguity(&broken, "ul.").unwrap_err().message(),
        "IO error: bad entry"
    );
}

#[test]
fn extents_are_counted_on_linux() {
    assert!(matches!(look_first(100, None), FirstLook::Known(2)));
    let whole = ExtentReply { mapped: 1, logical: 0, length: 100 };
    assert!(matches!(look_first(100, Some(whole)), FirstLook::Known(1)));
    let part = ExtentReply { mapped: 1, logical: 0, length: 40 };
    assert!(matches!(look_first(100, Some(part)), FirstLook::Scan));
    let mut scan = ExtentScan::start(100);
    assert_eq!(scan.next_query(), Some((0, 100)));
    assert!(scan.take(Some(part)));
    assert_eq!(scan.next_query(), Some((40, 60)));
    assert!(scan.take(Some(ExtentReply { mapped: 1, logical: 50, length: 50 })));
    assert_eq!(scan.next_query(), None);
    assert_eq!(scan.extent_count(), 2);
    let mut empty = ExtentScan::start(100);
    assert!(!empty.take(Some(ExtentReply { mapped: 0, logical: 0, length: 0 })));
    assert!(!empty.take(None));
    assert_eq!(empty.extent_count(), 1);
}

#[test]
fn adjacent_runs_are_one_extent_on_macos() {
    assert!(run_covers(100, 100));
    assert!(!run_covers(100, 99));
    assert!(run_covers(100, -1));
    let mut scan = RunScan::start(20000);
    scan.take(1000, 8192);
    scan.take(9192, 8192);
    assert_eq!(scan.extent_count(), 1);
    assert!(scan.goes_on());
    scan.take(50, 10);
    assert_eq!(scan.offset, 16384 + 4096);
    assert_eq!(scan.extent_count(), 2);
    assert!(!scan.goes_on());
}

#[test]
fn windows_counts_extents_itself() {
    assert_eq!(windows_extents(3, None).unwrap(), 3);
    assert_eq!(windows_extents(0, None).unwrap(), 1);
    assert_eq!(windows_extents(7, Some((234, "more".into()))).unwrap(), 7);
    assert_eq!(windows_extents(0, Some((122, "small".into()))).unwrap(), 1);
    assert_eq!(
        windows_extents(1, Some((5, "denied".into()))).unwrap_err().message(),
        "Failed to detect filesystem: FSCTL_GET_RETRIEVAL_POINTERS failed: denied"
    );
}

// ---------------------------------------------------------------- settings

#[test]
fn settings_become_a_split_config() {
    let mut settings = AppSettings::default();
    let config = settings.to_split_config();
    assert_eq!(config.buffer_size, 8 * 1024 * 1024);
    assert_eq!(config.chunk_size, 4_294_967_294);
    assert_eq!(config.max_retries, 3);
    assert_eq!(config.checksum_algo, ChecksumAlgo::Crc32);
    settings.checksum = "sha256".into();
    settings.max_retries = 5;
    settings.buffer_size = 2;
    let config = settings.to_split_config();
    assert_eq!(config.checksum_algo, ChecksumAlgo::Sha256);
    assert_eq!((config.max_retries, config.buffer_size), (5, 2 * 1024 * 1024));
    settings.checksum = "xxhash".into();
    assert_eq!(settings.to_split_config().checksum_algo, ChecksumAlgo::Xxhash);
    settings.checksum = "md5".into();
    assert_eq!(settings.to_split_config().checksum_algo, ChecksumAlgo::Crc32);
}

#[test]
fn saved_settings_are_in_use() {
    let mut state = AppState { settings: AppSettings::default() };
    assert_eq!(get_settings(&state).split_mode, "auto");
    let mut settings = get_settings(&state);
    settings.split_mode = "nosplit".into();
    save_settings(settings, &mut state);
    assert_eq!(get_settings(&state).split_mode, "nosplit");
}
