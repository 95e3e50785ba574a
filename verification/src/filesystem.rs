//! Storage devices: what each operating system tells of them, and what they are good for.

use crate::lsblk::{json_text, mount_points, mounted};
use crate::text::{
    contains,
    contains_text,
    decode_lossy,
    decode_utf16,
    decoded,
    ends_with,
    first_of,
    first_token,
    first_word,
    from_chars,
    has_prefix,
    has_suffix,
    is_blank,
    is_white_space,
    law_contains_text,
    law_first_word,
    lemma_first_of_unique,
    lossy_utf16,
    optional_text,
    same_text,
    starts_with,
    texts,
    to_chars,
    to_uppercase,
    trim_end_char,
    trim_end_matches,
    uppercase,
};
use vstd::prelude::*;
use vstd::slice::slice_subrange;
use vstd::string::StringExecFns;

verus! {

// ---------------------------------------------------------------- types

/// What can go wrong with a device.
#[derive(Debug, Clone)]
pub enum FsError {
    /// A file or directory could not be read.
    Io(String),
    /// The operating system is not supported.
    UnsupportedOs,
    /// There is no removable device.
    NoDevices,
    /// The device could not be examined.
    DetectionFailed(String),
}

/// What an [`FsError`] holds.
pub enum FsErrorView {
    Io(Seq<char>),
    UnsupportedOs,
    NoDevices,
    DetectionFailed(Seq<char>),
}

impl View for FsError {
    type V = FsErrorView;

    open spec fn view(&self) -> FsErrorView {
        match self {
            FsError::Io(s) => FsErrorView::Io(s@),
            FsError::UnsupportedOs => FsErrorView::UnsupportedOs,
            FsError::NoDevices => FsErrorView::NoDevices,
            FsError::DetectionFailed(s) => FsErrorView::DetectionFailed(s@),
        }
    }
}

impl FsError {
    /// The error in words.
    pub fn message(&self) -> (m: String)
        ensures
            m@ == (match self@ {
                FsErrorView::Io(s) => "IO error: "@ + s,
                FsErrorView::UnsupportedOs => "Filesystem detection not supported on this OS"@,
                FsErrorView::NoDevices => "No removable devices found"@,
                FsErrorView::DetectionFailed(s) => "Failed to detect filesystem: "@ + s,
            }),
    {
        match self {
            FsError::Io(s) => "IO error: ".to_owned().concat(s.as_str()),
            FsError::UnsupportedOs => "Filesystem detection not supported on this OS".to_owned(),
            FsError::NoDevices => "No removable devices found".to_owned(),
            FsError::DetectionFailed(s) => "Failed to detect filesystem: ".to_owned().concat(
                s.as_str(),
            ),
        }
    }
}

/// The kinds of file system.
#[derive(Debug, Clone)]
pub enum FilesystemType {
    Fat32,
    Ntfs,
    ExFat,
    Apfs,
    HfsPlus,
    Ext4,
    /// Any other, by the name that the operating system gives it.
    Unknown(String),
}

/// What a [`FilesystemType`] holds.
pub enum FilesystemView {
    Fat32,
    Ntfs,
    ExFat,
    Apfs,
    HfsPlus,
    Ext4,
    Unknown(Seq<char>),
}

impl View for FilesystemType {
    type V = FilesystemView;

    open spec fn view(&self) -> FilesystemView {
        match self {
            FilesystemType::Fat32 => FilesystemView::Fat32,
            FilesystemType::Ntfs => FilesystemView::Ntfs,
            FilesystemType::ExFat => FilesystemView::ExFat,
            FilesystemType::Apfs => FilesystemView::Apfs,
            FilesystemType::HfsPlus => FilesystemView::HfsPlus,
            FilesystemType::Ext4 => FilesystemView::Ext4,
            FilesystemType::Unknown(s) => FilesystemView::Unknown(s@),
        }
    }
}

/// The mode that is recommended for a file system.
pub open spec fn mode_for(filesystem: FilesystemView) -> Seq<char> {
    if filesystem is Fat32 {
        "split"@
    } else {
        "nosplit"@
    }
}

impl FilesystemType {
    /// The name of the file system.
    pub fn display_name(&self) -> (name: String)
        ensures
            name@ == (match self@ {
                FilesystemView::Fat32 => "FAT32"@,
                FilesystemView::Ntfs => "NTFS"@,
                FilesystemView::ExFat => "exFAT"@,
                FilesystemView::Apfs => "APFS"@,
                FilesystemView::HfsPlus => "HFS+"@,
                FilesystemView::Ext4 => "ext4"@,
                FilesystemView::Unknown(s) => s,
            }),
    {
        match self {
            FilesystemType::Fat32 => "FAT32".to_owned(),
            FilesystemType::Ntfs => "NTFS".to_owned(),
            FilesystemType::ExFat => "exFAT".to_owned(),
            FilesystemType::Apfs => "APFS".to_owned(),
            FilesystemType::HfsPlus => "HFS+".to_owned(),
            FilesystemType::Ext4 => "ext4".to_owned(),
            FilesystemType::Unknown(s) => s.clone(),
        }
    }

    /// Whether a game has to be split to be stored here, as files of 4 GiB and more do not fit.
    pub fn needs_split(&self) -> (b: bool)
        ensures
            b == (self@ is Fat32),
    {
        match self {
            FilesystemType::Fat32 => true,
            _ => false,
        }
    }

    /// The mode that is recommended for the loader: `split` or `nosplit`.
    pub fn recommended_mode(&self) -> (mode: &str)
        ensures
            mode@ == mode_for(self@),
    {
        if self.needs_split() {
            "split"
        } else {
            "nosplit"
        }
    }
}

/// A storage device.
#[derive(Debug, Clone)]
pub struct DeviceInfo {
    pub name: String,
    pub mount_point: String,
    pub filesystem: FilesystemType,
    pub free_space: u64,
    pub total_space: u64,
    pub is_removable: bool,
    /// `split` or `nosplit`.
    pub recommended_mode: String,
}

/// What a [`DeviceInfo`] holds.
#[verifier::ext_equal]
pub struct DeviceView {
    pub name: Seq<char>,
    pub mount_point: Seq<char>,
    pub filesystem: FilesystemView,
    pub free_space: u64,
    pub total_space: u64,
    pub is_removable: bool,
    pub recommended_mode: Seq<char>,
}

impl View for DeviceInfo {
    type V = DeviceView;

    open spec fn view(&self) -> DeviceView {
        DeviceView {
            name: self.name@,
            mount_point: self.mount_point@,
            filesystem: self.filesystem@,
            free_space: self.free_space,
            total_space: self.total_space,
            is_removable: self.is_removable,
            recommended_mode: self.recommended_mode@,
        }
    }
}

/// What some devices hold.
pub open spec fn device_views(devices: Seq<DeviceInfo>) -> Seq<DeviceView> {
    Seq::new(devices.len(), |i: int| devices[i]@)
}

// ---------------------------------------------------------------- space

/// What `statvfs` tells of a file system.
#[derive(Debug, Clone, Copy)]
pub struct SpaceStat {
    /// The size of a fragment.
    pub fragment: u64,
    /// The fragments that are free for users.
    pub available: u64,
    /// All fragments.
    pub blocks: u64,
}

/// A directory on the way to the root: whether it is there, and what `statvfs` told of it.
#[derive(Debug, Clone, Copy)]
pub struct SpaceProbe {
    pub is_dir: bool,
    pub stat: Option<SpaceStat>,
}

/// The free and the total space of a file system, where both are known.
pub open spec fn space_of(stat: Option<SpaceStat>) -> Option<(u64, u64)> {
    match stat {
        Some(s) => if s.fragment > 0 && s.blocks > 0 {
            Some(((s.available * s.fragment) as u64, (s.blocks * s.fragment) as u64))
        } else {
            None
        },
        None => None,
    }
}

/// The free and the total space of a directory: its own, or else that of the first directory
/// above it that has one; zero once one is not there.
pub open spec fn space_info(levels: Seq<SpaceProbe>) -> (u64, u64)
    decreases levels.len(),
{
    if levels.len() == 0 || !levels[0].is_dir {
        (0, 0)
    } else {
        match space_of(levels[0].stat) {
            Some(space) => space,
            None => space_info(levels.drop_first()),
        }
    }
}

/// The space that is found can be counted in bytes.
pub open spec fn countable_space(levels: Seq<SpaceProbe>) -> bool
    decreases levels.len(),
{
    if levels.len() == 0 || !levels[0].is_dir {
        true
    } else {
        match levels[0].stat {
            Some(s) => if s.fragment > 0 && s.blocks > 0 {
                s.available * s.fragment <= u64::MAX && s.blocks * s.fragment <= u64::MAX
            } else {
                countable_space(levels.drop_first())
            },
            None => countable_space(levels.drop_first()),
        }
    }
}

/// The free and the total space of a directory. `levels` are the directory and those above it.
pub fn get_space_info(levels: &[SpaceProbe]) -> (space: (u64, u64))
    requires
        countable_space(levels@),
    ensures
        space == space_info(levels@),
{
    let mut i: usize = 0;
    assert(levels@.skip(0) =~= levels@);
    while i < levels.len()
        invariant
            i <= levels.len(),
            countable_space(levels@.skip(i as int)),
            space_info(levels@) == space_info(levels@.skip(i as int)),
        decreases levels.len() - i,
    {
        assert(levels@.skip(i as int)[0] == levels@[i as int]);
        assert(levels@.skip(i as int).drop_first() =~= levels@.skip(i + 1));
        let level = levels[i];
        if !level.is_dir {
            return (0, 0);
        }
        match level.stat {
            Some(s) => {
                if s.fragment > 0 && s.blocks > 0 {
                    assert(0 <= s.available * s.fragment && 0 <= s.blocks * s.fragment)
                        by (nonlinear_arith);
                    return (s.available * s.fragment, s.blocks * s.fragment);
                }
            },
            None => {},
        }
        i += 1;
    }
    (0, 0)
}

// ---------------------------------------------------------------- what the systems tell

/// What a program that was run has said.
#[derive(Debug, Clone)]
pub struct CommandOutput {
    pub success: bool,
    pub stdout: Vec<u8>,
    pub stderr: Vec<u8>,
}

/// What an operating system tells of the device at a mount point.
pub enum DeviceProbe {
    /// The output of `findmnt`, or why it could not be run.
    Linux(Result<CommandOutput, String>),
    /// The output of `diskutil`, or why it could not be run.
    MacOs(Result<CommandOutput, String>),
    /// The label and the name of the file system, each up to a null character, where the volume
    /// tells them, and the type of the drive.
    Windows { volume: Option<(Vec<u16>, Vec<u16>)>, drive_type: u32 },
}

/// The type of a removable drive on Windows.
pub const DRIVE_REMOVABLE: u32 = 2;

/// The type of a fixed drive on Windows.
pub const DRIVE_FIXED: u32 = 3;

/// The file system that `findmnt` names first in its output.
pub open spec fn linux_filesystem(output: Seq<char>) -> FilesystemView {
    let word = first_word(output);
    if word == "vfat"@ || word == "fat32"@ {
        FilesystemView::Fat32
    } else if word == "ntfs"@ || word == "ntfs3"@ {
        FilesystemView::Ntfs
    } else if word == "exfat"@ {
        FilesystemView::ExFat
    } else if word == "ext4"@ {
        FilesystemView::Ext4
    } else {
        FilesystemView::Unknown(word)
    }
}

/// The file system that the output of `diskutil` mentions.
pub open spec fn macos_filesystem(output: Seq<char>) -> FilesystemView {
    if contains_text(output, "FAT32"@) {
        FilesystemView::Fat32
    } else if contains_text(output, "ExFAT"@) || contains_text(output, "exFAT"@) {
        FilesystemView::ExFat
    } else if contains_text(output, "NTFS"@) {
        FilesystemView::Ntfs
    } else if contains_text(output, "APFS"@) {
        FilesystemView::Apfs
    } else if contains_text(output, "HFS+"@) {
        FilesystemView::HfsPlus
    } else {
        FilesystemView::Unknown("Unknown"@)
    }
}

/// The file system of this name on Windows, in upper case.
pub open spec fn windows_filesystem(name: Seq<char>) -> FilesystemView {
    if name == "FAT32"@ {
        FilesystemView::Fat32
    } else if name == "NTFS"@ {
        FilesystemView::Ntfs
    } else if name == "EXFAT"@ {
        FilesystemView::ExFat
    } else {
        FilesystemView::Unknown(name)
    }
}

/// The text in a buffer of UTF-16 units, up to the null character; empty where there is none.
pub open spec fn wide_text(buffer: Seq<u16>) -> Seq<char> {
    let end = first_of(buffer, 0u16);
    if end < buffer.len() {
        lossy_utf16(buffer.take(end))
    } else {
        seq![]
    }
}

/// The device at a mount point on Linux, whose directory has this name.
pub open spec fn linux_device(
    mount_point: Seq<char>,
    name: Option<Seq<char>>,
    space: (u64, u64),
    output: Seq<u8>,
) -> DeviceView {
    let filesystem = linux_filesystem(decoded(output));
    DeviceView {
        name: match name {
            Some(n) => n,
            None => "USB Drive"@,
        },
        mount_point,
        filesystem,
        free_space: space.0,
        total_space: space.1,
        is_removable: true,
        recommended_mode: mode_for(filesystem),
    }
}

/// The device at a mount point on macOS, whose directory has this name.
pub open spec fn macos_device(
    mount_point: Seq<char>,
    name: Option<Seq<char>>,
    space: (u64, u64),
    output: Seq<u8>,
) -> DeviceView {
    let filesystem = macos_filesystem(decoded(output));
    DeviceView {
        name: match name {
            Some(n) => n,
            None => "Unknown"@,
        },
        mount_point,
        filesystem,
        free_space: space.0,
        total_space: space.1,
        is_removable: true,
        recommended_mode: mode_for(filesystem),
    }
}

/// The device at a mount point on Windows.
pub open spec fn windows_device(
    mount_point: Seq<char>,
    space: (u64, u64),
    volume: Option<(Seq<u16>, Seq<u16>)>,
    drive_type: u32,
) -> DeviceView {
    let label = match volume {
        Some(v) => wide_text(v.0),
        None => seq![],
    };
    let filesystem = match volume {
        Some(v) => windows_filesystem(uppercase(wide_text(v.1))),
        None => FilesystemView::Unknown("Unknown"@),
    };
    DeviceView {
        name: if label.len() == 0 {
            drive_of(mount_point)
        } else {
            label
        },
        mount_point,
        filesystem,
        free_space: space.0,
        total_space: space.1,
        is_removable: drive_type == DRIVE_REMOVABLE,
        recommended_mode: mode_for(filesystem),
    }
}

/// The drive of a path on Windows: its first two characters.
pub open spec fn drive_of(path: Seq<char>) -> Seq<char> {
    if path.len() < 2 {
        path
    } else {
        path.take(2)
    }
}

/// The device at a mount point, from what the operating system tells of it.
pub open spec fn device_info(
    mount_point: Seq<char>,
    name: Option<Seq<char>>,
    space: (u64, u64),
    probe: DeviceProbe,
) -> Result<DeviceView, FsErrorView> {
    match probe {
        DeviceProbe::Linux(Ok(out)) => Ok(linux_device(mount_point, name, space, out.stdout@)),
        DeviceProbe::Linux(Err(e)) => Err(FsErrorView::DetectionFailed(e@)),
        DeviceProbe::MacOs(Ok(out)) => if out.success {
            Ok(macos_device(mount_point, name, space, out.stdout@))
        } else {
            Err(FsErrorView::DetectionFailed(decoded(out.stderr@)))
        },
        DeviceProbe::MacOs(Err(e)) => Err(FsErrorView::DetectionFailed(e@)),
        DeviceProbe::Windows { volume, drive_type } => Ok(
            windows_device(
                mount_point,
                space,
                match volume {
                    Some(v) => Some((v.0@, v.1@)),
                    None => None,
                },
                drive_type,
            ),
        ),
    }
}

/// The outcome of examining a device.
pub open spec fn info_view(info: Result<DeviceInfo, FsError>) -> Result<DeviceView, FsErrorView> {
    match info {
        Ok(device) => Ok(device@),
        Err(e) => Err(e@),
    }
}

/// The first two characters of a path.
pub(crate) fn take_drive(path: &str) -> (drive: String)
    ensures
        drive@ == drive_of(path@),
{
    let chars = to_chars(path);
    let n: usize = if chars.len() < 2 {
        chars.len()
    } else {
        2
    };
    let drive = from_chars(slice_subrange(chars.as_slice(), 0, n));
    assert(drive@ =~= drive_of(path@));
    drive
}

/// The text in a buffer of UTF-16 units, up to the null character.
fn read_wide(buffer: &[u16]) -> (text: String)
    ensures
        text@ == wide_text(buffer@),
{
    let mut end: usize = 0;
    while end < buffer.len() && buffer[end] != 0
        invariant
            end <= buffer.len(),
            forall|i: int| 0 <= i < end ==> buffer@[i] != 0,
        decreases buffer.len() - end,
    {
        end += 1;
    }
    proof {
        lemma_first_of_unique(buffer@, 0u16, end as int);
    }
    if end < buffer.len() {
        assert(buffer@.subrange(0, end as int) =~= buffer@.take(end as int));
        decode_utf16(slice_subrange(buffer, 0, end))
    } else {
        String::new()
    }
}

/// The file system that `findmnt` names first in its output.
fn read_linux_filesystem(output: &str) -> (filesystem: FilesystemType)
    ensures
        filesystem@ == linux_filesystem(output@),
{
    let chars = to_chars(output);
    let word = from_chars(first_token(chars.as_slice()));
    if same_text(word.as_str(), "vfat") || same_text(word.as_str(), "fat32") {
        FilesystemType::Fat32
    } else if same_text(word.as_str(), "ntfs") || same_text(word.as_str(), "ntfs3") {
        FilesystemType::Ntfs
    } else if same_text(word.as_str(), "exfat") {
        FilesystemType::ExFat
    } else if same_text(word.as_str(), "ext4") {
        FilesystemType::Ext4
    } else {
        FilesystemType::Unknown(word)
    }
}

/// The file system that the output of `diskutil` mentions.
fn read_macos_filesystem(output: &str) -> (filesystem: FilesystemType)
    ensures
        filesystem@ == macos_filesystem(output@),
{
    let chars = to_chars(output);
    let text = chars.as_slice();
    if contains(text, "FAT32") {
        FilesystemType::Fat32
    } else if contains(text, "ExFAT") || contains(text, "exFAT") {
        FilesystemType::ExFat
    } else if contains(text, "NTFS") {
        FilesystemType::Ntfs
    } else if contains(text, "APFS") {
        FilesystemType::Apfs
    } else if contains(text, "HFS+") {
        FilesystemType::HfsPlus
    } else {
        FilesystemType::Unknown("Unknown".to_owned())
    }
}

/// The file system of this name on Windows.
fn read_windows_filesystem(name: String) -> (filesystem: FilesystemType)
    ensures
        filesystem@ == windows_filesystem(name@),
{
    if same_text(name.as_str(), "FAT32") {
        FilesystemType::Fat32
    } else if same_text(name.as_str(), "NTFS") {
        FilesystemType::Ntfs
    } else if same_text(name.as_str(), "EXFAT") {
        FilesystemType::ExFat
    } else {
        FilesystemType::Unknown(name)
    }
}

/// The device at a mount point. `name` is the name of its directory where it has one, `space` its
/// free and total space, and `probe` what the operating system tells of it.
pub fn get_device_info(
    mount_point: &str,
    name: Option<String>,
    space: (u64, u64),
    probe: &DeviceProbe,
) -> (info: Result<DeviceInfo, FsError>)
    ensures
        info_view(info) == device_info(mount_point@, optional_text(name), space, *probe),
{
    let (name, filesystem, is_removable) = match probe {
        DeviceProbe::Linux(Ok(out)) => {
            let filesystem = read_linux_filesystem(decode_lossy(out.stdout.as_slice()).as_str());
            let name = match name {
                Some(n) => n,
                None => "USB Drive".to_owned(),
            };
            (name, filesystem, true)
        },
        DeviceProbe::MacOs(Ok(out)) => {
            if !out.success {
                return Err(FsError::DetectionFailed(decode_lossy(out.stderr.as_slice())));
            }
            let filesystem = read_macos_filesystem(decode_lossy(out.stdout.as_slice()).as_str());
            let name = match name {
                Some(n) => n,
                None => "Unknown".to_owned(),
            };
            (name, filesystem, true)
        },
        DeviceProbe::Windows { volume, drive_type } => {
            let (label, filesystem) = match volume {
                Some((label, fs)) => {
                    let label = read_wide(label.as_slice());
                    let fs = read_wide(fs.as_slice());
                    (label, read_windows_filesystem(to_uppercase(fs.as_str())))
                },
                None => (String::new(), FilesystemType::Unknown("Unknown".to_owned())),
            };
            let name = if label.as_str().is_empty() {
                take_drive(mount_point)
            } else {
                label
            };
            (name, filesystem, *drive_type == DRIVE_REMOVABLE)
        },
        DeviceProbe::Linux(Err(e)) => {
            return Err(FsError::DetectionFailed(e.clone()));
        },
        DeviceProbe::MacOs(Err(e)) => {
            return Err(FsError::DetectionFailed(e.clone()));
        },
    };
    let recommended_mode = filesystem.recommended_mode().to_owned();
    Ok(
        DeviceInfo {
            name,
            mount_point: mount_point.to_owned(),
            filesystem,
            free_space: space.0,
            total_space: space.1,
            is_removable,
            recommended_mode,
        },
    )
}

// ---------------------------------------------------------------- finding devices

/// A volume that may be a device to offer.
pub struct Volume {
    /// Whether it is offered.
    pub chosen: bool,
    /// Whether it is offered where there is nothing else to offer.
    pub spare: bool,
    /// What is known of it.
    pub info: Result<DeviceInfo, FsError>,
}

/// What a [`Volume`] holds.
pub struct VolumeView {
    pub chosen: bool,
    pub spare: bool,
    pub info: Result<DeviceView, FsErrorView>,
}

impl View for Volume {
    type V = VolumeView;

    open spec fn view(&self) -> VolumeView {
        VolumeView { chosen: self.chosen, spare: self.spare, info: info_view(self.info) }
    }
}

/// What some volumes hold.
pub open spec fn volume_views(volumes: Seq<Volume>) -> Seq<VolumeView> {
    Seq::new(volumes.len(), |i: int| volumes[i]@)
}

/// The devices among the volumes that are offered, or among those that are spare.
pub open spec fn devices_among(volumes: Seq<VolumeView>, spare: bool) -> Seq<DeviceView>
    decreases volumes.len(),
{
    if volumes.len() == 0 {
        seq![]
    } else {
        let before = devices_among(volumes.drop_last(), spare);
        let last = volumes.last();
        let wanted = if spare {
            last.spare
        } else {
            last.chosen
        };
        match last.info {
            Ok(device) => if wanted {
                before.push(device)
            } else {
                before
            },
            Err(_) => before,
        }
    }
}

/// The devices to offer: those of the volumes chosen, or else of those that are spare.
pub open spec fn devices_to_offer(volumes: Seq<VolumeView>) -> Seq<DeviceView> {
    if devices_among(volumes, false).len() > 0 {
        devices_among(volumes, false)
    } else {
        devices_among(volumes, true)
    }
}

impl DeviceInfo {
    /// A device that holds the same.
    pub fn duplicate(&self) -> (device: DeviceInfo)
        ensures
            device@ == self@,
    {
        DeviceInfo {
            name: self.name.clone(),
            mount_point: self.mount_point.clone(),
            filesystem: self.filesystem.duplicate(),
            free_space: self.free_space,
            total_space: self.total_space,
            is_removable: self.is_removable,
            recommended_mode: self.recommended_mode.clone(),
        }
    }
}

impl FilesystemType {
    /// A value that holds the same.
    pub fn duplicate(&self) -> (filesystem: FilesystemType)
        ensures
            filesystem@ == self@,
    {
        match self {
            FilesystemType::Fat32 => FilesystemType::Fat32,
            FilesystemType::Ntfs => FilesystemType::Ntfs,
            FilesystemType::ExFat => FilesystemType::ExFat,
            FilesystemType::Apfs => FilesystemType::Apfs,
            FilesystemType::HfsPlus => FilesystemType::HfsPlus,
            FilesystemType::Ext4 => FilesystemType::Ext4,
            FilesystemType::Unknown(s) => FilesystemType::Unknown(s.clone()),
        }
    }
}

/// The devices among the volumes that are offered, or among those that are spare.
fn collect_devices(volumes: &[Volume], spare: bool) -> (devices: Vec<DeviceInfo>)
    ensures
        device_views(devices@) == devices_among(volume_views(volumes@), spare),
{
    let ghost all = volume_views(volumes@);
    let mut devices: Vec<DeviceInfo> = Vec::new();
    let mut i: usize = 0;
    assert(device_views(devices@) =~= devices_among(all.take(0), spare));
    while i < volumes.len()
        invariant
            i <= volumes.len(),
            all == volume_views(volumes@),
            device_views(devices@) == devices_among(all.take(i as int), spare),
        decreases volumes.len() - i,
    {
        let ghost before = device_views(devices@);
        assert(all.take(i + 1).drop_last() =~= all.take(i as int));
        assert(all.take(i + 1).last() == volumes@[i as int]@);
        let wanted = if spare {
            volumes[i].spare
        } else {
            volumes[i].chosen
        };
        match &volumes[i].info {
            Ok(device) => {
                if wanted {
                    devices.push(device.duplicate());
                    assert(device_views(devices@) =~= before.push(device@));
                }
            },
            Err(_) => {},
        }
        i += 1;
    }
    assert(all.take(i as int) =~= all);
    devices
}

/// The devices to offer: those of the volumes chosen, or else of those that are spare.
pub fn detect_devices(volumes: &[Volume]) -> (devices: Vec<DeviceInfo>)
    ensures
        device_views(devices@) == devices_to_offer(volume_views(volumes@)),
{
    let devices = collect_devices(volumes, false);
    assert(device_views(devices@).len() == devices@.len());
    if devices.len() > 0 {
        devices
    } else {
        collect_devices(volumes, true)
    }
}

/// The index of the first removable device: the number of devices where there is none.
pub open spec fn first_removable(devices: Seq<DeviceView>) -> int
    decreases devices.len(),
{
    if devices.len() == 0 || devices[0].is_removable {
        0
    } else {
        1 + first_removable(devices.drop_first())
    }
}

/// The index of the first removable device.
fn find_removable(devices: &[DeviceInfo]) -> (k: usize)
    ensures
        k <= devices.len(),
        k == first_removable(device_views(devices@)),
{
    let ghost all = device_views(devices@);
    let mut i: usize = 0;
    assert(all.skip(0) =~= all);
    while i < devices.len() && !devices[i].is_removable
        invariant
            i <= devices.len(),
            all == device_views(devices@),
            first_removable(all) == i + first_removable(all.skip(i as int)),
        decreases devices.len() - i,
    {
        assert(all.skip(i as int)[0] == devices@[i as int]@);
        assert(all.skip(i as int).drop_first() =~= all.skip(i + 1));
        i += 1;
    }
    if i < devices.len() {
        assert(all.skip(i as int)[0] == devices@[i as int]@);
    }
    i
}

/// The first removable device among those found.
pub fn detect_primary_device(devices: Result<Vec<DeviceInfo>, FsError>) -> (device: Result<
    DeviceInfo,
    FsError,
>)
    ensures
        info_view(device) == (match devices {
            Ok(list) => {
                let all = device_views(list@);
                if first_removable(all) < all.len() {
                    Ok(all[first_removable(all)])
                } else {
                    Err(FsErrorView::NoDevices)
                }
            },
            Err(e) => Err(e@),
        }),
{
    match devices {
        Ok(list) => {
            let k: usize = find_removable(list.as_slice());
            if k < list.len() {
                Ok(list[k].duplicate())
            } else {
                Err(FsError::NoDevices)
            }
        },
        Err(e) => Err(e),
    }
}

/// The mount points to examine on Linux: those of all partitions on removable storage that
/// `lsblk` lists.
pub fn linux_mount_points(lsblk: &Result<CommandOutput, String>) -> (r: Result<
    Vec<String>,
    FsError,
>)
    ensures
        match *lsblk {
            Ok(out) => r matches Ok(found) && texts(found@) == (match json_text(
                decoded(out.stdout@),
            ) {
                Some(tree) => mounted(tree),
                None => seq![],
            }),
            Err(e) => r matches Err(f) && f@ == FsErrorView::DetectionFailed(e@),
        },
{
    match lsblk {
        Ok(out) => Ok(mount_points(decode_lossy(out.stdout.as_slice()).as_str())),
        Err(e) => Err(FsError::DetectionFailed(e.clone())),
    }
}

/// Whether the output of `diskutil` marks a volume as removable.
pub open spec fn tells_removable(output: Seq<char>) -> bool {
    contains_text(output, "Removable Media"@) || contains_text(
        output,
        "Protocol:                 USB"@,
    ) || contains_text(output, "Protocol:                USB"@) || contains_text(
        output,
        "Removable:               Yes"@,
    ) || contains_text(output, "External"@)
}

/// Whether a volume on macOS is removable, by the output of `diskutil` where that could be run.
pub fn is_removable_macos(diskutil: Option<&[u8]>) -> (b: bool)
    ensures
        b == (diskutil matches Some(output) && tells_removable(decoded(output@))),
{
    match diskutil {
        Some(output) => {
            let chars = to_chars(decode_lossy(output).as_str());
            let text = chars.as_slice();
            contains(text, "Removable Media") || contains(text, "Protocol:                 USB")
                || contains(text, "Protocol:                USB") || contains(
                text,
                "Removable:               Yes",
            ) || contains(text, "External")
        },
        None => false,
    }
}

/// Whether a volume on macOS belongs to the system: the start volume, and hidden ones.
pub fn is_system_volume_macos(name: &str) -> (b: bool)
    ensures
        b == (name@ == "Macintosh HD"@ || starts_with(name@, "."@)),
{
    let chars = to_chars(name);
    same_text(name, "Macintosh HD") || has_prefix(chars.as_slice(), ".")
}

/// The drive roots in a buffer of `len` UTF-16 units from `start` on, each ended by a null
/// character; an empty one ends the list.
pub open spec fn roots_from(buffer: Seq<u16>, start: int, len: int) -> Seq<Seq<char>>
    decreases
        if start < len {
            len - start
        } else {
            0
        },
{
    let k = first_of(buffer.skip(start), 0u16);
    let end = if k < buffer.len() - start {
        start + k
    } else {
        len
    };
    if start < 0 || start >= len || end <= start {
        seq![]
    } else {
        seq![lossy_utf16(buffer.subrange(start, end))] + roots_from(buffer, end + 1, len)
    }
}

/// The drive roots that Windows has written into a buffer; `len` is the number of units that it
/// says it has written.
pub fn windows_roots(buffer: &[u16], len: u32) -> (r: Result<Vec<String>, FsError>)
    requires
        len <= buffer@.len(),
    ensures
        match r {
            Ok(roots) => len > 0 && texts(roots@) == roots_from(buffer@, 0, len as int),
            Err(e) => len == 0 && e@ == FsErrorView::DetectionFailed(
                "GetLogicalDriveStringsW failed"@,
            ),
        },
{
    if len == 0 {
        return Err(FsError::DetectionFailed("GetLogicalDriveStringsW failed".to_owned()));
    }
    let mut roots: Vec<String> = Vec::new();
    let mut start: usize = 0;
    let mut more: bool = true;
    assert(texts(roots@) + roots_from(buffer@, 0, len as int) =~= roots_from(
        buffer@,
        0,
        len as int,
    ));
    while more && start < len as usize
        invariant
            len <= buffer@.len(),
            start <= buffer@.len() + 1,
            roots_from(buffer@, 0, len as int) == texts(roots@) + (if more {
                roots_from(buffer@, start as int, len as int)
            } else {
                seq![]
            }),
        decreases
            if more && start < len {
                len - start
            } else {
                0
            },
    {
        let rest = slice_subrange(buffer, start, buffer.len());
        assert(rest@ =~= buffer@.skip(start as int));
        let mut k: usize = 0;
        while k < rest.len() && rest[k] != 0
            invariant
                k <= rest.len(),
                forall|i: int| 0 <= i < k ==> rest@[i] != 0,
            decreases rest.len() - k,
        {
            k += 1;
        }
        proof {
            lemma_first_of_unique(rest@, 0u16, k as int);
        }
        let end: usize = if k < rest.len() {
            start + k
        } else {
            len as usize
        };
        let ghost before = texts(roots@);
        if end == start {
            more = false;
        } else {
            let root = decode_utf16(slice_subrange(buffer, start, end));
            roots.push(root);
            proof {
                assert(texts(roots@) =~= before.push(root@));
                let tail = roots_from(buffer@, end + 1, len as int);
                assert(before + (seq![root@] + tail) =~= before.push(root@) + tail);
            }
            if end >= len as usize {
                more = false;
                assert(roots_from(buffer@, end + 1, len as int) =~= seq![]);
            } else {
                start = end + 1;
            }
        }
    }
    proof {
        if more {
            assert(roots_from(buffer@, start as int, len as int) =~= seq![]);
        }
        assert(texts(roots@) + Seq::<Seq<char>>::empty() =~= texts(roots@));
    }
    Ok(roots)
}

/// The drive that Windows runs from, which is never offered: the value of `SYSTEMDRIVE` in upper
/// case, or `C:`.
pub fn system_drive(variable: Option<String>) -> (drive: String)
    ensures
        drive@ == uppercase(
            match variable {
                Some(s) => s@,
                None => "C:"@,
            },
        ),
{
    match variable {
        Some(s) => to_uppercase(s.as_str()),
        None => to_uppercase("C:"),
    }
}

/// Whether a drive is offered on Windows: a removable or a fixed one other than the system drive.
pub fn is_offered_windows(root: &str, drive_type: u32, system: &str) -> (b: bool)
    ensures
        b == ((drive_type == DRIVE_REMOVABLE || drive_type == DRIVE_FIXED) && uppercase(
            trim_end_char(root@, '\\'),
        ) != system@),
{
    if drive_type != DRIVE_REMOVABLE && drive_type != DRIVE_FIXED {
        return false;
    }
    let chars = to_chars(root);
    let drive = from_chars(trim_end_matches(chars.as_slice(), '\\'));
    !same_text(to_uppercase(drive.as_str()).as_str(), system)
}

/// The root of a drive on Windows as its functions want it: with a backslash at the end.
pub fn windows_root(mount_point: &str) -> (root: String)
    ensures
        root@ == (if ends_with(mount_point@, "\\"@) {
            mount_point@
        } else {
            mount_point@ + "\\"@
        }),
{
    let chars = to_chars(mount_point);
    if has_suffix(chars.as_slice(), "\\") {
        mount_point.to_owned()
    } else {
        mount_point.to_owned().concat("\\")
    }
}

/// A directory on Windows as its functions want it: with a separator at the end.
pub fn windows_directory(path: &str) -> (dir: String)
    ensures
        dir@ == (if ends_with(path@, "\\"@) || ends_with(path@, "/"@) {
            path@
        } else {
            path@ + "\\"@
        }),
{
    let chars = to_chars(path);
    if has_suffix(chars.as_slice(), "\\") || has_suffix(chars.as_slice(), "/") {
        path.to_owned()
    } else {
        path.to_owned().concat("\\")
    }
}

// ---------------------------------------------------------------- laws

/// A device that is found always carries the mode that its file system needs.
pub proof fn law_mode_fits_filesystem(
    mount_point: Seq<char>,
    name: Option<Seq<char>>,
    space: (u64, u64),
    probe: DeviceProbe,
)
    ensures
        device_info(mount_point, name, space, probe) matches Ok(device) ==> device.mount_point
            == mount_point && device.recommended_mode == mode_for(device.filesystem),
{
}

/// Only volumes that could be examined are offered, and a spare one only where no chosen one
/// could.
pub proof fn law_offered_devices(volumes: Seq<VolumeView>, device: DeviceView)
    requires
        devices_to_offer(volumes).contains(device),
    ensures
        exists|i: int|
            0 <= i < volumes.len() && (#[trigger] volumes[i]).info == Ok::<DeviceView, FsErrorView>(
                device,
            ) && (volumes[i].chosen || volumes[i].spare),
        devices_among(volumes, false).len() > 0 ==> devices_among(volumes, false).contains(device),
{
    let spare = devices_among(volumes, false).len() == 0;
    lemma_devices_among(volumes, spare, device);
}

/// Where the devices among volumes come from.
proof fn lemma_devices_among(volumes: Seq<VolumeView>, spare: bool, device: DeviceView)
    requires
        devices_among(volumes, spare).contains(device),
    ensures
        exists|i: int|
            0 <= i < volumes.len() && (#[trigger] volumes[i]).info == Ok::<DeviceView, FsErrorView>(
                device,
            ) && (if spare {
                volumes[i].spare
            } else {
                volumes[i].chosen
            }),
    decreases volumes.len(),
{
    if volumes.len() > 0 {
        let rest = volumes.drop_last();
        let before = devices_among(rest, spare);
        let all = devices_among(volumes, spare);
        let k = choose|k: int| 0 <= k < all.len() && all[k] == device;
        if k < before.len() {
            assert(before[k] == device);
            assert(before.contains(device));
            lemma_devices_among(rest, spare, device);
            let i = choose|i: int|
                0 <= i < rest.len() && (#[trigger] rest[i]).info == Ok::<DeviceView, FsErrorView>(
                    device,
                ) && (if spare {
                    rest[i].spare
                } else {
                    rest[i].chosen
                });
            assert(volumes[i] == rest[i]);
        } else {
            assert(volumes[volumes.len() - 1] == volumes.last());
        }
    }
}

/// The devices among volumes are found in the order of the volumes, each of them.
pub proof fn law_devices_add_up(
    a: Seq<VolumeView>,
    b: Seq<VolumeView>,
    volume: VolumeView,
    spare: bool,
)
    ensures
        devices_among(a + b, spare) == devices_among(a, spare) + devices_among(b, spare),
        devices_among(Seq::empty(), spare).len() == 0,
        volume.info is Ok && volume.chosen ==> devices_among(seq![volume], false) == seq![
            volume.info->Ok_0,
        ],
        volume.info is Ok && volume.spare ==> devices_among(seq![volume], true) == seq![
            volume.info->Ok_0,
        ],
        volume.info is Err || !volume.chosen ==> devices_among(seq![volume], false).len() == 0,
        volume.info is Err || !volume.spare ==> devices_among(seq![volume], true).len() == 0,
    decreases b.len(),
{
    if b.len() == 0 {
        assert(a + b =~= a);
        assert(devices_among(a, spare) + devices_among(b, spare) =~= devices_among(a, spare));
        reveal_with_fuel(devices_among, 2);
        let none = Seq::<VolumeView>::empty();
        assert(seq![volume].drop_last() =~= none && seq![volume].last() == volume);
        if volume.info is Ok {
            let one = seq![volume.info->Ok_0];
            if volume.chosen {
                assert(devices_among(seq![volume], false) =~= one);
            }
            if volume.spare {
                assert(devices_among(seq![volume], true) =~= one);
            }
        }
    } else {
        assert((a + b).drop_last() =~= a + b.drop_last());
        assert((a + b).last() == b.last());
        law_devices_add_up(a, b.drop_last(), volume, spare);
        assert(devices_among(a + b, spare) =~= devices_among(a, spare) + devices_among(b, spare));
    }
}

/// Whether one of the volumes is chosen and could be examined.
pub open spec fn has_choice(volumes: Seq<VolumeView>) -> bool {
    exists|i: int| 0 <= i < volumes.len() && (#[trigger] volumes[i]).chosen && volumes[i].info is Ok
}

/// Whether a volume is to be offered: one that could be examined and is chosen, or, where no
/// chosen one could, is spare.
pub open spec fn is_offered(volumes: Seq<VolumeView>, i: int) -> bool {
    volumes[i].info is Ok && (volumes[i].chosen || (!has_choice(volumes) && volumes[i].spare))
}

/// Where the devices among volumes come from, and that none is left out.
proof fn lemma_devices_source(volumes: Seq<VolumeView>, spare: bool) -> (source: Seq<int>)
    ensures
        source.len() == devices_among(volumes, spare).len(),
        forall|k: int|
            0 <= k < source.len() ==> 0 <= #[trigger] source[k] < volumes.len()
                && volumes[source[k]].info == Ok::<DeviceView, FsErrorView>(
                devices_among(volumes, spare)[k],
            ) && (if spare {
                volumes[source[k]].spare
            } else {
                volumes[source[k]].chosen
            }),
        forall|k: int, m: int| 0 <= k < m < source.len() ==> source[k] < source[m],
        forall|i: int|
            0 <= i < volumes.len() && (#[trigger] volumes[i]).info is Ok && (if spare {
                volumes[i].spare
            } else {
                volumes[i].chosen
            }) ==> source.contains(i),
    decreases volumes.len(),
{
    if volumes.len() == 0 {
        Seq::empty()
    } else {
        let rest = volumes.drop_last();
        let last = volumes.last();
        let n = volumes.len() - 1;
        let before = lemma_devices_source(rest, spare);
        let wanted = last.info is Ok && (if spare {
            last.spare
        } else {
            last.chosen
        });
        let source = if wanted {
            before.push(n)
        } else {
            before
        };
        assert forall|i: int|
            0 <= i < volumes.len() && (#[trigger] volumes[i]).info is Ok && (if spare {
                volumes[i].spare
            } else {
                volumes[i].chosen
            }) implies source.contains(i) by {
            if i < n {
                assert(rest[i] == volumes[i]);
                let k = choose|k: int| 0 <= k < before.len() && before[k] == i;
                assert(source[k] == i);
            } else {
                assert(source[before.len() as int] == n);
            }
        }
        assert forall|k: int| 0 <= k < source.len() implies 0 <= #[trigger] source[k]
            < volumes.len() && volumes[source[k]].info == Ok::<DeviceView, FsErrorView>(
            devices_among(volumes, spare)[k],
        ) && (if spare {
            volumes[source[k]].spare
        } else {
            volumes[source[k]].chosen
        }) by {
            if k < before.len() {
                assert(source[k] == before[k]);
                assert(rest[before[k]] == volumes[before[k]]);
            }
        }
        source
    }
}

/// There is a device among the chosen volumes exactly where one of them could be examined.
proof fn lemma_has_choice(volumes: Seq<VolumeView>)
    ensures
        has_choice(volumes) <==> devices_among(volumes, false).len() > 0,
{
    let source = lemma_devices_source(volumes, false);
    if source.len() > 0 {
        assert(0 <= source[0] < volumes.len());
        assert(volumes[source[0]].chosen);
    }
    if has_choice(volumes) {
        let i = choose|i: int|
            0 <= i < volumes.len() && (#[trigger] volumes[i]).chosen && volumes[i].info is Ok;
        assert(source.contains(i));
    }
}

/// The devices offered are those of the volumes to be offered, one for each of them, in the order
/// of the volumes: `source` says of each device which volume it is of.
pub proof fn law_one_device_for_each_volume(volumes: Seq<VolumeView>) -> (source: Seq<int>)
    ensures
        source.len() == devices_to_offer(volumes).len(),
        forall|k: int|
            0 <= k < source.len() ==> 0 <= #[trigger] source[k] < volumes.len() && is_offered(
                volumes,
                source[k],
            ) && volumes[source[k]].info == Ok::<DeviceView, FsErrorView>(
                devices_to_offer(volumes)[k],
            ),
        forall|k: int, m: int| 0 <= k < m < source.len() ==> source[k] < source[m],
        forall|i: int|
            0 <= i < volumes.len() && #[trigger] is_offered(volumes, i) ==> source.contains(i),
{
    lemma_has_choice(volumes);
    let source = lemma_devices_source(volumes, !has_choice(volumes));
    assert forall|i: int|
        0 <= i < volumes.len() && #[trigger] is_offered(volumes, i) implies source.contains(i) by {
        assert(volumes[i].info is Ok);
    }
    source
}

/// No device is missed: every chosen volume that could be examined is offered, and where there is
/// none every spare one.
pub proof fn law_no_device_missed(volumes: Seq<VolumeView>, i: int)
    requires
        0 <= i < volumes.len(),
        volumes[i].info is Ok,
    ensures
        volumes[i].chosen ==> devices_to_offer(volumes).contains(volumes[i].info->Ok_0),
        volumes[i].spare && (forall|k: int|
            0 <= k < volumes.len() ==> !(#[trigger] volumes[k]).chosen || volumes[k].info is Err)
            ==> devices_to_offer(volumes).contains(volumes[i].info->Ok_0),
{
    let source = law_one_device_for_each_volume(volumes);
    if is_offered(volumes, i) {
        let k = choose|k: int| 0 <= k < source.len() && source[k] == i;
        assert(devices_to_offer(volumes)[k] == volumes[i].info->Ok_0);
    }
}

/// Whether a level tells no space.
pub open spec fn tells_no_space(level: SpaceProbe) -> bool {
    level.stat is None || level.stat->0.fragment == 0 || level.stat->0.blocks == 0
}

/// The space of a directory is that of the first level that tells one, where every level before
/// it is there: its fragments in bytes, those free and all.
pub proof fn law_space(below: Seq<SpaceProbe>, level: SpaceProbe, above: Seq<SpaceProbe>)
    requires
        forall|i: int|
            0 <= i < below.len() ==> (#[trigger] below[i]).is_dir && tells_no_space(below[i]),
    ensures
        level.is_dir && !tells_no_space(level) && level.stat->0.available * level.stat->0.fragment
            <= u64::MAX && level.stat->0.blocks * level.stat->0.fragment <= u64::MAX ==> (
        space_info(below + seq![level] + above).0 == level.stat->0.available
            * level.stat->0.fragment && space_info(below + seq![level] + above).1
            == level.stat->0.blocks * level.stat->0.fragment),
        !level.is_dir ==> space_info(below + seq![level] + above) == (0u64, 0u64),
        space_info(below) == (0u64, 0u64),
    decreases below.len(),
{
    let all = below + seq![level] + above;
    if below.len() == 0 {
        assert(all[0] == level);
    } else {
        let rest = below.drop_first();
        assert forall|i: int| 0 <= i < rest.len() implies (#[trigger] rest[i]).is_dir
            && tells_no_space(rest[i]) by {
            assert(rest[i] == below[i + 1]);
        }
        law_space(rest, level, above);
        assert(below[0].is_dir && tells_no_space(below[0]));
        assert(all[0] == below[0]);
        assert(all.drop_first() =~= rest + seq![level] + above);
    }
}

/// The first removable device is removable and none before it is; where there is none, no device
/// is.
pub proof fn law_first_removable(devices: Seq<DeviceView>, i: int)
    ensures
        0 <= first_removable(devices) <= devices.len(),
        first_removable(devices) < devices.len() ==> devices[first_removable(
            devices,
        )].is_removable,
        0 <= i < first_removable(devices) ==> !devices[i].is_removable,
    decreases devices.len(),
{
    if devices.len() > 0 && !devices[0].is_removable {
        law_first_removable(devices.drop_first(), i - 1);
    }
}

/// What `findmnt` tells of a file system is the first word of its output: `vfat` and `fat32` are
/// FAT32, `ntfs` and `ntfs3` NTFS, `exfat` and `ext4` what they say; any other is unknown.
pub proof fn law_linux_filesystem(before: Seq<char>, word: Seq<char>, after: Seq<char>)
    requires
        is_blank(before),
        word.len() > 0,
        forall|i: int| 0 <= i < word.len() ==> !is_white_space(#[trigger] word[i]),
        after.len() > 0 ==> is_white_space(after[0]),
    ensures
        linux_filesystem(before + word + after) is Fat32 <==> word == "vfat"@ || word == "fat32"@,
        linux_filesystem(before + word + after) is Ntfs <==> word == "ntfs"@ || word == "ntfs3"@,
        linux_filesystem(before + word + after) is ExFat <==> word == "exfat"@,
        linux_filesystem(before + word + after) is Ext4 <==> word == "ext4"@,
        linux_filesystem(before + word + after) is Unknown ==> linux_filesystem(
            before + word + after,
        ) == FilesystemView::Unknown(word),
        !(linux_filesystem(before + word + after) is Apfs),
        !(linux_filesystem(before + word + after) is HfsPlus),
{
    law_first_word(before, word, after);
    reveal_strlit("vfat");
    reveal_strlit("fat32");
    reveal_strlit("ntfs");
    reveal_strlit("ntfs3");
    reveal_strlit("exfat");
    reveal_strlit("ext4");
    assert("vfat"@[0] == 'v' && "fat32"@[0] == 'f' && "ntfs"@[0] == 'n' && "ntfs3"@[0] == 'n');
    assert("exfat"@[1] == 'x' && "ext4"@[2] == 't' && "exfat"@[2] == 'f' && "exfat"@[0] == 'e'
        && "ext4"@[0] == 'e');
}

/// What `diskutil` tells of a file system is the first of the names that its output holds, in this
/// order, wherever it stands in it.
pub proof fn law_macos_filesystem(a: Seq<char>, b: Seq<char>, output: Seq<char>)
    ensures
        macos_filesystem(a + "FAT32"@ + b) is Fat32,
        !contains_text(a + "ExFAT"@ + b, "FAT32"@) ==> macos_filesystem(a + "ExFAT"@ + b) is ExFat,
        !contains_text(a + "exFAT"@ + b, "FAT32"@) ==> macos_filesystem(a + "exFAT"@ + b) is ExFat,
        !contains_text(output, "FAT32"@) && !contains_text(output, "ExFAT"@) && !contains_text(
            output,
            "exFAT"@,
        ) ==> {
            &&& output == a + "NTFS"@ + b ==> macos_filesystem(output) is Ntfs
            &&& !contains_text(output, "NTFS"@) && output == a + "APFS"@ + b ==> macos_filesystem(
                output,
            ) is Apfs
            &&& !contains_text(output, "NTFS"@) && !contains_text(output, "APFS"@) && output == a
                + "HFS+"@ + b ==> macos_filesystem(output) is HfsPlus
            &&& !contains_text(output, "NTFS"@) && !contains_text(output, "APFS"@)
                && !contains_text(output, "HFS+"@) ==> macos_filesystem(output)
                == FilesystemView::Unknown("Unknown"@)
        },
{
    law_contains_text(output, "FAT32"@, a, b);
    law_contains_text(output, "ExFAT"@, a, b);
    law_contains_text(output, "exFAT"@, a, b);
    law_contains_text(output, "NTFS"@, a, b);
    law_contains_text(output, "APFS"@, a, b);
    law_contains_text(output, "HFS+"@, a, b);
}

/// The names that Windows gives to file systems.
pub proof fn law_windows_filesystem(name: Seq<char>)
    ensures
        windows_filesystem(name) is Fat32 <==> name == "FAT32"@,
        windows_filesystem(name) is Ntfs <==> name == "NTFS"@,
        windows_filesystem(name) is ExFat <==> name == "EXFAT"@,
        name != "FAT32"@ && name != "NTFS"@ && name != "EXFAT"@ ==> windows_filesystem(name)
            == FilesystemView::Unknown(name),
{
    reveal_strlit("FAT32");
    reveal_strlit("NTFS");
    reveal_strlit("EXFAT");
    assert("FAT32"@[0] == 'F' && "NTFS"@[0] == 'N' && "EXFAT"@[0] == 'E');
}

/// A device has the name, the mount point and the space that were found; games are split for
/// FAT32 and for nothing else.
pub proof fn law_device(
    mount_point: Seq<char>,
    name: Option<Seq<char>>,
    space: (u64, u64),
    probe: DeviceProbe,
)
    ensures
        device_info(mount_point, name, space, probe) matches Ok(device) ==> {
            &&& device.mount_point == mount_point
            &&& device.free_space == space.0
            &&& device.total_space == space.1
            &&& device.filesystem is Fat32 ==> device.recommended_mode == "split"@
            &&& !(device.filesystem is Fat32) ==> device.recommended_mode == "nosplit"@
            &&& !(probe is Windows) && name is Some ==> device.name == name->0
            &&& probe is Linux && name is None ==> device.name == "USB Drive"@
            &&& probe is MacOs && name is None ==> device.name == "Unknown"@
            &&& !(probe is Windows) ==> device.is_removable
            &&& probe is Windows ==> (device.is_removable <==> probe->drive_type == 2)
            &&& probe is Linux ==> device.filesystem == linux_filesystem(
                decoded(probe->Linux_0->Ok_0.stdout@),
            )
            &&& probe is MacOs ==> device.filesystem == macos_filesystem(
                decoded(probe->MacOs_0->Ok_0.stdout@),
            )
        },
        device_info(mount_point, name, space, probe) is Err <==> (probe is Linux
            && probe->Linux_0 is Err) || (probe is MacOs && (probe->MacOs_0 is Err
            || !probe->MacOs_0->Ok_0.success)),
{
}

/// A drive is called by its label, or else by its letter; its file system is the one that Windows
/// names, whatever the case of the letters.
pub proof fn law_windows_device(
    mount_point: Seq<char>,
    space: (u64, u64),
    label: Seq<u16>,
    fs: Seq<u16>,
    drive_type: u32,
)
    ensures
        ({
            let device = windows_device(mount_point, space, Some((label, fs)), drive_type);
            &&& wide_text(label).len() > 0 ==> device.name == wide_text(label)
            &&& wide_text(label).len() == 0 ==> device.name == drive_of(mount_point)
            &&& device.filesystem == windows_filesystem(uppercase(wide_text(fs)))
        }),
        windows_device(mount_point, space, None, drive_type).name == drive_of(mount_point),
        windows_device(mount_point, space, None, drive_type).filesystem == FilesystemView::Unknown(
            "Unknown"@,
        ),
{
}

/// The drive of a path on Windows is its first two characters.
pub proof fn law_drive_of(letter: char, colon: char, rest: Seq<char>)
    ensures
        drive_of(seq![letter, colon] + rest) == seq![letter, colon],
        drive_of(seq![letter]) == seq![letter],
        drive_of(Seq::empty()) == Seq::<char>::empty(),
{
    assert((seq![letter, colon] + rest).take(2) =~= seq![letter, colon]);
}

/// A text in a buffer of Windows ends before the first null; without one there is none.
pub proof fn law_wide_text(text: Seq<u16>, rest: Seq<u16>)
    requires
        !text.contains(0u16),
    ensures
        wide_text(text + seq![0u16] + rest) == lossy_utf16(text),
        wide_text(text).len() == 0,
{
    let buffer = text + seq![0u16] + rest;
    let n = text.len() as int;
    assert forall|i: int| 0 <= i < n implies text[i] != 0 && buffer[i] != 0 by {
        assert(text.contains(text[i]));
    }
    lemma_first_of_unique(buffer, 0u16, n);
    lemma_first_of_unique(text, 0u16, n);
    assert(buffer.take(n) =~= text);
}

/// The roots in a buffer of Windows stand one after the other, each ended by a null, and an empty
/// one ends them.
pub proof fn law_roots(before: Seq<u16>, root: Seq<u16>, rest: Seq<u16>, len: int)
    requires
        !root.contains(0u16),
        before.len() < len,
    ensures
        root.len() > 0 ==> roots_from(
            before + root + seq![0u16] + rest,
            before.len() as int,
            len,
        ) == seq![lossy_utf16(root)] + roots_from(
            before + root + seq![0u16] + rest,
            (before.len() + root.len() + 1) as int,
            len,
        ),
        root.len() > 0 ==> roots_from(
            before + root,
            before.len() as int,
            (before.len() + root.len()) as int,
        ) == seq![lossy_utf16(root)],
        roots_from(before + seq![0u16] + rest, before.len() as int, len).len() == 0,
        roots_from(before, len, len).len() == 0,
{
    let start = before.len() as int;
    let n = root.len() as int;
    let whole = before + root + seq![0u16] + rest;
    assert(whole.skip(start) =~= root + seq![0u16] + rest);
    assert forall|i: int| 0 <= i < n implies whole.skip(start)[i] != 0 && root[i] != 0 by {
        assert(root.contains(root[i]));
    }
    lemma_first_of_unique(whole.skip(start), 0u16, n);
    assert(whole.subrange(start, start + n) =~= root);
    let open = before + root;
    assert(open.skip(start) =~= root);
    lemma_first_of_unique(root, 0u16, n);
    if n > 0 {
        assert(open.subrange(start, start + n) =~= root);
        assert(roots_from(open, start + n + 1, start + n) =~= Seq::empty());
        assert(roots_from(open, start, start + n) =~= seq![lossy_utf16(root)]);
    }
    let ended = before + seq![0u16] + rest;
    assert(ended.skip(start)[0] == 0);
    lemma_first_of_unique(ended.skip(start), 0u16, 0);
}

/// A volume on macOS is removable where the output of `diskutil` holds one of five marks, wherever
/// it stands in it.
pub proof fn law_removable_marks(a: Seq<char>, b: Seq<char>, output: Seq<char>)
    ensures
        tells_removable(a + "Removable Media"@ + b),
        tells_removable(a + "Protocol:                 USB"@ + b),
        tells_removable(a + "Protocol:                USB"@ + b),
        tells_removable(a + "Removable:               Yes"@ + b),
        tells_removable(a + "External"@ + b),
        tells_removable(output) ==> exists|x: Seq<char>, y: Seq<char>| #[trigger]
            marked(output, x, y),
{
    law_contains_text(output, "Removable Media"@, a, b);
    law_contains_text(output, "Protocol:                 USB"@, a, b);
    law_contains_text(output, "Protocol:                USB"@, a, b);
    law_contains_text(output, "Removable:               Yes"@, a, b);
    law_contains_text(output, "External"@, a, b);
    if tells_removable(output) {
        let (x, y) = if contains_text(output, "Removable Media"@) {
            choose|x: Seq<char>, y: Seq<char>| output == #[trigger] (x + "Removable Media"@ + y)
        } else if contains_text(output, "Protocol:                 USB"@) {
            choose|x: Seq<char>, y: Seq<char>|
                output == #[trigger] (x + "Protocol:                 USB"@ + y)
        } else if contains_text(output, "Protocol:                USB"@) {
            choose|x: Seq<char>, y: Seq<char>|
                output == #[trigger] (x + "Protocol:                USB"@ + y)
        } else if contains_text(output, "Removable:               Yes"@) {
            choose|x: Seq<char>, y: Seq<char>|
                output == #[trigger] (x + "Removable:               Yes"@ + y)
        } else {
            choose|x: Seq<char>, y: Seq<char>| output == #[trigger] (x + "External"@ + y)
        };
        assert(marked(output, x, y));
    }
}

/// Whether one of the five marks stands between two texts.
pub open spec fn marked(output: Seq<char>, x: Seq<char>, y: Seq<char>) -> bool {
    ||| output == x + "Removable Media"@ + y
    ||| output == x + "Protocol:                 USB"@ + y
    ||| output == x + "Protocol:                USB"@ + y
    ||| output == x + "Removable:               Yes"@ + y
    ||| output == x + "External"@ + y
}

/// The model of a [`DeviceInfo`] has all that it holds, and that of a list has every item at its
/// place.
pub proof fn law_model_of_device_info(info: DeviceInfo, list: Seq<DeviceInfo>, i: int)
    ensures
        info@.name == info.name@,
        info@.mount_point == info.mount_point@,
        info@.filesystem == info.filesystem@,
        info@.free_space == info.free_space,
        info@.total_space == info.total_space,
        info@.is_removable == info.is_removable,
        info@.recommended_mode == info.recommended_mode@,
        device_views(list).len() == list.len(),
        0 <= i < list.len() ==> device_views(list)[i] == list[i]@,
{
}

/// The model of a [`Volume`] has all that it holds, and that of a list has every item at its place.
pub proof fn law_model_of_volume(volume: Volume, list: Seq<Volume>, i: int)
    ensures
        volume@.chosen == volume.chosen,
        volume@.spare == volume.spare,
        volume@.info == info_view(volume.info),
        volume_views(list).len() == list.len(),
        0 <= i < list.len() ==> volume_views(list)[i] == list[i]@,
{
}

/// The space of a directory can be counted exactly where that of the first level that tells one
/// can be, in bytes.
pub proof fn law_countable_space(below: Seq<SpaceProbe>, level: SpaceProbe, above: Seq<SpaceProbe>)
    requires
        forall|i: int|
            0 <= i < below.len() ==> (#[trigger] below[i]).is_dir && tells_no_space(below[i]),
    ensures
        level.is_dir && !tells_no_space(level) ==> (countable_space(below + seq![level] + above)
            <==> level.stat->0.available * level.stat->0.fragment <= u64::MAX
            && level.stat->0.blocks * level.stat->0.fragment <= u64::MAX),
        !level.is_dir ==> countable_space(below + seq![level] + above),
        countable_space(below),
    decreases below.len(),
{
    let all = below + seq![level] + above;
    if below.len() == 0 {
        assert(all[0] == level);
    } else {
        let rest = below.drop_first();
        assert forall|i: int| 0 <= i < rest.len() implies (#[trigger] rest[i]).is_dir
            && tells_no_space(rest[i]) by {
            assert(rest[i] == below[i + 1]);
        }
        law_countable_space(rest, level, above);
        assert(below[0].is_dir && tells_no_space(below[0]));
        assert(all[0] == below[0]);
        assert(all.drop_first() =~= rest + seq![level] + above);
    }
}

/// What is known of a device is the device that was found, or the error.
pub proof fn law_info_view(device: DeviceInfo, e: FsError)
    ensures
        info_view(Ok(device)) == Ok::<DeviceView, FsErrorView>(device@),
        info_view(Err(e)) == Err::<DeviceView, FsErrorView>(e@),
{
}

} // verus!
