//! Formatting a drive for the loader.

use crate::filesystem::{drive_of, take_drive, CommandOutput, DeviceInfo, FsError, FsErrorView};
use crate::text::{
    contains_text,
    decode_lossy,
    decoded,
    find,
    find_text,
    from_chars,
    has_prefix,
    law_find_text,
    lemma_find_from,
    occurs_at,
    starts_with,
    texts,
    to_chars,
    trim,
    trimmed,
};
use crate::ulcfg::{entry_views, serialized, write_ulcfg, EntryView, UlEntry};
use vstd::prelude::*;
use vstd::slice::slice_subrange;
use vstd::string::StringExecFns;

verus! {

/// A program to run, with its arguments.
#[derive(Debug, Clone)]
pub struct ShellCommand {
    pub program: String,
    pub args: Vec<String>,
}

/// What the operating system tells of the drive to format: the output of the program that names
/// it, or why that could not be run.
pub enum DriveQuery {
    /// The output of `findmnt`.
    Linux(Result<Vec<u8>, String>),
    /// The output of `diskutil info`.
    MacOs(Result<Vec<u8>, String>),
    /// The drive is named by its letter.
    Windows,
}

// ---------------------------------------------------------------- which drive

/// Whether a character is a decimal digit.
pub open spec fn is_digit(c: char) -> bool {
    '0' <= c <= '9'
}

/// Where the run of digits that begins at `i` ends.
pub open spec fn digits_end(s: Seq<char>, i: int) -> int
    decreases s.len() - i,
{
    if 0 <= i < s.len() && is_digit(s[i]) {
        digits_end(s, i + 1)
    } else {
        i
    }
}

/// Whether a character can stand in the slices of an identifier: a digit, or an `s` before one.
pub open spec fn is_slice_char(s: Seq<char>, i: int) -> bool {
    is_digit(s[i]) || (s[i] == 's' && i + 1 < s.len() && is_digit(s[i + 1]))
}

/// Whether an identifier names only slices from `from` on, each an `s` and a number.
pub open spec fn only_slices(s: Seq<char>, from: int) -> bool {
    &&& from < s.len() ==> s[from] == 's'
    &&& forall|i: int| from <= i < s.len() ==> #[trigger] is_slice_char(s, i)
}

/// The disk of a partition: `disk` and its number, where only slices follow; any other identifier
/// as it is. So `disk2s1` is on `disk2`.
pub open spec fn parent_disk(id: Seq<char>) -> Seq<char> {
    let end = digits_end(id, 4);
    if starts_with(id, "disk"@) && end > 4 && only_slices(id, end) {
        id.take(end)
    } else {
        id
    }
}

/// The text between the first `open` after the first `key` in `text` and the first `close` after
/// that.
pub open spec fn value_after(
    text: Seq<char>,
    key: Seq<char>,
    open: Seq<char>,
    close: Seq<char>,
) -> Option<Seq<char>> {
    match find_text(text, key) {
        Some(i) => {
            let rest = text.skip(i);
            match find_text(rest, open) {
                Some(j) => {
                    let value = rest.skip(j + open.len());
                    match find_text(value, close) {
                        Some(k) => Some(value.take(k)),
                        None => None,
                    }
                },
                None => None,
            }
        },
        None => None,
    }
}

/// The device file of the disk that the output of `diskutil info` describes.
pub open spec fn macos_disk(output: Seq<char>) -> Option<Seq<char>> {
    match value_after(output, "<key>DeviceIdentifier</key>"@, "<string>"@, "</string>"@) {
        Some(id) => Some("/dev/"@ + parent_disk(id)),
        None => None,
    }
}

/// The text between the first `open` after the first `key` and the first `close` after that.
fn find_value(text: &[char], key: &str, open: &str, close: &str) -> (value: Option<Vec<char>>)
    ensures
        value_after(text@, key@, open@, close@) == (match value {
            Some(v) => Some(v@),
            None => None,
        }),
{
    let key = to_chars(key);
    let open = to_chars(open);
    let close = to_chars(close);
    let i: usize = match find(text, key.as_slice()) {
        Some(i) => i,
        None => {
            return None;
        },
    };
    proof {
        lemma_find_from(text@, key@, 0);
    }
    let rest = slice_subrange(text, i, text.len());
    assert(rest@ =~= text@.skip(i as int));
    let j: usize = match find(rest, open.as_slice()) {
        Some(j) => j,
        None => {
            return None;
        },
    };
    let value = slice_subrange(rest, j + open.len(), rest.len());
    assert(value@ =~= rest@.skip(j + open@.len()));
    match find(value, close.as_slice()) {
        Some(k) => {
            let found = slice_subrange(value, 0, k);
            let mut v: Vec<char> = Vec::new();
            v.extend_from_slice(found);
            assert(v@ =~= value@.take(k as int));
            Some(v)
        },
        None => None,
    }
}

/// Whether an identifier names only slices from `from` on.
fn names_only_slices(id: &[char], from: usize) -> (b: bool)
    requires
        from <= id@.len(),
    ensures
        b == only_slices(id@, from as int),
{
    if from < id.len() && id[from] != 's' {
        return false;
    }
    let mut i: usize = from;
    while i < id.len()
        invariant
            from <= i <= id@.len(),
            forall|k: int| from <= k < i ==> #[trigger] is_slice_char(id@, k),
        decreases id.len() - i,
    {
        let digit = '0' <= id[i] && id[i] <= '9';
        let slice = id[i] == 's' && i + 1 < id.len() && '0' <= id[i + 1] && id[i + 1] <= '9';
        assert(is_slice_char(id@, i as int) == (digit || slice));
        if !digit && !slice {
            return false;
        }
        i += 1;
    }
    true
}

/// The disk of a partition.
fn disk_of(id: &[char]) -> (disk: String)
    ensures
        disk@ == parent_disk(id@),
{
    if has_prefix(id, "disk") {
        proof {
            reveal_strlit("disk");
        }
        let mut end: usize = 4;
        while end < id.len() && '0' <= id[end] && id[end] <= '9'
            invariant
                4 <= end <= id@.len(),
                digits_end(id@, 4) == digits_end(id@, end as int),
            decreases id.len() - end,
        {
            end += 1;
        }
        if end > 4 && names_only_slices(id, end) {
            let disk = from_chars(slice_subrange(id, 0, end));
            assert(disk@ =~= id@.take(end as int));
            return disk;
        }
    }
    from_chars(id)
}

/// The device file of the disk that the output of `diskutil info` describes.
pub fn disk_identifier_macos(output: &str) -> (r: Result<String, FsError>)
    ensures
        match macos_disk(output@) {
            Some(disk) => r matches Ok(s) && s@ == disk,
            None => r matches Err(e) && e@ == FsErrorView::DetectionFailed(
                "Could not determine disk identifier"@,
            ),
        },
{
    let text = to_chars(output);
    match find_value(text.as_slice(), "<key>DeviceIdentifier</key>", "<string>", "</string>") {
        Some(id) => Ok("/dev/".to_owned().concat(disk_of(id.as_slice()).as_str())),
        None => Err(FsError::DetectionFailed("Could not determine disk identifier".to_owned())),
    }
}

/// The device file that the output of `findmnt` names.
pub fn device_path_linux(output: &str) -> (r: Result<String, FsError>)
    ensures
        if trimmed(output@).len() > 0 {
            r matches Ok(s) && s@ == trimmed(output@)
        } else {
            r matches Err(e) && e@ == FsErrorView::DetectionFailed(
                "Could not determine device path"@,
            )
        },
{
    let text = to_chars(output);
    let path = trim(text.as_slice());
    if path.len() > 0 {
        Ok(from_chars(path))
    } else {
        Err(FsError::DetectionFailed("Could not determine device path".to_owned()))
    }
}

// ---------------------------------------------------------------- the program to run

/// Whether a command is this program with these arguments.
pub open spec fn runs(command: ShellCommand, program: Seq<char>, args: Seq<Seq<char>>) -> bool {
    command.program@ == program && texts(command.args@) == args
}

/// Makes a command.
fn command(program: &str, args: Vec<String>) -> (c: ShellCommand)
    ensures
        runs(c, program@, texts(args@)),
{
    ShellCommand { program: program.to_owned(), args }
}

/// The program that formats a drive as FAT32 with this label, which erases all that is on it.
pub fn format_drive_fat32(device: &DeviceInfo, label: &str, query: &DriveQuery) -> (r: Result<
    ShellCommand,
    FsError,
>)
    ensures
        match *query {
            DriveQuery::Linux(Ok(out)) => {
                let path = trimmed(decoded(out@));
                if path.len() > 0 {
                    r matches Ok(c) && runs(
                        c,
                        "mkfs.fat"@,
                        seq!["-F"@, "32"@, "-n"@, label@, path],
                    )
                } else {
                    r matches Err(e) && e@ == FsErrorView::DetectionFailed(
                        "Could not determine device path"@,
                    )
                }
            },
            DriveQuery::MacOs(Ok(out)) => match macos_disk(decoded(out@)) {
                Some(disk) => r matches Ok(c) && runs(
                    c,
                    "diskutil"@,
                    seq!["eraseDisk"@, "FAT32"@, label@, "MBRFormat"@, disk],
                ),
                None => r matches Err(e) && e@ == FsErrorView::DetectionFailed(
                    "Could not determine disk identifier"@,
                ),
            },
            DriveQuery::Windows => r matches Ok(c) && runs(
                c,
                "format"@,
                seq![drive_of(device@.mount_point), "/FS:FAT32"@, "/V:"@ + label@, "/Q"@, "/Y"@],
            ),
            DriveQuery::Linux(Err(e)) => r matches Err(f) && f@ == FsErrorView::DetectionFailed(e@),
            DriveQuery::MacOs(Err(e)) => r matches Err(f) && f@ == FsErrorView::DetectionFailed(e@),
        },
{
    let mut args: Vec<String> = Vec::new();
    match query {
        DriveQuery::Linux(Ok(out)) => {
            match device_path_linux(decode_lossy(out.as_slice()).as_str()) {
                Ok(path) => {
                    args.push("-F".to_owned());
                    args.push("32".to_owned());
                    args.push("-n".to_owned());
                    args.push(label.to_owned());
                    args.push(path);
                    assert(texts(args@) =~= seq!["-F"@, "32"@, "-n"@, label@, path@]);
                    Ok(command("mkfs.fat", args))
                },
                Err(e) => Err(e),
            }
        },
        DriveQuery::MacOs(Ok(out)) => {
            match disk_identifier_macos(decode_lossy(out.as_slice()).as_str()) {
                Ok(disk) => {
                    args.push("eraseDisk".to_owned());
                    args.push("FAT32".to_owned());
                    args.push(label.to_owned());
                    args.push("MBRFormat".to_owned());
                    args.push(disk);
                    assert(texts(args@)
                        =~= seq!["eraseDisk"@, "FAT32"@, label@, "MBRFormat"@, disk@]);
                    Ok(command("diskutil", args))
                },
                Err(e) => Err(e),
            }
        },
        DriveQuery::Windows => {
            args.push(take_drive(device.mount_point.as_str()));
            args.push("/FS:FAT32".to_owned());
            args.push("/V:".to_owned().concat(label));
            args.push("/Q".to_owned());
            args.push("/Y".to_owned());
            assert(texts(args@) =~= seq![
                drive_of(device@.mount_point),
                "/FS:FAT32"@,
                "/V:"@ + label@,
                "/Q"@,
                "/Y"@,
            ]);
            Ok(command("format", args))
        },
        DriveQuery::Linux(Err(e)) => Err(FsError::DetectionFailed(e.clone())),
        DriveQuery::MacOs(Err(e)) => Err(FsError::DetectionFailed(e.clone())),
    }
}

/// What an unsuccessful run of the program that formats is called, by the system.
pub open spec fn format_failure(query: DriveQuery) -> Seq<char> {
    match query {
        DriveQuery::Linux(_) => "mkfs.fat failed: "@,
        DriveQuery::MacOs(_) => "diskutil eraseDisk failed: "@,
        DriveQuery::Windows => "format failed: "@,
    }
}

/// The outcome of running the program that formats, or why it could not be run.
pub fn format_outcome(query: &DriveQuery, run: &Result<CommandOutput, String>) -> (r: Result<
    (),
    FsError,
>)
    ensures
        match *run {
            Ok(out) => if out.success {
                r is Ok
            } else {
                r matches Err(e) && e@ == FsErrorView::DetectionFailed(
                    format_failure(*query) + decoded(out.stderr@),
                )
            },
            Err(e) => r matches Err(f) && f@ == FsErrorView::DetectionFailed(e@),
        },
{
    match run {
        Ok(out) => {
            if out.success {
                return Ok(());
            }
            let stderr = decode_lossy(out.stderr.as_slice());
            let what = match query {
                DriveQuery::Linux(_) => "mkfs.fat failed: ",
                DriveQuery::MacOs(_) => "diskutil eraseDisk failed: ",
                DriveQuery::Windows => "format failed: ",
            };
            Err(FsError::DetectionFailed(what.to_owned().concat(stderr.as_str())))
        },
        Err(e) => Err(FsError::DetectionFailed(e.clone())),
    }
}

// ---------------------------------------------------------------- formatting for the loader

/// Whether a drive can be formatted: its mount point has to be a directory.
pub fn check_mount_point(mount_point: &str, is_dir: bool) -> (r: Result<(), String>)
    ensures
        if is_dir {
            r is Ok
        } else {
            r matches Err(e) && e@ == "Invalid mount point: "@ + mount_point@
        },
{
    if is_dir {
        Ok(())
    } else {
        Err("Invalid mount point: ".to_owned().concat(mount_point))
    }
}

/// What is left once a drive has been formatted for the loader: its game list, which is empty,
/// and what to tell the user.
pub fn format_drive_for_opl(volume_label: &str) -> (r: (Vec<u8>, String))
    ensures
        r.0@ == serialized(Seq::<EntryView>::empty()),
        r.0@.len() == 0,
        r.1@ == "Drive formatted as FAT32 ("@ + volume_label@
            + "). ul.cfg created. Ready to add games."@,
{
    let none: Vec<UlEntry> = Vec::new();
    assert(entry_views(none@) =~= Seq::empty());
    let message = "Drive formatted as FAT32 (".to_owned().concat(volume_label).concat(
        "). ul.cfg created. Ready to add games.",
    );
    (write_ulcfg(none.as_slice()), message)
}

/// A run of digits ends where they end.
proof fn lemma_digits_end(s: Seq<char>, from: int, end: int)
    requires
        0 <= from <= end <= s.len(),
        forall|i: int| from <= i < end ==> is_digit(#[trigger] s[i]),
        end < s.len() ==> !is_digit(s[end]),
    ensures
        digits_end(s, from) == end,
    decreases end - from,
{
    if from < end {
        lemma_digits_end(s, from + 1, end);
    }
}

/// A disk is its own parent, and every slice of it, whatever the number, is on that disk.
pub proof fn law_parent_disk(number: Seq<char>, slice: Seq<char>)
    requires
        number.len() > 0,
        forall|i: int| 0 <= i < number.len() ==> is_digit(#[trigger] number[i]),
        slice.len() > 0,
        forall|i: int| 0 <= i < slice.len() ==> is_digit(#[trigger] slice[i]),
    ensures
        parent_disk("disk"@ + number) == "disk"@ + number,
        parent_disk("disk"@ + number + seq!['s'] + slice) == "disk"@ + number,
{
    reveal_strlit("disk");
    let disk = "disk"@ + number;
    let id = disk + seq!['s'] + slice;
    let end = disk.len() as int;
    assert forall|i: int| 4 <= i < end implies is_digit(#[trigger] id[i]) by {
        assert(id[i] == number[i - 4]);
    }
    lemma_digits_end(id, 4, end);
    assert(id.subrange(0, 4) =~= "disk"@);
    assert forall|i: int| end <= i < id.len() implies #[trigger] is_slice_char(id, i) by {
        if i > end {
            assert(id[i] == slice[i - end - 1]);
        } else {
            assert(id[i + 1] == slice[0]);
        }
    }
    assert(id.take(end) =~= disk);
    assert(disk.take(digits_end(disk, 4)) =~= disk) by {
        assert forall|i: int| 4 <= i < disk.len() implies is_digit(#[trigger] disk[i]) by {
            assert(disk[i] == number[i - 4]);
        }
        lemma_digits_end(disk, 4, disk.len() as int);
    }
}

/// Whether `p` stands in `s` behind `a` for the first time.
pub open spec fn is_first_at(s: Seq<char>, a: Seq<char>, p: Seq<char>) -> bool {
    &&& s == a + p + s.skip((a.len() + p.len()) as int)
    &&& forall|x: Seq<char>, y: Seq<char>| s == #[trigger] (x + p + y) ==> a.len() <= x.len()
}

/// A search finds what stands there for the first time.
proof fn lemma_first_at(s: Seq<char>, a: Seq<char>, p: Seq<char>)
    requires
        is_first_at(s, a, p),
    ensures
        find_text(s, p) == Some(a.len() as int),
{
    let rest = s.skip((a.len() + p.len()) as int);
    law_find_text(s, p, a, rest);
    let i = find_text(s, p)->0;
    assert(s == s.take(i) + p + s.skip(i + p.len()));
    assert(a.len() <= s.take(i).len());
}

/// The value of a key is what stands between the first opening behind the key and the next
/// closing.
pub proof fn law_value_after(
    text: Seq<char>,
    a: Seq<char>,
    key: Seq<char>,
    m: Seq<char>,
    open: Seq<char>,
    value: Seq<char>,
    close: Seq<char>,
)
    requires
        is_first_at(text, a, key),
        is_first_at(text.skip(a.len() as int), m, open),
        is_first_at(text.skip((a.len() + m.len() + open.len()) as int), value, close),
    ensures
        value_after(text, key, open, close) == Some(value),
{
    lemma_first_at(text, a, key);
    let rest = text.skip(a.len() as int);
    lemma_first_at(rest, m, open);
    let tail = rest.skip((m.len() + open.len()) as int);
    assert(tail =~= text.skip((a.len() + m.len() + open.len()) as int));
    lemma_first_at(tail, value, close);
    assert(tail.take(value.len() as int) =~= value);
}

/// Without the key there is no value, nor without an opening behind it, nor without a closing
/// behind that.
pub proof fn law_no_value(text: Seq<char>, key: Seq<char>, open: Seq<char>, close: Seq<char>)
    requires
        !contains_text(text, key) || !contains_text(text, open) || !contains_text(text, close),
    ensures
        value_after(text, key, open, close) is None,
{
    if value_after(text, key, open, close) is Some {
        lemma_find_from(text, key, 0);
        let i = find_text(text, key)->0;
        let rest = text.skip(i);
        lemma_find_from(rest, open, 0);
        let j = find_text(rest, open)->0;
        let value = rest.skip(j + open.len());
        lemma_find_from(value, close, 0);
        let k = find_text(value, close)->0;
        let n = open.len() as int;
        assert(occurs_at(text, key, i));
        assert(rest.subrange(j, j + n) =~= text.subrange(i + j, i + j + n));
        assert(occurs_at(text, open, i + j));
        let at = i + j + n + k;
        assert(value.subrange(k, k + close.len()) =~= text.subrange(at, at + close.len()));
        assert(occurs_at(text, close, at));
    }
}

/// A drive on macOS is the disk that holds the volume which `diskutil` identifies.
pub proof fn law_macos_disk(output: Seq<char>, a: Seq<char>, m: Seq<char>, id: Seq<char>)
    requires
        is_first_at(output, a, "<key>DeviceIdentifier</key>"@),
        is_first_at(output.skip(a.len() as int), m, "<string>"@),
        is_first_at(output.skip((a.len() + m.len() + 8) as int), id, "</string>"@),
    ensures
        macos_disk(output) == Some("/dev/"@ + parent_disk(id)),
{
    reveal_strlit("<string>");
    assert("<string>"@.len() == 8);
    law_value_after(
        output,
        a,
        "<key>DeviceIdentifier</key>"@,
        m,
        "<string>"@,
        id,
        "</string>"@,
    );
}

/// An identifier that is not that of a disk or of a slice of one stays as it is: one that does not
/// begin with `disk` and a digit, and one with anything else behind the number than slices.
pub proof fn law_other_identifier(id: Seq<char>, number: Seq<char>, tail: Seq<char>)
    requires
        number.len() > 0,
        forall|i: int| 0 <= i < number.len() ==> is_digit(#[trigger] number[i]),
        tail.len() > 0,
        !is_digit(tail[0]),
    ensures
        !starts_with(id, "disk"@) || id.len() < 5 || !is_digit(id[4]) ==> parent_disk(id) == id,
        tail[0] != 's' ==> parent_disk("disk"@ + number + tail) == "disk"@ + number + tail,
        (exists|i: int|
            0 <= i < tail.len() && !is_digit(#[trigger] tail[i]) && tail[i] != 's') ==> parent_disk(
            "disk"@ + number + tail,
        ) == "disk"@ + number + tail,
        tail.last() == 's' ==> parent_disk("disk"@ + number + tail) == "disk"@ + number + tail,
        tail[0] == 's' && (forall|i: int|
            0 <= i < tail.len() ==> is_digit(#[trigger] tail[i]) || (tail[i] == 's' && i + 1
                < tail.len() && is_digit(tail[i + 1]))) ==> parent_disk("disk"@ + number + tail)
            == "disk"@ + number,
{
    reveal_strlit("disk");
    let disk = "disk"@ + number;
    let whole = disk + tail;
    let end = disk.len() as int;
    assert forall|i: int| 4 <= i < end implies is_digit(#[trigger] whole[i]) by {
        assert(whole[i] == number[i - 4]);
    }
    assert(whole[end] == tail[0]);
    lemma_digits_end(whole, 4, end);
    assert(whole.take(end) =~= disk);
    assert(whole.subrange(0, 4) =~= "disk"@);
    if exists|i: int| 0 <= i < tail.len() && !is_digit(#[trigger] tail[i]) && tail[i] != 's' {
        let i = choose|i: int|
            0 <= i < tail.len() && !is_digit(#[trigger] tail[i]) && tail[i] != 's';
        assert(whole[end + i] == tail[i]);
        assert(!is_slice_char(whole, end + i));
    }
    if tail.last() == 's' {
        let i = whole.len() - 1;
        assert(whole[i] == 's');
        assert(!is_slice_char(whole, i));
    }
    if tail[0] == 's' && (forall|i: int|
        0 <= i < tail.len() ==> is_digit(#[trigger] tail[i]) || (tail[i] == 's' && i + 1
            < tail.len() && is_digit(tail[i + 1]))) {
        assert forall|i: int| end <= i < whole.len() implies #[trigger] is_slice_char(whole, i) by {
            assert(whole[i] == tail[i - end]);
            if i + 1 < whole.len() {
                assert(whole[i + 1] == tail[i - end + 1]);
            }
        }
    }
    if id.len() >= 4 {
        if id.len() < 5 || !is_digit(id[4]) {
            assert(digits_end(id, 4) == 4);
        }
    }
}

/// What the error of a failed run says of the program that was run.
pub proof fn law_format_failure(query: DriveQuery)
    ensures
        query is Linux ==> format_failure(query) == "mkfs.fat failed: "@,
        query is MacOs ==> format_failure(query) == "diskutil eraseDisk failed: "@,
        query is Windows ==> format_failure(query) == "format failed: "@,
{
}

/// A command runs a program with all its arguments, in their order.
pub proof fn law_runs(command: ShellCommand, program: Seq<char>, args: Seq<Seq<char>>, i: int)
    requires
        runs(command, program, args),
    ensures
        command.program@ == program,
        command.args@.len() == args.len(),
        0 <= i < args.len() ==> command.args@[i]@ == args[i],
{
    assert(texts(command.args@).len() == command.args@.len());
    if 0 <= i < args.len() {
        assert(texts(command.args@)[i] == command.args@[i]@);
    }
}

} // verus!
