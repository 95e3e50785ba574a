//! How contiguous files are on a device: how many extents each is made of.

use crate::filesystem::{FsError, FsErrorView};
use crate::text::{has_prefix, starts_with, to_chars};
use vstd::prelude::*;
use vstd::string::StringExecFns;

verus! {

/// How contiguous a file is.
#[derive(Debug, Clone)]
pub struct ContiguityResult {
    pub file: String,
    /// Whether the file is in one piece.
    pub contiguous: bool,
    pub extents: u32,
    pub size: u64,
}

/// What a [`ContiguityResult`] holds.
#[verifier::ext_equal]
pub struct ContiguityView {
    pub file: Seq<char>,
    pub contiguous: bool,
    pub extents: u32,
    pub size: u64,
}

impl View for ContiguityResult {
    type V = ContiguityView;

    open spec fn view(&self) -> ContiguityView {
        ContiguityView {
            file: self.file@,
            contiguous: self.contiguous,
            extents: self.extents,
            size: self.size,
        }
    }
}

/// What some results hold.
pub open spec fn contiguity_views(results: Seq<ContiguityResult>) -> Seq<ContiguityView> {
    Seq::new(results.len(), |i: int| results[i]@)
}

impl FsError {
    /// An error that holds the same.
    pub fn duplicate(&self) -> (e: FsError)
        ensures
            e@ == self@,
    {
        match self {
            FsError::Io(s) => FsError::Io(s.clone()),
            FsError::UnsupportedOs => FsError::UnsupportedOs,
            FsError::NoDevices => FsError::NoDevices,
            FsError::DetectionFailed(s) => FsError::DetectionFailed(s.clone()),
        }
    }
}

// ---------------------------------------------------------------- files and directories

/// Whether a number of extents is one that a count gives: a file has at least one.
pub open spec fn is_count(extents: Result<u32, FsError>) -> bool {
    extents matches Ok(n) ==> n >= 1
}

/// How contiguous a file is, by its size and the number of its extents. An empty file is in one
/// piece, however many extents are counted.
pub open spec fn contiguity(
    name: Seq<char>,
    size: Result<u64, String>,
    extents: Result<u32, FsError>,
) -> Result<ContiguityView, FsErrorView> {
    match size {
        Err(e) => Err(FsErrorView::Io(e@)),
        Ok(n) => if n == 0 {
            Ok(ContiguityView { file: name, contiguous: true, extents: 1, size: n })
        } else {
            match extents {
                Ok(k) => Ok(
                    ContiguityView { file: name, contiguous: k == 1, extents: k, size: n },
                ),
                Err(e) => Err(e@),
            }
        },
    }
}

/// The outcome of checking a file.
pub open spec fn check_view(r: Result<ContiguityResult, FsError>) -> Result<
    ContiguityView,
    FsErrorView,
> {
    match r {
        Ok(c) => Ok(c@),
        Err(e) => Err(e@),
    }
}

/// How contiguous a file is. `size` is its size, or why that cannot be found out; `extents` the
/// number of its extents, which is not looked at where the file is empty.
pub fn check_file_contiguity(
    name: &str,
    size: &Result<u64, String>,
    extents: &Result<u32, FsError>,
) -> (r: Result<ContiguityResult, FsError>)
    requires
        is_count(*extents),
    ensures
        check_view(r) == contiguity(name@, *size, *extents),
        r matches Ok(c) ==> c.extents >= 1 && c.contiguous == (c.extents == 1),
{
    match size {
        Err(e) => Err(FsError::Io(e.clone())),
        Ok(n) => {
            if *n == 0 {
                return Ok(
                    ContiguityResult {
                        file: name.to_owned(),
                        contiguous: true,
                        extents: 1,
                        size: *n,
                    },
                );
            }
            match extents {
                Ok(k) => Ok(
                    ContiguityResult {
                        file: name.to_owned(),
                        contiguous: *k == 1,
                        extents: *k,
                        size: *n,
                    },
                ),
                Err(e) => Err(e.duplicate()),
            }
        },
    }
}

/// An entry of a directory.
pub enum EntryProbe {
    /// It could not be read, for this reason.
    Unreadable(String),
    /// What is known of it.
    Entry {
        name: String,
        is_file: bool,
        size: Result<u64, String>,
        extents: Result<u32, FsError>,
    },
}

impl EntryProbe {
    /// Its extents are those that a count gives.
    pub open spec fn wf(self) -> bool {
        self matches EntryProbe::Entry { extents, .. } ==> is_count(extents)
    }
}

/// Whether an entry of a directory is looked at: a file whose name begins with `pattern`.
pub open spec fn examined(name: Seq<char>, is_file: bool, pattern: Seq<char>) -> bool {
    is_file && starts_with(name, pattern)
}

/// Whether an entry of a directory is looked at.
pub fn is_examined(name: &str, is_file: bool, pattern: &str) -> (b: bool)
    ensures
        b == examined(name@, is_file, pattern@),
{
    is_file && has_prefix(to_chars(name).as_slice(), pattern)
}

/// How contiguous the files of a directory are whose names begin with `pattern`, up to the first
/// error.
pub open spec fn dir_contiguity(entries: Seq<EntryProbe>, pattern: Seq<char>) -> Result<
    Seq<ContiguityView>,
    FsErrorView,
>
    decreases entries.len(),
{
    if entries.len() == 0 {
        Ok(seq![])
    } else {
        match dir_contiguity(entries.drop_last(), pattern) {
            Err(e) => Err(e),
            Ok(before) => match entries.last() {
                EntryProbe::Unreadable(e) => Err(FsErrorView::Io(e@)),
                EntryProbe::Entry { name, is_file, size, extents } => if examined(
                    name@,
                    is_file,
                    pattern,
                ) {
                    match contiguity(name@, size, extents) {
                        Ok(c) => Ok(before.push(c)),
                        Err(e) => Err(e),
                    }
                } else {
                    Ok(before)
                },
            },
        }
    }
}

/// An error stops the check.
proof fn lemma_error_stays(entries: Seq<EntryProbe>, pattern: Seq<char>, k: int)
    requires
        0 <= k <= entries.len(),
        dir_contiguity(entries.take(k), pattern) is Err,
    ensures
        dir_contiguity(entries, pattern) == dir_contiguity(entries.take(k), pattern),
    decreases entries.len() - k,
{
    if k == entries.len() {
        assert(entries.take(k) =~= entries);
    } else {
        assert(entries.take(k + 1).drop_last() =~= entries.take(k));
        lemma_error_stays(entries, pattern, k + 1);
    }
}

/// How contiguous the files of a directory are whose names begin with `pattern`.
pub fn check_dir_contiguity(entries: &[EntryProbe], pattern: &str) -> (r: Result<
    Vec<ContiguityResult>,
    FsError,
>)
    requires
        forall|i: int| 0 <= i < entries@.len() ==> (#[trigger] entries@[i]).wf(),
    ensures
        dir_contiguity(entries@, pattern@) == (match r {
            Ok(results) => Ok(contiguity_views(results@)),
            Err(e) => Err(e@),
        }),
        r matches Ok(results) ==> forall|i: int|
            0 <= i < results@.len() ==> (#[trigger] results@[i]).extents >= 1,
{
    let mut results: Vec<ContiguityResult> = Vec::new();
    let mut i: usize = 0;
    assert(contiguity_views(results@) =~= seq![]);
    while i < entries.len()
        invariant
            i <= entries.len(),
            forall|k: int| 0 <= k < entries@.len() ==> (#[trigger] entries@[k]).wf(),
            forall|k: int| 0 <= k < results@.len() ==> (#[trigger] results@[k]).extents >= 1,
            dir_contiguity(entries@.take(i as int), pattern@) == Ok::<_, FsErrorView>(
                contiguity_views(results@),
            ),
        decreases entries.len() - i,
    {
        let ghost next = entries@.take(i + 1);
        assert(next.drop_last() =~= entries@.take(i as int));
        assert(next.last() == entries@[i as int]);
        assert(entries@[i as int].wf());
        match &entries[i] {
            EntryProbe::Unreadable(e) => {
                proof {
                    lemma_error_stays(entries@, pattern@, i + 1);
                }
                return Err(FsError::Io(e.clone()));
            },
            EntryProbe::Entry { name, is_file, size, extents } => {
                if is_examined(name.as_str(), *is_file, pattern) {
                    match check_file_contiguity(name.as_str(), size, extents) {
                        Ok(c) => {
                            let ghost before = contiguity_views(results@);
                            results.push(c);
                            assert(contiguity_views(results@) =~= before.push(c@));
                        },
                        Err(e) => {
                            proof {
                                assert(dir_contiguity(next, pattern@) == Err::<
                                    Seq<ContiguityView>,
                                    FsErrorView,
                                >(e@));
                                lemma_error_stays(entries@, pattern@, i + 1);
                            }
                            return Err(e);
                        },
                    }
                }
            },
        }
        i += 1;
    }
    assert(entries@.take(i as int) =~= entries@);
    Ok(results)
}

// ---------------------------------------------------------------- counting on Linux

/// What the kernel tells of the extents from some offset on.
#[derive(Debug, Clone, Copy)]
pub struct ExtentReply {
    /// How many extents it has mapped: at most one is asked for.
    pub mapped: u32,
    /// Where the extent begins in the file.
    pub logical: u64,
    pub length: u64,
}

/// Extents being counted.
#[derive(Debug, Clone, Copy)]
pub struct ExtentScan {
    /// The size of the file.
    pub size: u64,
    /// The offset up to which extents are counted.
    pub offset: u64,
    /// The extents counted so far.
    pub extents: u32,
}

/// What the first look at a file tells.
#[derive(Debug, Clone, Copy)]
pub enum FirstLook {
    /// The number of extents.
    Known(u32),
    /// They have to be counted.
    Scan,
}

/// What the first reply for a file of this size tells: two where the file system does not answer,
/// one where one extent covers the file.
pub open spec fn first_look(size: u64, reply: Option<ExtentReply>) -> FirstLook {
    match reply {
        None => FirstLook::Known(2),
        Some(r) => if r.mapped == 1 && r.length >= size {
            FirstLook::Known(1)
        } else {
            FirstLook::Scan
        },
    }
}

/// What the first reply for a file of this size tells.
pub fn look_first(size: u64, reply: Option<ExtentReply>) -> (look: FirstLook)
    ensures
        look == first_look(size, reply),
        look matches FirstLook::Known(n) ==> n >= 1,
{
    match reply {
        None => FirstLook::Known(2),
        Some(r) => if r.mapped == 1 && r.length >= size {
            FirstLook::Known(1)
        } else {
            FirstLook::Scan
        },
    }
}

/// The scan after a reply; nothing where the reply ends it.
pub open spec fn scan_step(scan: ExtentScan, reply: Option<ExtentReply>) -> Option<ExtentScan> {
    match reply {
        None => None,
        Some(r) => if r.mapped == 0 {
            None
        } else {
            Some(
                ExtentScan {
                    extents: (scan.extents + 1) as u32,
                    offset: (r.logical + r.length) as u64,
                    ..scan
                },
            )
        },
    }
}

impl ExtentScan {
    /// A scan from the start of a file.
    pub fn start(size: u64) -> (scan: ExtentScan)
        ensures
            scan == (ExtentScan { size, offset: 0, extents: 0 }),
    {
        ExtentScan { size, offset: 0, extents: 0 }
    }

    /// Where to ask next, and for how many bytes; nothing at the end of the file.
    pub fn next_query(&self) -> (query: Option<(u64, u64)>)
        ensures
            query == (if self.offset < self.size {
                Some((self.offset, (self.size - self.offset) as u64))
            } else {
                None
            }),
    {
        if self.offset < self.size {
            Some((self.offset, self.size - self.offset))
        } else {
            None
        }
    }

    /// Takes in a reply, and says whether the scan goes on.
    pub fn take(&mut self, reply: Option<ExtentReply>) -> (more: bool)
        requires
            old(self).extents < u32::MAX,
            reply matches Some(r) ==> r.mapped == 0 || r.logical + r.length <= u64::MAX,
        ensures
            match scan_step(*old(self), reply) {
                Some(next) => more && *final(self) == next,
                None => !more && *final(self) == *old(self),
            },
    {
        match reply {
            None => false,
            Some(r) => {
                if r.mapped == 0 {
                    return false;
                }
                self.extents = self.extents + 1;
                self.offset = r.logical + r.length;
                true
            },
        }
    }

    /// The number of extents: at least one.
    pub fn extent_count(&self) -> (n: u32)
        ensures
            n == (if self.extents == 0 {
                1
            } else {
                self.extents
            }),
            n >= 1,
    {
        if self.extents == 0 {
            1
        } else {
            self.extents
        }
    }
}

// ---------------------------------------------------------------- counting on macOS

/// The step of the scan where a reply covers less.
pub const SCAN_BLOCK: i64 = 4096;

/// Extents being counted by the device offsets of contiguous runs.
#[derive(Debug, Clone, Copy)]
pub struct RunScan {
    /// The size of the file.
    pub size: u64,
    /// The offset up to which extents are counted.
    pub offset: u64,
    /// The extents counted so far.
    pub extents: u32,
    /// Where the last run ends on the device.
    pub last_end: Option<i64>,
}

/// Whether the first run, of so many bytes, covers a file of this size.
pub fn run_covers(size: u64, contiguous: i64) -> (b: bool)
    ensures
        b == (contiguous as u64 >= size),
{
    #[verifier::truncate] (contiguous as u64) >= size
}

/// The scan after a run of `contiguous` bytes at `device` on the device.
pub open spec fn run_step(scan: RunScan, device: i64, contiguous: i64) -> RunScan {
    RunScan {
        size: scan.size,
        offset: (scan.offset + if contiguous > SCAN_BLOCK {
            contiguous
        } else {
            SCAN_BLOCK
        }) as u64,
        extents: if scan.last_end == Some(device) {
            scan.extents
        } else {
            (scan.extents + 1) as u32
        },
        last_end: Some((device + contiguous) as i64),
    }
}

impl RunScan {
    /// A scan from the start of a file.
    pub fn start(size: u64) -> (scan: RunScan)
        ensures
            scan == (RunScan { size, offset: 0, extents: 0, last_end: None }),
    {
        RunScan { size, offset: 0, extents: 0, last_end: None }
    }

    /// Whether there is more of the file to look at.
    pub fn goes_on(&self) -> (b: bool)
        ensures
            b == (self.offset < self.size),
    {
        self.offset < self.size
    }

    /// Takes in a run: it is a new extent unless it goes on where the last one ended.
    pub fn take(&mut self, device: i64, contiguous: i64)
        requires
            old(self).extents < u32::MAX,
            i64::MIN <= device + contiguous <= i64::MAX,
            old(self).offset + (if contiguous > SCAN_BLOCK {
                contiguous
            } else {
                SCAN_BLOCK
            }) <= u64::MAX,
        ensures
            *final(self) == run_step(*old(self), device, contiguous),
    {
        let goes_on = match self.last_end {
            Some(end) => end == device,
            None => false,
        };
        if !goes_on {
            self.extents = self.extents + 1;
        }
        self.last_end = Some(device + contiguous);
        let step: i64 = if contiguous > SCAN_BLOCK {
            contiguous
        } else {
            SCAN_BLOCK
        };
        self.offset = self.offset + step as u64;
    }

    /// The number of extents: at least one.
    pub fn extent_count(&self) -> (n: u32)
        ensures
            n == (if self.extents == 0 {
                1
            } else {
                self.extents
            }),
            n >= 1,
    {
        if self.extents == 0 {
            1
        } else {
            self.extents
        }
    }
}

// ---------------------------------------------------------------- counting on Windows

/// The error code for more data than the buffer holds: the number of extents is there.
pub const ERROR_MORE_DATA: i32 = 234;

/// The error code for too small a buffer, which a file without extents gives.
pub const ERROR_INSUFFICIENT_BUFFER: i32 = 122;

/// The number of extents, by the count that Windows gives and the code and text of the error
/// where there was one.
pub fn windows_extents(count: u32, failure: Option<(i32, String)>) -> (r: Result<u32, FsError>)
    ensures
        match failure {
            Some(f) if f.0 != ERROR_MORE_DATA && f.0 != ERROR_INSUFFICIENT_BUFFER => r matches Err(
                e,
            ) && e@ == FsErrorView::DetectionFailed("FSCTL_GET_RETRIEVAL_POINTERS failed: "@ + f.1@),
            _ => r matches Ok(n) && n == (if count == 0 {
                1
            } else {
                count
            }),
        },
        is_count(r),
{
    if let Some((code, text)) = failure {
        if code != ERROR_MORE_DATA && code != ERROR_INSUFFICIENT_BUFFER {
            return Err(
                FsError::DetectionFailed(
                    "FSCTL_GET_RETRIEVAL_POINTERS failed: ".to_owned().concat(text.as_str()),
                ),
            );
        }
    }
    if count == 0 {
        Ok(1)
    } else {
        Ok(count)
    }
}

// ---------------------------------------------------------------- laws

/// A file is called contiguous exactly where it is made of one extent.
pub proof fn law_contiguous_is_one_extent(
    name: Seq<char>,
    size: Result<u64, String>,
    extents: Result<u32, FsError>,
)
    ensures
        contiguity(name, size, extents) matches Ok(c) ==> c.contiguous == (c.extents == 1)
            && c.file == name,
{
}

/// A run that goes on where the last one ended is no new extent.
pub proof fn law_adjacent_runs_are_one_extent(scan: RunScan, device: i64, a: i64, b: i64)
    requires
        scan.last_end != Some(device),
        i64::MIN <= device + a <= i64::MAX,
        scan.extents < u32::MAX,
    ensures
        run_step(run_step(scan, device, a), (device + a) as i64, b).extents == scan.extents + 1,
{
}

/// What is known of a file: an empty one is in one piece, any other in as many as were counted; an
/// error is handed on, that of the size first.
pub proof fn law_contiguity(name: Seq<char>, size: u64, extents: Result<u32, FsError>, e: String)
    ensures
        contiguity(name, Ok(0), extents) == Ok::<ContiguityView, FsErrorView>(
            (ContiguityView { file: name, contiguous: true, extents: 1, size: 0 }),
        ),
        size > 0 && extents is Ok ==> contiguity(name, Ok(size), extents) == Ok::<
            ContiguityView,
            FsErrorView,
        >(
            (ContiguityView {
                file: name,
                contiguous: extents->Ok_0 == 1,
                extents: extents->Ok_0,
                size,
            }),
        ),
        size > 0 && extents is Err ==> contiguity(name, Ok(size), extents) == Err::<
            ContiguityView,
            FsErrorView,
        >(extents->Err_0@),
        contiguity(name, Err(e), extents) == Err::<ContiguityView, FsErrorView>(
            FsErrorView::Io(e@),
        ),
{
}

/// The files of a directory are checked in the order of its entries, each of them, until one
/// cannot be.
pub proof fn law_dir_contiguity(a: Seq<EntryProbe>, b: Seq<EntryProbe>, pattern: Seq<char>)
    ensures
        dir_contiguity(a, pattern) is Err ==> dir_contiguity(a + b, pattern) == dir_contiguity(
            a,
            pattern,
        ),
        dir_contiguity(a, pattern) is Ok && dir_contiguity(b, pattern) is Err ==> dir_contiguity(
            a + b,
            pattern,
        ) == dir_contiguity(b, pattern),
        dir_contiguity(a, pattern) is Ok && dir_contiguity(b, pattern) is Ok ==> dir_contiguity(
            a + b,
            pattern,
        ) == Ok::<Seq<ContiguityView>, FsErrorView>(
            dir_contiguity(a, pattern)->Ok_0 + dir_contiguity(b, pattern)->Ok_0,
        ),
        dir_contiguity(Seq::empty(), pattern) == Ok::<Seq<ContiguityView>, FsErrorView>(
            Seq::empty(),
        ),
    decreases b.len(),
{
    if b.len() == 0 {
        assert(a + b =~= a);
        if dir_contiguity(a, pattern) is Ok {
            let found = dir_contiguity(a, pattern)->Ok_0;
            assert(found + Seq::<ContiguityView>::empty() =~= found);
        }
    } else {
        assert((a + b).drop_last() =~= a + b.drop_last());
        assert((a + b).last() == b.last());
        law_dir_contiguity(a, b.drop_last(), pattern);
        if dir_contiguity(a, pattern) is Ok && dir_contiguity(b, pattern) is Ok {
            let (x, y) = (dir_contiguity(a, pattern)->Ok_0, dir_contiguity(b, pattern)->Ok_0);
            let before = dir_contiguity(b.drop_last(), pattern)->Ok_0;
            assert(dir_contiguity(a + b, pattern)->Ok_0 =~= x + y);
        }
    }
}

/// What one entry of a directory gives: a file whose name begins as asked is checked, anything
/// else is passed over, and one that cannot be read is an error.
pub proof fn law_dir_entry(entry: EntryProbe, pattern: Seq<char>)
    ensures
        match entry {
            EntryProbe::Unreadable(e) => dir_contiguity(seq![entry], pattern) == Err::<
                Seq<ContiguityView>,
                FsErrorView,
            >(FsErrorView::Io(e@)),
            EntryProbe::Entry { name, is_file, size, extents } => {
                &&& !is_file || !starts_with(name@, pattern) ==> dir_contiguity(
                    seq![entry],
                    pattern,
                ) == Ok::<Seq<ContiguityView>, FsErrorView>(Seq::empty())
                &&& is_file && starts_with(name@, pattern) && contiguity(name@, size, extents) is Ok
                    ==> dir_contiguity(seq![entry], pattern) == Ok::<
                    Seq<ContiguityView>,
                    FsErrorView,
                >(seq![contiguity(name@, size, extents)->Ok_0])
                &&& is_file && starts_with(name@, pattern) && contiguity(
                    name@,
                    size,
                    extents,
                ) is Err ==> dir_contiguity(seq![entry], pattern) == Err::<
                    Seq<ContiguityView>,
                    FsErrorView,
                >(contiguity(name@, size, extents)->Err_0)
            },
        },
{
    reveal_with_fuel(dir_contiguity, 2);
    let none = Seq::<EntryProbe>::empty();
    assert(seq![entry].drop_last() =~= none && seq![entry].last() == entry);
    assert(dir_contiguity(none, pattern) == Ok::<Seq<ContiguityView>, FsErrorView>(Seq::empty()));
}

/// The first look is enough where the file system does not answer, which counts as two extents,
/// and where one extent covers the file.
pub proof fn law_first_look(size: u64, reply: ExtentReply)
    ensures
        first_look(size, None) == FirstLook::Known(2),
        reply.mapped == 1 && reply.length >= size ==> first_look(size, Some(reply))
            == FirstLook::Known(1),
        reply.mapped != 1 || reply.length < size ==> first_look(size, Some(reply)) is Scan,
{
}

/// Each extent that is mapped counts as one more, and the scan goes on behind it; without one the
/// scan ends.
pub proof fn law_scan_step(scan: ExtentScan, reply: ExtentReply)
    requires
        scan.extents < u32::MAX,
        reply.logical + reply.length <= u64::MAX,
    ensures
        scan_step(scan, None) is None,
        reply.mapped == 0 ==> scan_step(scan, Some(reply)) is None,
        reply.mapped > 0 ==> (scan_step(scan, Some(reply)) matches Some(next) && next.extents
            == scan.extents + 1 && next.offset == reply.logical + reply.length && next.size
            == scan.size),
{
}

/// A run that begins elsewhere than the last one ended is a new extent; the scan goes on behind
/// it, by 4096 bytes at least.
pub proof fn law_run_step(scan: RunScan, device: i64, contiguous: i64)
    requires
        scan.extents < u32::MAX,
        scan.offset + 4096 <= u64::MAX,
        scan.offset + contiguous <= u64::MAX,
        i64::MIN <= device + contiguous <= i64::MAX,
    ensures
        scan.last_end == Some(device) ==> run_step(scan, device, contiguous).extents
            == scan.extents,
        scan.last_end != Some(device) ==> run_step(scan, device, contiguous).extents
            == scan.extents + 1,
        contiguous > 4096 ==> run_step(scan, device, contiguous).offset == scan.offset + contiguous,
        contiguous <= 4096 ==> run_step(scan, device, contiguous).offset == scan.offset + 4096,
        run_step(scan, device, contiguous).last_end == Some((device + contiguous) as i64),
        run_step(scan, device, contiguous).size == scan.size,
{
}

/// The model of a [`ContiguityResult`] has all that it holds, and that of a list has every item at
/// its place.
pub proof fn law_model_of_contiguity_result(
    result: ContiguityResult,
    list: Seq<ContiguityResult>,
    i: int,
)
    ensures
        result@.file == result.file@,
        result@.contiguous == result.contiguous,
        result@.extents == result.extents,
        result@.size == result.size,
        contiguity_views(list).len() == list.len(),
        0 <= i < list.len() ==> contiguity_views(list)[i] == list[i]@,
{
}

/// The outcome of a check is the result, or the error.
pub proof fn law_check_view(result: ContiguityResult, e: FsError)
    ensures
        check_view(Ok(result)) == Ok::<ContiguityView, FsErrorView>(result@),
        check_view(Err(e)) == Err::<ContiguityView, FsErrorView>(e@),
{
}

} // verus!
