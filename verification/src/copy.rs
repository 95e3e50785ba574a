//! Copying the files of a backup folder to a device: which comes next, what became of each, and
//! how far the copy is.

use crate::order::{arranged, is_sort_order, lemma_sort_is_permutation};
use crate::restore::{
    collect_source_files,
    file_count,
    folder_files,
    is_largest_first,
    law_files_are_counted,
    law_no_file_missed,
    law_scan_keeps_files,
    law_scan_keeps_size,
    size_keys,
    sort_files,
    source_views,
    sum_sizes,
    total_size,
    FolderEntry,
    SourceFile,
    SourceView,
};
use crate::text::texts;
use vstd::prelude::*;
use vstd::string::StringExecFns;

verus! {

// ---------------------------------------------------------------- all files

/// What copying a folder came to.
#[derive(Debug)]
pub struct CopyFolderResult {
    pub copied: usize,
    /// How many files were there already.
    pub skipped: usize,
    pub total_bytes: u64,
    pub errors: Vec<String>,
}

/// What became of a file.
#[derive(Debug)]
pub enum FileEvent {
    /// Its directory could not be made, for this reason.
    NoDirectory(String),
    /// It was there already.
    AlreadyThere,
    /// So many bytes of it were copied.
    Copied(u64),
    /// It could not be copied: this is the error.
    Failed(String),
}

/// Whether a file is left as it is: there is one of the same size at its place. `there` is the
/// size of the file at its place where there is one, or zero where that cannot be found out.
pub fn is_already_there(file: &SourceFile, there: Option<u64>) -> (b: bool)
    ensures
        b == (there == Some(file.size)),
{
    match there {
        Some(n) => n == file.size,
        None => false,
    }
}

/// A folder being copied.
pub struct CopyRun {
    files: Vec<SourceFile>,
    total_bytes: u64,
    done: usize,
    bytes_done: u64,
    copied: usize,
    skipped: usize,
    errors: Vec<String>,
}

/// What a [`CopyRun`] holds.
#[verifier::ext_equal]
pub struct CopyView {
    /// All files, in the order in which they are copied.
    pub files: Seq<SourceView>,
    pub total_bytes: u64,
    /// How many files are done.
    pub done: nat,
    /// The bytes that count as done.
    pub bytes_done: u64,
    pub copied: nat,
    pub skipped: nat,
    pub errors: Seq<Seq<char>>,
}

impl CopyView {
    /// Every file that is done was copied, was there, or has an error.
    pub open spec fn wf(self) -> bool {
        &&& self.done <= self.files.len()
        &&& self.copied + self.skipped + self.errors.len() == self.done
        &&& self.total_bytes == total_size(self.files)
    }
}

impl View for CopyRun {
    type V = CopyView;

    closed spec fn view(&self) -> CopyView {
        CopyView {
            files: source_views(self.files@),
            total_bytes: self.total_bytes,
            done: self.done as nat,
            bytes_done: self.bytes_done,
            copied: self.copied as nat,
            skipped: self.skipped as nat,
            errors: texts(self.errors@),
        }
    }
}

/// How many bytes an event counts for: those copied, or else the size of the file.
pub open spec fn bytes_of(event: FileEvent, file: SourceView) -> u64 {
    match event {
        FileEvent::Copied(n) => n,
        _ => file.size,
    }
}

/// The run after an event for the next file.
pub open spec fn after_file(run: CopyView, event: FileEvent) -> CopyView {
    let file = run.files[run.done as int];
    let next = CopyView {
        done: run.done + 1,
        bytes_done: (run.bytes_done + bytes_of(event, file)) as u64,
        ..run
    };
    match event {
        FileEvent::NoDirectory(e) => CopyView {
            errors: run.errors.push("Cannot create "@ + file.subdir->0 + "/: "@ + e@),
            ..next
        },
        FileEvent::AlreadyThere => CopyView { skipped: run.skipped + 1, ..next },
        FileEvent::Copied(_) => CopyView { copied: run.copied + 1, ..next },
        FileEvent::Failed(e) => CopyView { errors: run.errors.push(e@), ..next },
    }
}

/// Begins to copy a backup folder, the largest files first.
pub fn copy_folder_ordered(entries: &[FolderEntry]) -> (run: CopyRun)
    requires
        total_size(folder_files(entries@)) <= u64::MAX,
    ensures
        run@.wf(),
        is_largest_first(folder_files(entries@), run@.files),
        run@ == (CopyView {
            files: run@.files,
            total_bytes: total_size(folder_files(entries@)) as u64,
            done: 0,
            bytes_done: 0,
            copied: 0,
            skipped: 0,
            errors: Seq::empty(),
        }),
{
    let (files, _found, _skipped) = collect_source_files(entries);
    let total_bytes: u64 = sum_sizes(files.as_slice());
    let sorted = sort_files(files.as_slice());
    proof {
        law_scan_keeps_size(source_views(files@), source_views(sorted@));
    }
    let run = CopyRun {
        files: sorted,
        total_bytes,
        done: 0,
        bytes_done: 0,
        copied: 0,
        skipped: 0,
        errors: Vec::new(),
    };
    assert(run@.errors =~= Seq::empty());
    run
}

impl CopyRun {
    /// The next file; nothing once all are done.
    pub fn next_file(&self) -> (file: Option<SourceFile>)
        requires
            self@.wf(),
        ensures
            match file {
                Some(f) => self@.done < self@.files.len() && f@ == self@.files[self@.done as int],
                None => self@.done == self@.files.len(),
            },
    {
        if self.done < self.files.len() {
            Some(self.files[self.done].duplicate())
        } else {
            None
        }
    }

    /// The place of the next file, counted from one; how many files there are; the bytes that
    /// count as done; and the bytes of all files.
    pub fn progress_base(&self) -> (base: (usize, usize, u64, u64))
        requires
            self@.wf(),
            self@.done < self@.files.len(),
        ensures
            base.0 == self@.done + 1,
            base.1 == self@.files.len(),
            base.2 == self@.bytes_done,
            base.3 == self@.total_bytes,
    {
        assert(self.done < self.files.len());
        (self.done + 1, self.files.len(), self.bytes_done, self.total_bytes)
    }

    /// Takes in what became of the next file.
    pub fn file_done(&mut self, event: FileEvent)
        requires
            old(self)@.wf(),
            old(self)@.done < old(self)@.files.len(),
            event is NoDirectory ==> old(self)@.files[old(self)@.done as int].subdir is Some,
            old(self)@.bytes_done + bytes_of(event, old(self)@.files[old(self)@.done as int])
                <= u64::MAX,
        ensures
            final(self)@.wf(),
            final(self)@ == after_file(old(self)@, event),
    {
        let ghost before = self@;
        assert(self.done < self.files.len());
        let k: usize = self.done;
        let size: u64 = self.files[k].size;
        assert(self@.files[k as int] == self.files@[k as int]@);
        match event {
            FileEvent::NoDirectory(e) => {
                if let Some(sub) = &self.files[k].subdir {
                    let text = "Cannot create ".to_owned().concat(sub.as_str()).concat(
                        "/: ",
                    ).concat(e.as_str());
                    self.errors.push(text);
                    assert(texts(self.errors@) =~= before.errors.push(text@));
                }
                self.bytes_done = self.bytes_done + size;
            },
            FileEvent::AlreadyThere => {
                self.skipped = self.skipped + 1;
                self.bytes_done = self.bytes_done + size;
            },
            FileEvent::Copied(n) => {
                self.bytes_done = self.bytes_done + n;
                self.copied = self.copied + 1;
            },
            FileEvent::Failed(e) => {
                self.errors.push(e);
                assert(texts(self.errors@) =~= before.errors.push(e@));
                self.bytes_done = self.bytes_done + size;
            },
        }
        self.done = k + 1;
        assert(self@ =~= after_file(before, event));
    }

    /// The outcome once all files are done.
    pub fn finish(self) -> (result: CopyFolderResult)
        requires
            self@.wf(),
            self@.done == self@.files.len(),
        ensures
            result.copied == self@.copied,
            result.skipped == self@.skipped,
            result.total_bytes == self@.total_bytes,
            texts(result.errors@) == self@.errors,
    {
        CopyFolderResult {
            copied: self.copied,
            skipped: self.skipped,
            total_bytes: self.total_bytes,
            errors: self.errors,
        }
    }
}

// ---------------------------------------------------------------- one file

/// How far copying a folder is.
#[derive(Debug, Clone)]
pub struct CopyFolderProgress {
    pub file: String,
    /// The place of the file, counted from one.
    pub file_index: usize,
    pub total_files: usize,
    pub file_pct: u8,
    pub total_pct: u8,
}

/// What a [`CopyFolderProgress`] holds.
#[verifier::ext_equal]
pub struct CopyProgressView {
    pub file: Seq<char>,
    pub file_index: usize,
    pub total_files: usize,
    pub file_pct: u8,
    pub total_pct: u8,
}

impl View for CopyFolderProgress {
    type V = CopyProgressView;

    open spec fn view(&self) -> CopyProgressView {
        CopyProgressView {
            file: self.file@,
            file_index: self.file_index,
            total_files: self.total_files,
            file_pct: self.file_pct,
            total_pct: self.total_pct,
        }
    }
}

/// A file being copied.
pub struct CopyStream {
    /// The name of the file.
    pub name: String,
    /// Its size.
    pub size: u64,
    /// Its place, counted from one.
    pub index: usize,
    /// How many files there are.
    pub total_files: usize,
    /// The bytes done before this file.
    pub bytes_before: u64,
    /// The bytes of all files.
    pub total_bytes: u64,
    /// The bytes of this file that are done.
    pub written: u64,
    /// The percentage that was told last.
    pub last_pct: u8,
}

/// How many hundredths of the whole are done: at most a hundred, and that of nothing.
pub open spec fn percent(done: int, whole: u64) -> u8 {
    if whole > 0 {
        let p = done * 100 / whole as int;
        if p < 100 {
            p as u8
        } else {
            100
        }
    } else {
        100
    }
}

/// How many hundredths of the whole are done.
fn percent_of(done: u64, whole: u64) -> (pct: u8)
    requires
        whole > 0 ==> done * 100 <= u64::MAX,
    ensures
        pct == percent(done as int, whole),
{
    if whole > 0 {
        let p: u64 = done * 100 / whole;
        if p < 100 {
            p as u8
        } else {
            100
        }
    } else {
        100
    }
}

impl CopyStream {
    /// A file of which nothing has been copied. `base` is what [`CopyRun::progress_base`] gives.
    pub fn start(file: &SourceFile, base: (usize, usize, u64, u64)) -> (stream: CopyStream)
        ensures
            stream.name@ == file@.name,
            stream.size == file@.size,
            stream.index == base.0,
            stream.total_files == base.1,
            stream.bytes_before == base.2,
            stream.total_bytes == base.3,
            stream.written == 0,
            stream.last_pct == 0,
    {
        CopyStream {
            name: file.name.clone(),
            size: file.size,
            index: base.0,
            total_files: base.1,
            bytes_before: base.2,
            total_bytes: base.3,
            written: 0,
            last_pct: 0,
        }
    }

    /// Whether the progress at the start of the file can be told: its percentage can be counted
    /// and fits eight bits.
    pub open spec fn can_start(self) -> bool {
        self.total_bytes > 0 ==> self.bytes_before * 100 <= u64::MAX && self.bytes_before * 100
            / self.total_bytes as int <= 255
    }

    /// Whether the progress at the start of the file can be told.
    pub fn has_start(&self) -> (b: bool)
        ensures
            b == self.can_start(),
    {
        self.total_bytes == 0 || (self.bytes_before <= 184_467_440_737_095_516
            && self.bytes_before * 100 / self.total_bytes <= 255)
    }

    /// The progress at the start of the file.
    pub fn starting(&self) -> (p: CopyFolderProgress)
        requires
            self.can_start(),
        ensures
            p@ == (CopyProgressView {
                file: self.name@,
                file_index: self.index,
                total_files: self.total_files,
                file_pct: 0,
                total_pct: if self.total_bytes > 0 {
                    (self.bytes_before * 100 / self.total_bytes as int) as u8
                } else {
                    0
                },
            }),
    {
        let total_pct: u8 = if self.total_bytes > 0 {
            let p: u64 = self.bytes_before * 100 / self.total_bytes;
            p as u8
        } else {
            0
        };
        CopyFolderProgress {
            file: self.name.clone(),
            file_index: self.index,
            total_files: self.total_files,
            file_pct: 0,
            total_pct,
        }
    }

    /// Takes in a block of `n` bytes that has been copied. Gives the progress where the percentage
    /// of all files has grown, or the file is complete.
    pub fn block(&mut self, n: u64) -> (p: Option<CopyFolderProgress>)
        requires
            old(self).written + n <= u64::MAX,
            old(self).size > 0 ==> (old(self).written + n) * 100 <= u64::MAX,
            old(self).total_bytes > 0 ==> (old(self).bytes_before + old(self).written + n) * 100
                <= u64::MAX,
        ensures
            ({
                let file_pct = percent(old(self).written + n, old(self).size);
                let total_pct = percent(
                    old(self).bytes_before + old(self).written + n,
                    old(self).total_bytes,
                );
                let told = total_pct > old(self).last_pct || file_pct == 100;
                &&& match p {
                    Some(progress) => told && progress@ == (CopyProgressView {
                        file: old(self).name@,
                        file_index: old(self).index,
                        total_files: old(self).total_files,
                        file_pct,
                        total_pct,
                    }),
                    None => !told,
                }
                &&& *final(self) == (CopyStream {
                    written: (old(self).written + n) as u64,
                    last_pct: if told {
                        total_pct
                    } else {
                        old(self).last_pct
                    },
                    ..*old(self)
                })
            }),
    {
        self.written = self.written + n;
        let file_pct: u8 = percent_of(self.written, self.size);
        let total_pct: u8 = if self.total_bytes > 0 {
            percent_of(self.bytes_before + self.written, self.total_bytes)
        } else {
            100
        };
        if total_pct > self.last_pct || file_pct == 100 {
            self.last_pct = total_pct;
            Some(
                CopyFolderProgress {
                    file: self.name.clone(),
                    file_index: self.index,
                    total_files: self.total_files,
                    file_pct,
                    total_pct,
                },
            )
        } else {
            None
        }
    }
}

/// The stages of copying a file.
#[derive(Debug, Clone, Copy)]
pub enum CopyStage {
    Open,
    Create,
    Read,
    Write,
    Flush,
}

/// The error of a stage of copying a file.
pub fn copy_error(name: &str, stage: CopyStage, reason: &str) -> (m: String)
    ensures
        m@ == name@ + (match stage {
            CopyStage::Open => ": open failed: "@,
            CopyStage::Create => ": create dest failed: "@,
            CopyStage::Read => ": read failed: "@,
            CopyStage::Write => ": write failed: "@,
            CopyStage::Flush => ": flush failed: "@,
        }) + reason@,
{
    let what = match stage {
        CopyStage::Open => ": open failed: ",
        CopyStage::Create => ": create dest failed: ",
        CopyStage::Read => ": read failed: ",
        CopyStage::Write => ": write failed: ",
        CopyStage::Flush => ": flush failed: ",
    };
    name.to_owned().concat(what).concat(reason)
}

// ---------------------------------------------------------------- laws

/// Once all files are done, each was copied, was there already, or has an error.
pub proof fn law_every_file_is_accounted(run: CopyView)
    requires
        run.wf(),
        run.done == run.files.len(),
    ensures
        run.copied + run.skipped + run.errors.len() == run.files.len(),
{
}

/// As long as every file that is copied is copied whole, the bytes done are those of the files
/// done; so they reach the bytes of all files.
pub proof fn law_bytes_done(run: CopyView, event: FileEvent)
    requires
        run.wf(),
        run.done < run.files.len(),
        run.bytes_done == total_size(run.files.take(run.done as int)),
        bytes_of(event, run.files[run.done as int]) == run.files[run.done as int].size,
        run.bytes_done + run.files[run.done as int].size <= u64::MAX,
    ensures
        after_file(run, event).bytes_done == total_size(run.files.take(run.done as int + 1)),
        run.done + 1 == run.files.len() ==> after_file(run, event).bytes_done == run.total_bytes,
{
    let k = run.done as int;
    assert(run.files.take(k + 1).drop_last() =~= run.files.take(k));
    assert(run.files.take(k + 1).last() == run.files[k]);
    if k + 1 == run.files.len() {
        assert(run.files.take(k + 1) =~= run.files);
    }
}

/// The place of a file on the device: its directory and its name.
pub open spec fn place(file: SourceView) -> (Option<Seq<char>>, Seq<char>) {
    (file.subdir, file.name)
}

/// A device, as the sizes of the files at their places.
pub type DeviceFiles = Map<(Option<Seq<char>>, Seq<char>), u64>;

/// The size of the file at a place where there is one.
pub open spec fn size_at(device: DeviceFiles, at: (Option<Seq<char>>, Seq<char>)) -> Option<u64> {
    if device.dom().contains(at) {
        Some(device[at])
    } else {
        None
    }
}

/// Whether an event is what can become of a file on a device: it is left as it is exactly where
/// there is one of its size, as [`is_already_there`] says; otherwise its place gets what was
/// copied, or anything where copying failed; and no other place changes.
pub open spec fn can_become(
    before: DeviceFiles,
    file: SourceView,
    event: FileEvent,
    after: DeviceFiles,
) -> bool {
    &&& event is AlreadyThere <==> size_at(before, place(file)) == Some(file.size)
    &&& forall|at: (Option<Seq<char>>, Seq<char>)|
        at != place(file) ==> #[trigger] size_at(after, at) == size_at(before, at)
    &&& match event {
        FileEvent::Copied(n) => size_at(after, place(file)) == Some(n),
        FileEvent::Failed(_) => true,
        _ => size_at(after, place(file)) == size_at(before, place(file)),
    }
}

/// Whether a device goes through these states as these events come for the files in turn.
pub open spec fn copies_over(
    files: Seq<SourceView>,
    events: Seq<FileEvent>,
    devices: Seq<DeviceFiles>,
) -> bool {
    &&& events.len() == files.len()
    &&& devices.len() == files.len() + 1
    &&& forall|i: int|
        0 <= i < files.len() ==> can_become(
            devices[i],
            #[trigger] files[i],
            events[i],
            devices[i + 1],
        )
}

/// The run after some events.
pub open spec fn after_files(run: CopyView, events: Seq<FileEvent>) -> CopyView
    decreases events.len(),
{
    if events.len() == 0 {
        run
    } else {
        after_file(after_files(run, events.drop_last()), events.last())
    }
}

/// Whether nothing of a run is done yet.
pub open spec fn is_begun(run: CopyView) -> bool {
    run.done == 0 && run.copied == 0 && run.skipped == 0 && run.errors.len() == 0
}

/// Whether no two files have one place.
pub open spec fn placed_apart(files: Seq<SourceView>) -> bool {
    forall|i: int, j: int|
        0 <= i < j < files.len() ==> place(#[trigger] files[i]) != place(#[trigger] files[j])
}

/// A failed file does not stop the others: each event takes the run one file further.
pub proof fn law_every_file_has_its_turn(run: CopyView, events: Seq<FileEvent>)
    ensures
        after_files(run, events).done == run.done + events.len(),
        after_files(run, events).files == run.files,
    decreases events.len(),
{
    if events.len() > 0 {
        law_every_file_has_its_turn(run, events.drop_last());
    }
}

/// No error is forgotten, and in a run without errors every file was copied or was there.
proof fn lemma_errors(run: CopyView, events: Seq<FileEvent>)
    ensures
        after_files(run, events).errors.len() >= run.errors.len(),
        after_files(run, events).errors.len() == run.errors.len() ==> forall|i: int|
            0 <= i < events.len() ==> (#[trigger] events[i]) is Copied || events[i] is AlreadyThere,
    decreases events.len(),
{
    if events.len() > 0 {
        let rest = events.drop_last();
        lemma_errors(run, rest);
        if after_files(run, events).errors.len() == run.errors.len() {
            assert forall|i: int| 0 <= i < events.len() implies (#[trigger] events[i]) is Copied
                || events[i] is AlreadyThere by {
                if i < rest.len() {
                    assert(rest[i] == events[i]);
                }
            }
        }
    }
}

/// The files that were there are all counted as skipped.
proof fn lemma_all_skipped(run: CopyView, events: Seq<FileEvent>)
    requires
        forall|i: int| 0 <= i < events.len() ==> (#[trigger] events[i]) is AlreadyThere,
    ensures
        after_files(run, events).skipped == run.skipped + events.len(),
        after_files(run, events).copied == run.copied,
        after_files(run, events).errors == run.errors,
    decreases events.len(),
{
    if events.len() > 0 {
        let rest = events.drop_last();
        assert forall|i: int| 0 <= i < rest.len() implies (#[trigger] rest[i]) is AlreadyThere by {
            assert(rest[i] == events[i]);
        }
        lemma_all_skipped(run, rest);
        assert(events[events.len() - 1] is AlreadyThere);
    }
}

/// A place does not change after the turn of its file.
proof fn lemma_place_stays(
    files: Seq<SourceView>,
    events: Seq<FileEvent>,
    devices: Seq<DeviceFiles>,
    i: int,
    k: int,
)
    requires
        copies_over(files, events, devices),
        placed_apart(files),
        0 <= i < k <= files.len(),
    ensures
        size_at(devices[k], place(files[i])) == size_at(devices[i + 1], place(files[i])),
    decreases k,
{
    if k > i + 1 {
        lemma_place_stays(files, events, devices, i, k - 1);
        assert(can_become(devices[k - 1], files[k - 1], events[k - 1], devices[k]));
        assert(place(files[i]) != place(files[k - 1]));
    }
}

/// Once a folder has been copied without errors, each file whole, all its files are on the
/// device with their sizes.
pub proof fn law_all_files_arrive(
    run: CopyView,
    events: Seq<FileEvent>,
    devices: Seq<DeviceFiles>,
    i: int,
)
    requires
        is_begun(run),
        placed_apart(run.files),
        copies_over(run.files, events, devices),
        after_files(run, events).errors.len() == 0,
        forall|k: int|
            0 <= k < events.len() ==> bytes_of(#[trigger] events[k], run.files[k])
                == run.files[k].size,
        0 <= i < run.files.len(),
    ensures
        size_at(devices.last(), place(run.files[i])) == Some(run.files[i].size),
{
    lemma_errors(run, events);
    let n = run.files.len() as int;
    assert(events[i] is Copied || events[i] is AlreadyThere);
    assert(bytes_of(events[i], run.files[i]) == run.files[i].size);
    assert(can_become(devices[i], run.files[i], events[i], devices[i + 1]));
    lemma_place_stays(run.files, events, devices, i, n);
}

/// Where all files are on the device with their sizes, a run copies nothing: it skips them all,
/// without errors, and leaves the device as it was.
pub proof fn law_nothing_is_copied_twice(
    run: CopyView,
    events: Seq<FileEvent>,
    devices: Seq<DeviceFiles>,
)
    requires
        is_begun(run),
        copies_over(run.files, events, devices),
        forall|i: int|
            0 <= i < run.files.len() ==> size_at(devices[0], place(#[trigger] run.files[i])) == Some(
                run.files[i].size,
            ),
    ensures
        ({
            let end = after_files(run, events);
            &&& end.done == run.files.len()
            &&& end.copied == 0
            &&& end.skipped == run.files.len()
            &&& end.errors.len() == 0
        }),
        forall|at: (Option<Seq<char>>, Seq<char>)| #[trigger]
            size_at(devices.last(), at) == size_at(devices[0], at),
{
    lemma_device_stays(run.files, events, devices, run.files.len() as int);
    lemma_all_skipped(run, events);
    law_every_file_has_its_turn(run, events);
}

/// A device that has all files is not changed.
proof fn lemma_device_stays(
    files: Seq<SourceView>,
    events: Seq<FileEvent>,
    devices: Seq<DeviceFiles>,
    k: int,
)
    requires
        copies_over(files, events, devices),
        forall|i: int|
            0 <= i < files.len() ==> size_at(devices[0], place(#[trigger] files[i])) == Some(
                files[i].size,
            ),
        0 <= k <= files.len(),
    ensures
        forall|i: int| 0 <= i < k ==> (#[trigger] events[i]) is AlreadyThere,
        forall|at: (Option<Seq<char>>, Seq<char>)| #[trigger]
            size_at(devices[k], at) == size_at(devices[0], at),
    decreases k,
{
    if k > 0 {
        lemma_device_stays(files, events, devices, k - 1);
        let file = files[k - 1];
        assert(size_at(devices[k - 1], place(file)) == Some(file.size));
        assert(can_become(devices[k - 1], file, events[k - 1], devices[k]));
        assert forall|at: (Option<Seq<char>>, Seq<char>)| #[trigger]
            size_at(devices[k], at) == size_at(devices[0], at) by {
            assert(size_at(devices[k - 1], at) == size_at(devices[0], at));
        }
    }
}

/// Copying a folder a second time copies nothing: after a first run without errors that copied
/// its files whole, a run over the same files, in any order, skips them all.
pub proof fn law_second_run_skips_all(
    first: CopyView,
    first_events: Seq<FileEvent>,
    first_devices: Seq<DeviceFiles>,
    second: CopyView,
    events: Seq<FileEvent>,
    devices: Seq<DeviceFiles>,
)
    requires
        is_begun(first),
        placed_apart(first.files),
        copies_over(first.files, first_events, first_devices),
        after_files(first, first_events).errors.len() == 0,
        forall|k: int|
            0 <= k < first_events.len() ==> bytes_of(#[trigger] first_events[k], first.files[k])
                == first.files[k].size,
        is_begun(second),
        forall|i: int|
            0 <= i < second.files.len() ==> first.files.contains(#[trigger] second.files[i]),
        copies_over(second.files, events, devices),
        devices[0] == first_devices.last(),
    ensures
        ({
            let end = after_files(second, events);
            &&& end.done == second.files.len()
            &&& end.copied == 0
            &&& end.skipped == second.files.len()
            &&& end.errors.len() == 0
        }),
{
    assert forall|i: int| 0 <= i < second.files.len() implies size_at(
        devices[0],
        place(#[trigger] second.files[i]),
    ) == Some(second.files[i].size) by {
        assert(first.files.contains(second.files[i]));
        let k = choose|k: int| 0 <= k < first.files.len() && first.files[k] == second.files[i];
        law_all_files_arrive(first, first_events, first_devices, k);
    }
    law_nothing_is_copied_twice(second, events, devices);
}

/// Copying a backup folder again copies none of its files and skips them all, where the first run
/// had no errors and copied them whole. `files` are the files of the folder, each of which both
/// runs take, the largest first.
pub proof fn law_folder_is_copied_once(
    files: Seq<SourceView>,
    first: CopyView,
    first_events: Seq<FileEvent>,
    first_devices: Seq<DeviceFiles>,
    second: CopyView,
    events: Seq<FileEvent>,
    devices: Seq<DeviceFiles>,
)
    requires
        placed_apart(files),
        is_begun(first),
        is_largest_first(files, first.files),
        copies_over(first.files, first_events, first_devices),
        after_files(first, first_events).errors.len() == 0,
        forall|k: int|
            0 <= k < first_events.len() ==> bytes_of(#[trigger] first_events[k], first.files[k])
                == first.files[k].size,
        is_begun(second),
        is_largest_first(files, second.files),
        copies_over(second.files, events, devices),
        devices[0] == first_devices.last(),
    ensures
        after_files(second, events).copied == 0,
        after_files(second, events).skipped == files.len(),
        after_files(second, events).errors.len() == 0,
{
    lemma_placed_apart(files, first.files);
    assert forall|i: int| 0 <= i < second.files.len() implies first.files.contains(
        #[trigger] second.files[i],
    ) by {
        law_scan_keeps_files(files, second.files, second.files[i]);
        law_scan_keeps_files(files, first.files, second.files[i]);
    }
    if second.files.len() > 0 {
        law_scan_keeps_files(files, second.files, second.files[0]);
    } else if files.len() > 0 {
        law_scan_keeps_files(files, second.files, files[0]);
    }
    law_second_run_skips_all(first, first_events, first_devices, second, events, devices);
}

/// The order of files does not bring any to one place.
proof fn lemma_placed_apart(before: Seq<SourceView>, after: Seq<SourceView>)
    requires
        placed_apart(before),
        is_largest_first(before, after),
    ensures
        placed_apart(after),
{
    let keys = size_keys(before);
    let order = choose|order: Seq<int>|
        #[trigger] is_sort_order(keys, true, order) && after == arranged(before, order);
    lemma_sort_is_permutation(keys, true, order);
    assert forall|i: int, j: int| 0 <= i < j < after.len() implies place(#[trigger] after[i])
        != place(#[trigger] after[j]) by {
        let (a, b) = (order[i], order[j]);
        assert(a != b);
        assert(after[i] == before[a] && after[j] == before[b]);
        if a < b {
            assert(place(before[a]) != place(before[b]));
        } else {
            assert(place(before[b]) != place(before[a]));
        }
    }
}

/// A percentage is at most a hundred, grows with what is done, and is a hundred at the end.
pub proof fn law_percent(a: int, b: int, whole: u64)
    requires
        0 <= a <= b,
    ensures
        percent(a, whole) <= percent(b, whole) <= 100,
        b >= whole ==> percent(b, whole) == 100,
{
    if whole > 0 {
        assert(0 <= a * 100 / whole as int <= b * 100 / whole as int) by (nonlinear_arith)
            requires
                0 <= a <= b,
                whole > 0,
        ;
        if b >= whole {
            assert(b * 100 / whole as int >= 100) by (nonlinear_arith)
                requires
                    b >= whole,
                    whole > 0,
            ;
        }
    }
}

/// What each event of a file does to a copy: the file is done with its own size, or with as many
/// bytes as were copied, and is counted in exactly one way.
pub proof fn law_event(run: CopyView, event: FileEvent)
    requires
        run.done < run.files.len(),
        run.bytes_done + run.files[run.done as int].size <= u64::MAX,
        event matches FileEvent::Copied(n) ==> run.bytes_done + n <= u64::MAX,
    ensures
        ({
            let file = run.files[run.done as int];
            let next = after_file(run, event);
            &&& next.done == run.done + 1
            &&& next.files == run.files
            &&& next.total_bytes == run.total_bytes
            &&& match event {
                FileEvent::Copied(n) => next.copied == run.copied + 1 && next.skipped == run.skipped
                    && next.errors == run.errors && next.bytes_done == run.bytes_done + n,
                FileEvent::AlreadyThere => next.copied == run.copied && next.skipped == run.skipped
                    + 1 && next.errors == run.errors && next.bytes_done == run.bytes_done
                    + file.size,
                FileEvent::Failed(e) => next.copied == run.copied && next.skipped == run.skipped
                    && next.errors == run.errors.push(e@) && next.bytes_done == run.bytes_done
                    + file.size,
                FileEvent::NoDirectory(e) => next.copied == run.copied && next.skipped
                    == run.skipped && next.errors == run.errors.push(
                    "Cannot create "@ + file.subdir->0 + "/: "@ + e@,
                ) && next.bytes_done == run.bytes_done + file.size,
            }
        }),
{
}

/// A percentage is rounded down; of nothing everything is done.
pub proof fn law_percent_is_rounded_down(done: int, whole: u64)
    requires
        0 <= done < whole,
    ensures
        percent(done, whole) * whole <= done * 100 < (percent(done, whole) + 1) * whole,
        percent(done, 0) == 100,
{
    let p = done * 100 / whole as int;
    vstd::arithmetic::div_mod::lemma_fundamental_div_mod(done * 100, whole as int);
    vstd::arithmetic::div_mod::lemma_mod_bound(done * 100, whole as int);
    assert(p < 100) by (nonlinear_arith)
        requires
            done * 100 == whole as int * p + (done * 100) % (whole as int),
            0 <= (done * 100) % (whole as int),
            0 <= done < whole,
    ;
    assert(0 <= p) by (nonlinear_arith)
        requires
            p == done * 100 / whole as int,
            0 <= done < whole,
    ;
    assert(p * whole <= done * 100 < (p + 1) * whole) by (nonlinear_arith)
        requires
            done * 100 == whole as int * p + (done * 100) % (whole as int),
            0 <= (done * 100) % (whole as int) < whole,
    ;
}

/// The files of a copy are those of the folder, all of them, the largest first: none is left out.
pub proof fn law_copy_takes_every_file(
    entries: Seq<FolderEntry>,
    files: Seq<SourceView>,
    i: int,
    k: int,
)
    requires
        is_largest_first(folder_files(entries), files),
        0 <= i < entries.len(),
    ensures
        files.len() == file_count(entries),
        entries[i].kind is File ==> files.contains(
            (SourceView {
                name: entries[i].name@,
                subdir: None,
                size: entries[i].kind->File_0,
            }),
        ),
        entries[i].kind is Directory && entries[i].children is Some && 0 <= k
            < entries[i].children->0@.len() && entries[i].children->0@[k].kind is File
            ==> files.contains(
            (SourceView {
                name: entries[i].children->0@[k].name@,
                subdir: Some(entries[i].name@),
                size: entries[i].children->0@[k].kind->File_0,
            }),
        ),
{
    law_no_file_missed(entries, i, k);
    law_files_are_counted(entries);
    let all = folder_files(entries);
    let own = SourceView {
        name: entries[i].name@,
        subdir: None,
        size: entries[i].kind->File_0,
    };
    let inner = SourceView {
        name: entries[i].children->0@[k].name@,
        subdir: Some(entries[i].name@),
        size: entries[i].children->0@[k].kind->File_0,
    };
    law_scan_keeps_files(all, files, own);
    law_scan_keeps_files(all, files, inner);
}

/// The model of a [`CopyFolderProgress`] has all that it holds.
pub proof fn law_model_of_copy_folder_progress(progress: CopyFolderProgress)
    ensures
        progress@.file == progress.file@,
        progress@.file_index == progress.file_index,
        progress@.total_files == progress.total_files,
        progress@.file_pct == progress.file_pct,
        progress@.total_pct == progress.total_pct,
{
}

} // verus!
