//! Restoring a backup folder to a device: its files one after the other, the largest first.

use crate::order::{
    arranged,
    code_points,
    indices,
    is_permutation,
    is_sort_order,
    key_views,
    lemma_number_order,
    lemma_permutation_contains,
    lemma_permutation_shrinks,
    lemma_sort_is_permutation,
    number_key,
    sort_order,
    text_key,
    text_less,
};
use crate::text::{optional_text, texts};
use vstd::prelude::*;

verus! {

// ---------------------------------------------------------------- the files

/// A file of a backup folder.
#[derive(Debug, Clone)]
pub struct SourceFile {
    pub name: String,
    /// The directory that it is in; none for the folder itself.
    pub subdir: Option<String>,
    pub size: u64,
}

/// What a [`SourceFile`] holds.
#[verifier::ext_equal]
pub struct SourceView {
    pub name: Seq<char>,
    pub subdir: Option<Seq<char>>,
    pub size: u64,
}

impl View for SourceFile {
    type V = SourceView;

    open spec fn view(&self) -> SourceView {
        SourceView { name: self.name@, subdir: optional_text(self.subdir), size: self.size }
    }
}

/// What some files hold.
pub open spec fn source_views(files: Seq<SourceFile>) -> Seq<SourceView> {
    Seq::new(files.len(), |i: int| files[i]@)
}

impl SourceFile {
    /// A file that holds the same.
    pub fn duplicate(&self) -> (file: SourceFile)
        ensures
            file@ == self@,
    {
        let subdir = match &self.subdir {
            Some(s) => Some(s.clone()),
            None => None,
        };
        SourceFile { name: self.name.clone(), subdir, size: self.size }
    }
}

/// What an entry of a directory is.
#[derive(Debug, Clone)]
pub enum SourceKind {
    /// A file of this size: zero where that cannot be found out.
    File(u64),
    /// A directory.
    Directory,
    /// Neither.
    Other,
}

/// An entry of a directory in a backup folder.
#[derive(Debug, Clone)]
pub struct SubEntry {
    pub name: String,
    pub kind: SourceKind,
}

/// An entry of a backup folder.
#[derive(Debug, Clone)]
pub struct FolderEntry {
    pub name: String,
    pub kind: SourceKind,
    /// The entries of a directory, where they can be read.
    pub children: Option<Vec<SubEntry>>,
}

/// The files among the entries of the directory `subdir`.
pub open spec fn sub_files(entries: Seq<SubEntry>, subdir: Seq<char>) -> Seq<SourceView>
    decreases entries.len(),
{
    if entries.len() == 0 {
        seq![]
    } else {
        let before = sub_files(entries.drop_last(), subdir);
        match entries.last().kind {
            SourceKind::File(size) => before.push(
                SourceView { name: entries.last().name@, subdir: Some(subdir), size },
            ),
            _ => before,
        }
    }
}

/// Whether a directory has directories in it.
pub open spec fn is_nested(entries: Seq<SubEntry>) -> bool {
    exists|i: int| 0 <= i < entries.len() && (#[trigger] entries[i]).kind is Directory
}

/// The directory that an entry is, where it is one that can be read.
pub open spec fn readable_dir(entry: FolderEntry) -> Option<Seq<SubEntry>> {
    match entry.kind {
        SourceKind::Directory => match entry.children {
            Some(list) => Some(list@),
            None => None,
        },
        _ => None,
    }
}

/// The files of a backup folder, those in its directories included, but no deeper.
pub open spec fn folder_files(entries: Seq<FolderEntry>) -> Seq<SourceView>
    decreases entries.len(),
{
    if entries.len() == 0 {
        seq![]
    } else {
        let before = folder_files(entries.drop_last());
        let last = entries.last();
        match last.kind {
            SourceKind::File(size) => before.push(
                SourceView { name: last.name@, subdir: None, size },
            ),
            SourceKind::Directory => match readable_dir(last) {
                Some(list) => before + sub_files(list, last.name@),
                None => before,
            },
            SourceKind::Other => before,
        }
    }
}

/// The directories of a backup folder that can be read.
pub open spec fn folder_dirs(entries: Seq<FolderEntry>) -> Seq<Seq<char>>
    decreases entries.len(),
{
    if entries.len() == 0 {
        seq![]
    } else {
        let before = folder_dirs(entries.drop_last());
        if readable_dir(entries.last()) is Some {
            before.push(entries.last().name@)
        } else {
            before
        }
    }
}

/// Those of the directories that have directories in them, which are not looked into.
pub open spec fn nested_dirs(entries: Seq<FolderEntry>) -> Seq<Seq<char>>
    decreases entries.len(),
{
    if entries.len() == 0 {
        seq![]
    } else {
        let before = nested_dirs(entries.drop_last());
        match readable_dir(entries.last()) {
            Some(list) => if is_nested(list) {
                before.push(entries.last().name@)
            } else {
                before
            },
            None => before,
        }
    }
}

/// The keys by which texts are sorted.
pub open spec fn text_keys(list: Seq<Seq<char>>) -> Seq<Seq<u64>> {
    Seq::new(list.len(), |i: int| code_points(list[i]))
}

/// Whether `after` is the list of texts `before` in their order.
pub open spec fn is_sorted_texts(before: Seq<Seq<char>>, after: Seq<Seq<char>>) -> bool {
    exists|order: Seq<int>|
        #[trigger] is_sort_order(text_keys(before), false, order) && after == arranged(
            before,
            order,
        )
}

/// The keys by which files are sorted.
pub open spec fn size_keys(files: Seq<SourceView>) -> Seq<Seq<u64>> {
    Seq::new(files.len(), |i: int| seq![files[i].size])
}

/// Whether `after` is the list of files `before`, the largest first.
pub open spec fn is_largest_first(before: Seq<SourceView>, after: Seq<SourceView>) -> bool {
    exists|order: Seq<int>|
        #[trigger] is_sort_order(size_keys(before), true, order) && after == arranged(
            before,
            order,
        )
}

/// Sorts texts.
fn sort_texts(list: &[String]) -> (sorted: Vec<String>)
    ensures
        is_sorted_texts(texts(list@), texts(sorted@)),
{
    let ghost all = texts(list@);
    let ghost wanted = text_keys(all);
    let mut keys: Vec<Vec<u64>> = Vec::new();
    let mut i: usize = 0;
    while i < list.len()
        invariant
            i <= list.len(),
            all == texts(list@),
            wanted == text_keys(all),
            key_views(keys@) == wanted.take(i as int),
        decreases list.len() - i,
    {
        let ghost before = key_views(keys@);
        let key = text_key(list[i].as_str());
        keys.push(key);
        assert(key_views(keys@) =~= before.push(key@));
        i += 1;
    }
    assert(key_views(keys@) =~= wanted);
    let order = sort_order(keys.as_slice(), false);
    let ghost places = indices(order@);
    let mut sorted: Vec<String> = Vec::new();
    let mut k: usize = 0;
    while k < order.len()
        invariant
            k <= order.len(),
            all == texts(list@),
            places == indices(order@),
            is_sort_order(wanted, false, places),
            wanted.len() == list.len(),
            texts(sorted@) == arranged(all, places).take(k as int),
        decreases order.len() - k,
    {
        let ghost before = texts(sorted@);
        assert(places[k as int] == order@[k as int] as int);
        let p: usize = order[k];
        sorted.push(list[p].clone());
        assert(texts(sorted@) =~= before.push(all[p as int]));
        k += 1;
    }
    assert(texts(sorted@) =~= arranged(all, places));
    sorted
}

/// Sorts files, the largest first.
pub(crate) fn sort_files(files: &[SourceFile]) -> (sorted: Vec<SourceFile>)
    ensures
        is_largest_first(source_views(files@), source_views(sorted@)),
{
    let ghost all = source_views(files@);
    let ghost wanted = size_keys(all);
    let mut keys: Vec<Vec<u64>> = Vec::new();
    let mut i: usize = 0;
    while i < files.len()
        invariant
            i <= files.len(),
            all == source_views(files@),
            wanted == size_keys(all),
            key_views(keys@) == wanted.take(i as int),
        decreases files.len() - i,
    {
        let ghost before = key_views(keys@);
        let key = number_key(files[i].size);
        assert(all[i as int] == files@[i as int]@);
        keys.push(key);
        assert(key_views(keys@) =~= before.push(key@));
        i += 1;
    }
    assert(key_views(keys@) =~= wanted);
    let order = sort_order(keys.as_slice(), true);
    let ghost places = indices(order@);
    let mut sorted: Vec<SourceFile> = Vec::new();
    let mut k: usize = 0;
    while k < order.len()
        invariant
            k <= order.len(),
            all == source_views(files@),
            places == indices(order@),
            is_sort_order(wanted, true, places),
            wanted.len() == files.len(),
            source_views(sorted@) == arranged(all, places).take(k as int),
        decreases order.len() - k,
    {
        let ghost before = source_views(sorted@);
        assert(places[k as int] == order@[k as int] as int);
        let p: usize = order[k];
        let file = files[p].duplicate();
        assert(all[p as int] == files@[p as int]@);
        sorted.push(file);
        assert(source_views(sorted@) =~= before.push(file@));
        k += 1;
    }
    assert(source_views(sorted@) =~= arranged(all, places));
    sorted
}

/// Appends the files among the entries of a directory, and says whether it has directories in it.
fn push_sub_files(files: &mut Vec<SourceFile>, entries: &[SubEntry], subdir: &str) -> (nested: bool)
    ensures
        source_views(final(files)@) == source_views(old(files)@) + sub_files(entries@, subdir@),
        nested == is_nested(entries@),
{
    let ghost start = source_views(files@);
    let mut nested: bool = false;
    let mut i: usize = 0;
    assert(start + sub_files(entries@.take(0), subdir@) =~= start);
    while i < entries.len()
        invariant
            i <= entries.len(),
            source_views(files@) == start + sub_files(entries@.take(i as int), subdir@),
            nested == is_nested(entries@.take(i as int)),
        decreases entries.len() - i,
    {
        let ghost before = source_views(files@);
        let ghost next = entries@.take(i + 1);
        proof {
            assert(next.drop_last() =~= entries@.take(i as int));
            assert(next.last() == entries@[i as int]);
            assert(is_nested(next) <==> (is_nested(entries@.take(i as int)) || entries@[
                i as int].kind is Directory)) by {
                if is_nested(entries@.take(i as int)) {
                    let k = choose|k: int|
                        0 <= k < i && (#[trigger] entries@.take(i as int)[k]).kind is Directory;
                    assert(next[k].kind is Directory);
                }
                if entries@[i as int].kind is Directory {
                    assert(next[i as int].kind is Directory);
                }
                if is_nested(next) {
                    let k = choose|k: int|
                        0 <= k < next.len() && (#[trigger] next[k]).kind is Directory;
                    if k < i {
                        assert(entries@.take(i as int)[k].kind is Directory);
                    }
                }
            }
        }
        match &entries[i].kind {
            SourceKind::File(size) => {
                let file = SourceFile {
                    name: entries[i].name.clone(),
                    subdir: Some(subdir.to_owned()),
                    size: *size,
                };
                files.push(file);
                assert(source_views(files@) =~= before.push(file@));
                assert(source_views(files@) =~= start + sub_files(next, subdir@));
            },
            SourceKind::Directory => {
                nested = true;
            },
            SourceKind::Other => {},
        }
        i += 1;
    }
    assert(entries@.take(i as int) =~= entries@);
    nested
}

/// The files of a backup folder, its directories, and those of them that have directories in
/// them, each list of directories sorted.
pub fn collect_source_files(entries: &[FolderEntry]) -> (r: (
    Vec<SourceFile>,
    Vec<String>,
    Vec<String>,
))
    ensures
        source_views(r.0@) == folder_files(entries@),
        is_sorted_texts(folder_dirs(entries@), texts(r.1@)),
        is_sorted_texts(nested_dirs(entries@), texts(r.2@)),
{
    let mut files: Vec<SourceFile> = Vec::new();
    let mut found: Vec<String> = Vec::new();
    let mut skipped: Vec<String> = Vec::new();
    let mut i: usize = 0;
    assert(source_views(files@) =~= folder_files(entries@.take(0)));
    assert(texts(found@) =~= folder_dirs(entries@.take(0)));
    assert(texts(skipped@) =~= nested_dirs(entries@.take(0)));
    while i < entries.len()
        invariant
            i <= entries.len(),
            source_views(files@) == folder_files(entries@.take(i as int)),
            texts(found@) == folder_dirs(entries@.take(i as int)),
            texts(skipped@) == nested_dirs(entries@.take(i as int)),
        decreases entries.len() - i,
    {
        let ghost next = entries@.take(i + 1);
        let ghost before = source_views(files@);
        let ghost dirs = texts(found@);
        let ghost deep = texts(skipped@);
        assert(next.drop_last() =~= entries@.take(i as int));
        assert(next.last() == entries@[i as int]);
        let entry = &entries[i];
        match &entry.kind {
            SourceKind::File(size) => {
                let file = SourceFile { name: entry.name.clone(), subdir: None, size: *size };
                files.push(file);
                assert(source_views(files@) =~= before.push(file@));
            },
            SourceKind::Directory => {
                match &entry.children {
                    Some(list) => {
                        let nested = push_sub_files(
                            &mut files,
                            list.as_slice(),
                            entry.name.as_str(),
                        );
                        found.push(entry.name.clone());
                        assert(texts(found@) =~= dirs.push(entry.name@));
                        if nested {
                            skipped.push(entry.name.clone());
                            assert(texts(skipped@) =~= deep.push(entry.name@));
                        }
                    },
                    None => {},
                }
            },
            SourceKind::Other => {},
        }
        i += 1;
    }
    assert(entries@.take(i as int) =~= entries@);
    (files, sort_texts(found.as_slice()), sort_texts(skipped.as_slice()))
}

// ---------------------------------------------------------------- scanning

/// What a backup folder holds.
#[derive(Debug)]
pub struct SourceScanResult {
    /// Its files, the largest first.
    pub files: Vec<SourceFile>,
    pub total_bytes: u64,
    /// The directories that were scanned.
    pub subdirs_found: Vec<String>,
    /// Those of them that have directories in them, which were not.
    pub subdirs_skipped: Vec<String>,
}

/// The sizes of some files together.
pub open spec fn total_size(files: Seq<SourceView>) -> nat
    decreases files.len(),
{
    if files.len() == 0 {
        0
    } else {
        total_size(files.drop_last()) + files.last().size as nat
    }
}

/// More files make no smaller sum.
proof fn lemma_total_grows(files: Seq<SourceView>, k: int)
    requires
        0 <= k <= files.len(),
    ensures
        total_size(files.take(k)) <= total_size(files),
    decreases files.len() - k,
{
    if k == files.len() {
        assert(files.take(k) =~= files);
    } else {
        lemma_total_grows(files, k + 1);
        assert(files.take(k + 1).drop_last() =~= files.take(k));
    }
}

/// A file taken out of a list takes its size out of the sum.
proof fn lemma_total_remove(files: Seq<SourceView>, k: int)
    requires
        0 <= k < files.len(),
    ensures
        total_size(files) == total_size(files.remove(k)) + files[k].size,
    decreases files.len(),
{
    if k == files.len() - 1 {
        assert(files.remove(k) =~= files.drop_last());
    } else {
        lemma_total_remove(files.drop_last(), k);
        assert(files.remove(k).drop_last() =~= files.drop_last().remove(k));
        assert(files.remove(k).last() == files.last());
    }
}

/// The order of files does not change their size together.
proof fn lemma_total_arranged(files: Seq<SourceView>, order: Seq<int>)
    requires
        is_permutation(order, files.len()),
    ensures
        total_size(arranged(files, order)) == total_size(files),
    decreases files.len(),
{
    if files.len() > 0 {
        let n = files.len() - 1;
        lemma_permutation_contains(order, files.len(), n);
        let p = choose|p: int| 0 <= p < order.len() && order[p] == n;
        let rest = order.remove(p);
        let all = arranged(files, order);
        lemma_permutation_shrinks(order, files.len(), p);
        lemma_total_arranged(files.drop_last(), rest);
        lemma_total_remove(all, p);
        assert(all.remove(p) =~= arranged(files.drop_last(), rest));
        assert(all[p] == files.last());
    }
}

/// The files of a scan have together the size of all files of the folder.
pub proof fn law_scan_keeps_size(before: Seq<SourceView>, after: Seq<SourceView>)
    requires
        is_largest_first(before, after),
    ensures
        total_size(after) == total_size(before),
{
    let keys = size_keys(before);
    let order = choose|order: Seq<int>|
        #[trigger] is_sort_order(keys, true, order) && after == arranged(before, order);
    lemma_sort_is_permutation(keys, true, order);
    lemma_total_arranged(before, order);
}

/// The sizes of some files together.
pub(crate) fn sum_sizes(files: &[SourceFile]) -> (total: u64)
    requires
        total_size(source_views(files@)) <= u64::MAX,
    ensures
        total == total_size(source_views(files@)),
{
    let ghost all = source_views(files@);
    let mut total: u64 = 0;
    let mut i: usize = 0;
    while i < files.len()
        invariant
            i <= files.len(),
            all == source_views(files@),
            total_size(all) <= u64::MAX,
            total == total_size(all.take(i as int)),
        decreases files.len() - i,
    {
        proof {
            assert(all.take(i + 1).drop_last() =~= all.take(i as int));
            assert(all.take(i + 1).last() == files@[i as int]@);
            lemma_total_grows(all, i + 1);
        }
        total += files[i].size;
        i += 1;
    }
    assert(all.take(i as int) =~= all);
    total
}

/// Whether the sizes of the files of a backup folder can be summed up.
pub fn can_scan(entries: &[FolderEntry]) -> (b: bool)
    ensures
        b == (total_size(folder_files(entries@)) <= u64::MAX),
{
    let (files, _found, _skipped) = collect_source_files(entries);
    let ghost all = source_views(files@);
    let mut total: u128 = 0;
    let mut i: usize = 0;
    while i < files.len()
        invariant
            i <= files.len(),
            all == source_views(files@),
            total == total_size(all.take(i as int)),
            total <= i * 0xFFFF_FFFF_FFFF_FFFF,
        decreases files.len() - i,
    {
        assert(all.take(i + 1).drop_last() =~= all.take(i as int));
        assert(all.take(i + 1).last() == files@[i as int]@);
        total += files[i].size as u128;
        i += 1;
    }
    assert(all.take(i as int) =~= all);
    total <= u64::MAX as u128
}

/// What a backup folder holds: its files, the largest first, and its directories.
pub fn scan_source_folder(entries: &[FolderEntry]) -> (r: SourceScanResult)
    requires
        total_size(folder_files(entries@)) <= u64::MAX,
    ensures
        is_largest_first(folder_files(entries@), source_views(r.files@)),
        r.total_bytes == total_size(folder_files(entries@)),
        is_sorted_texts(folder_dirs(entries@), texts(r.subdirs_found@)),
        is_sorted_texts(nested_dirs(entries@), texts(r.subdirs_skipped@)),
{
    let (files, subdirs_found, subdirs_skipped) = collect_source_files(entries);
    let total_bytes: u64 = sum_sizes(files.as_slice());
    SourceScanResult {
        files: sort_files(files.as_slice()),
        total_bytes,
        subdirs_found,
        subdirs_skipped,
    }
}

/// The files of a scan are sorted downward by size.
pub proof fn law_largest_first(
    before: Seq<SourceView>,
    after: Seq<SourceView>,
    i: int,
    j: int,
)
    requires
        is_largest_first(before, after),
        0 <= i < j < after.len(),
    ensures
        after[i].size >= after[j].size,
{
    let keys = size_keys(before);
    let order = choose|order: Seq<int>|
        #[trigger] is_sort_order(keys, true, order) && after == arranged(before, order);
    lemma_number_order(before[order[j]].size, before[order[i]].size);
    assert(keys[order[i]] == seq![before[order[i]].size]);
    assert(keys[order[j]] == seq![before[order[j]].size]);
}

/// Sorting a scan loses no file and adds none.
pub proof fn law_scan_keeps_files(
    before: Seq<SourceView>,
    after: Seq<SourceView>,
    file: SourceView,
)
    requires
        is_largest_first(before, after),
    ensures
        after.len() == before.len(),
        after.contains(file) <==> before.contains(file),
{
    let keys = size_keys(before);
    let order = choose|order: Seq<int>|
        #[trigger] is_sort_order(keys, true, order) && after == arranged(before, order);
    if before.contains(file) {
        let i = choose|i: int| 0 <= i < before.len() && before[i] == file;
        crate::order::law_sort_keeps_all(keys, true, order, i);
        let k = choose|k: int| 0 <= k < order.len() && order[k] == i;
        assert(after[k] == file);
    }
    if after.contains(file) {
        let k = choose|k: int| 0 <= k < after.len() && after[k] == file;
        assert(before[order[k]] == file);
    }
}

// ---------------------------------------------------------------- laws

/// The files of a directory are found in the order of its entries, each of them; an entry that is
/// no file gives none.
pub proof fn law_sub_files(a: Seq<SubEntry>, b: Seq<SubEntry>, entry: SubEntry, subdir: Seq<char>)
    ensures
        sub_files(a + b, subdir) == sub_files(a, subdir) + sub_files(b, subdir),
        sub_files(Seq::empty(), subdir).len() == 0,
        entry.kind is File ==> sub_files(seq![entry], subdir) == seq![
            (SourceView { name: entry.name@, subdir: Some(subdir), size: entry.kind->File_0 }),
        ],
        !(entry.kind is File) ==> sub_files(seq![entry], subdir).len() == 0,
    decreases b.len(),
{
    if b.len() == 0 {
        assert(a + b =~= a);
        assert(sub_files(a, subdir) + sub_files(b, subdir) =~= sub_files(a, subdir));
        reveal_with_fuel(sub_files, 2);
        assert(seq![entry].drop_last() =~= Seq::empty() && seq![entry].last() == entry);
        if entry.kind is File {
            assert(sub_files(seq![entry], subdir) =~= seq![
                (SourceView { name: entry.name@, subdir: Some(subdir), size: entry.kind->File_0 }),
            ]);
        }
    } else {
        assert((a + b).drop_last() =~= a + b.drop_last());
        assert((a + b).last() == b.last());
        law_sub_files(a, b.drop_last(), entry, subdir);
        assert(sub_files(a + b, subdir) =~= sub_files(a, subdir) + sub_files(b, subdir));
    }
}

/// The files and the directories of a backup folder are found in the order of its entries, all of
/// them.
pub proof fn law_folder_adds_up(a: Seq<FolderEntry>, b: Seq<FolderEntry>)
    ensures
        folder_files(a + b) == folder_files(a) + folder_files(b),
        folder_dirs(a + b) == folder_dirs(a) + folder_dirs(b),
        nested_dirs(a + b) == nested_dirs(a) + nested_dirs(b),
        folder_files(Seq::empty()).len() == 0,
        folder_dirs(Seq::empty()).len() == 0,
        nested_dirs(Seq::empty()).len() == 0,
    decreases b.len(),
{
    if b.len() == 0 {
        assert(a + b =~= a);
        assert(folder_files(a) + folder_files(b) =~= folder_files(a));
        assert(folder_dirs(a) + folder_dirs(b) =~= folder_dirs(a));
        assert(nested_dirs(a) + nested_dirs(b) =~= nested_dirs(a));
    } else {
        assert((a + b).drop_last() =~= a + b.drop_last());
        assert((a + b).last() == b.last());
        law_folder_adds_up(a, b.drop_last());
        assert(folder_files(a + b) =~= folder_files(a) + folder_files(b));
        assert(folder_dirs(a + b) =~= folder_dirs(a) + folder_dirs(b));
        assert(nested_dirs(a + b) =~= nested_dirs(a) + nested_dirs(b));
    }
}

/// What one entry of a backup folder gives: a file itself; a directory that can be read the files
/// in it, and its own name, and that again where it has directories in it; anything else nothing.
pub proof fn law_folder_entry(entry: FolderEntry)
    ensures
        entry.kind is File ==> folder_files(seq![entry]) == seq![
            (SourceView { name: entry.name@, subdir: None, size: entry.kind->File_0 }),
        ],
        entry.kind is Directory && entry.children is Some ==> folder_files(seq![entry])
            == sub_files(entry.children->0@, entry.name@) && folder_dirs(seq![entry]) == seq![
            entry.name@,
        ],
        !(entry.kind is Directory && entry.children is Some) ==> folder_dirs(seq![entry]).len() == 0
            && nested_dirs(seq![entry]).len() == 0,
        !(entry.kind is Directory && entry.children is Some) && !(entry.kind is File)
            ==> folder_files(seq![entry]).len() == 0,
        entry.kind is Directory && entry.children is Some && (exists|i: int|
            0 <= i < entry.children->0@.len() && (
            #[trigger] entry.children->0@[i]).kind is Directory) ==> nested_dirs(seq![entry])
            == seq![entry.name@],
        entry.kind is Directory && entry.children is Some && (forall|i: int|
            0 <= i < entry.children->0@.len() ==> !((
            #[trigger] entry.children->0@[i]).kind is Directory)) ==> nested_dirs(
            seq![entry],
        ).len() == 0,
{
    reveal_with_fuel(folder_files, 2);
    reveal_with_fuel(folder_dirs, 2);
    reveal_with_fuel(nested_dirs, 2);
    let none = Seq::<FolderEntry>::empty();
    assert(seq![entry].drop_last() =~= none && seq![entry].last() == entry);
    assert(folder_files(none) =~= Seq::empty());
    if entry.kind is File {
        assert(folder_files(seq![entry]) =~= seq![
            (SourceView { name: entry.name@, subdir: None, size: entry.kind->File_0 }),
        ]);
    } else if readable_dir(entry) is Some {
        let list = entry.children->0@;
        assert(folder_files(seq![entry]) =~= sub_files(list, entry.name@));
        assert(folder_dirs(seq![entry]) =~= seq![entry.name@]);
        if is_nested(list) {
            assert(nested_dirs(seq![entry]) =~= seq![entry.name@]);
        }
    }
}

/// Every file in a directory is found.
proof fn lemma_sub_file_is_found(entries: Seq<SubEntry>, subdir: Seq<char>, k: int)
    requires
        0 <= k < entries.len(),
        entries[k].kind is File,
    ensures
        sub_files(entries, subdir).contains(
            (SourceView {
                name: entries[k].name@,
                subdir: Some(subdir),
                size: entries[k].kind->File_0,
            }),
        ),
    decreases entries.len(),
{
    let file = SourceView {
        name: entries[k].name@,
        subdir: Some(subdir),
        size: entries[k].kind->File_0,
    };
    let before = sub_files(entries.drop_last(), subdir);
    let all = sub_files(entries, subdir);
    if k < entries.len() - 1 {
        lemma_sub_file_is_found(entries.drop_last(), subdir, k);
        let i = choose|i: int| 0 <= i < before.len() && before[i] == file;
        assert(all[i] == file);
    } else {
        assert(all[before.len() as int] == file);
    }
}

/// No file of a backup folder is missed: every file in it is found with its name and size, and
/// every file in a directory of it that can be read with its name, its size and that directory.
pub proof fn law_no_file_missed(entries: Seq<FolderEntry>, i: int, k: int)
    requires
        0 <= i < entries.len(),
    ensures
        entries[i].kind is File ==> folder_files(entries).contains(
            (SourceView {
                name: entries[i].name@,
                subdir: None,
                size: entries[i].kind->File_0,
            }),
        ),
        entries[i].kind is Directory && entries[i].children is Some && 0 <= k
            < entries[i].children->0@.len() && entries[i].children->0@[k].kind is File
            ==> folder_files(entries).contains(
            (SourceView {
                name: entries[i].children->0@[k].name@,
                subdir: Some(entries[i].name@),
                size: entries[i].children->0@[k].kind->File_0,
            }),
        ),
        entries[i].kind is Directory && entries[i].children is Some ==> folder_dirs(
            entries,
        ).contains(entries[i].name@),
{
    let (a, b) = (entries.take(i), entries.skip(i + 1));
    let entry = entries[i];
    assert(entries =~= a + seq![entry] + b);
    law_folder_adds_up(a + seq![entry], b);
    law_folder_adds_up(a, seq![entry]);
    law_folder_entry(entry);
    let all = folder_files(entries);
    let (start, here) = (folder_files(a), folder_files(seq![entry]));
    if entry.kind is File {
        assert(all[start.len() as int] == here[0]);
    } else if entry.kind is Directory && entry.children is Some {
        let dirs = folder_dirs(entries);
        assert(dirs[folder_dirs(a).len() as int] == entry.name@);
        let list = entry.children->0@;
        if 0 <= k < list.len() && list[k].kind is File {
            lemma_sub_file_is_found(list, entry.name@, k);
            let file = SourceView {
                name: list[k].name@,
                subdir: Some(entry.name@),
                size: list[k].kind->File_0,
            };
            let m = choose|m: int| 0 <= m < here.len() && here[m] == file;
            assert(all[start.len() + m] == file);
        }
    }
}

/// The entries of a directory that are files.
pub open spec fn are_files() -> spec_fn(SubEntry) -> bool {
    |entry: SubEntry| entry.kind is File
}

/// How many files there are in a folder and in the directories of it that can be read.
pub open spec fn file_count(entries: Seq<FolderEntry>) -> nat
    decreases entries.len(),
{
    if entries.len() == 0 {
        0
    } else {
        file_count(entries.drop_last()) + match (entries.last().kind, entries.last().children) {
            (SourceKind::File(_), _) => 1,
            (SourceKind::Directory, Some(list)) => list@.filter(are_files()).len(),
            _ => 0,
        }
    }
}

/// As many files are found in a backup folder as there are in it and in its directories that can
/// be read: none is found twice.
pub proof fn law_files_are_counted(entries: Seq<FolderEntry>)
    ensures
        folder_files(entries).len() == file_count(entries),
    decreases entries.len(),
{
    if entries.len() > 0 {
        law_files_are_counted(entries.drop_last());
        match readable_dir(entries.last()) {
            Some(list) => {
                lemma_sub_file_count(list, entries.last().name@);
            },
            None => {},
        }
    }
}

/// As many files are found in a directory as there are in it.
proof fn lemma_sub_file_count(entries: Seq<SubEntry>, subdir: Seq<char>)
    ensures
        sub_files(entries, subdir).len() == entries.filter(are_files()).len(),
    decreases entries.len(),
{
    reveal(Seq::filter);
    if entries.len() > 0 {
        lemma_sub_file_count(entries.drop_last(), subdir);
    }
}

/// The sizes of files are summed up over all of them.
pub proof fn law_total_size(a: Seq<SourceView>, b: Seq<SourceView>, file: SourceView)
    ensures
        total_size(a + b) == total_size(a) + total_size(b),
        total_size(seq![file]) == file.size,
        total_size(Seq::empty()) == 0,
    decreases b.len(),
{
    if b.len() == 0 {
        assert(a + b =~= a);
        reveal_with_fuel(total_size, 2);
        assert(seq![file].drop_last() =~= Seq::empty() && seq![file].last() == file);
    } else {
        assert((a + b).drop_last() =~= a + b.drop_last());
        assert((a + b).last() == b.last());
        law_total_size(a, b.drop_last(), file);
    }
}

/// Sorted texts are the same texts, in their order.
pub proof fn law_sorted_texts(
    before: Seq<Seq<char>>,
    after: Seq<Seq<char>>,
    text: Seq<char>,
    i: int,
    j: int,
)
    requires
        is_sorted_texts(before, after),
    ensures
        after.len() == before.len(),
        after.contains(text) <==> before.contains(text),
        0 <= i < j < after.len() ==> !text_less(after[j], after[i]),
{
    let keys = text_keys(before);
    let order = choose|order: Seq<int>|
        #[trigger] is_sort_order(keys, false, order) && after == arranged(before, order);
    if before.contains(text) {
        let k = choose|k: int| 0 <= k < before.len() && before[k] == text;
        crate::order::law_sort_keeps_all(keys, false, order, k);
        let m = choose|m: int| 0 <= m < order.len() && order[m] == k;
        assert(after[m] == text);
    }
    if after.contains(text) {
        let m = choose|m: int| 0 <= m < after.len() && after[m] == text;
        assert(before[order[m]] == text);
    }
    if 0 <= i < j < after.len() {
        let (x, y) = (order[i], order[j]);
        assert(crate::order::goes_before(keys, false, x, y));
        assert(keys[x] == code_points(after[i]) && keys[y] == code_points(after[j]));
        crate::order::law_text_order(after[i], after[j], after[i]);
        crate::order::law_text_order(after[j], after[i], after[j]);
        crate::order::lemma_lex_total(keys[x], keys[y]);
    }
}

/// The model of a [`SourceFile`] has all that it holds, and that of a list has every item at its
/// place.
pub proof fn law_model_of_source_file(file: SourceFile, list: Seq<SourceFile>, i: int)
    ensures
        file@.name == file.name@,
        file@.subdir == optional_text(file.subdir),
        file@.size == file.size,
        source_views(list).len() == list.len(),
        0 <= i < list.len() ==> source_views(list)[i] == list[i]@,
{
}

} // verus!
