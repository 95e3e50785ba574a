//! Deleting and renaming the games on a device.

use crate::chunks::{
    chunk_parts,
    law_chunk_name_round_trip,
    law_chunk_parts,
    law_only_chunk_names,
    law_parts_are_not_empty,
    named_chunk,
    parse_chunk_name,
};
use crate::opl_crc::{crc32_hex, law_hex_form, name_crc_hex};
use crate::split::{chunk_file_name, chunk_name, iso_file_name};
use crate::text::{
    hex_upper,
    is_hex_digit,
    law_hex_reading,
    parse_hex,
    parse_hex_spec,
    same_text,
    texts,
    to_chars,
};
use crate::ulcfg::{
    encoded,
    entry_views,
    law_file_round_trip,
    law_shortened_name_fits,
    law_shortened_name_reads_back,
    law_written_entry_is_read,
    parse_ulcfg,
    parsed,
    record_entry,
    serialized,
    shorten_title,
    shortened,
    storable,
    write_ulcfg,
    EntryView,
    UlEntry,
    IMAGE_OFFSET,
    IMAGE_SIZE,
};
use vstd::prelude::*;
use vstd::string::StringExecFns;

verus! {

// ---------------------------------------------------------------- deleting

/// What deleting a game takes.
#[derive(Debug)]
pub enum DeletePlan {
    /// Deleting the image `file` in the directory `dir`.
    Image { dir: String, file: String },
    /// Deleting these files in the root directory, one after the other, then the game's entries
    /// in the game list.
    Chunks(Vec<String>),
}

/// What a [`DeletePlan`] holds.
pub enum DeletePlanView {
    Image { dir: Seq<char>, file: Seq<char> },
    Chunks(Seq<Seq<char>>),
}

impl View for DeletePlan {
    type V = DeletePlanView;

    open spec fn view(&self) -> DeletePlanView {
        match self {
            DeletePlan::Image { dir, file } => DeletePlanView::Image { dir: dir@, file: file@ },
            DeletePlan::Chunks(names) => DeletePlanView::Chunks(texts(names@)),
        }
    }
}

/// Whether a file is a chunk of a game.
pub open spec fn is_chunk_of(name: Seq<char>, id: Seq<char>) -> bool {
    chunk_parts(name) matches Some(parts) && parts.1 == id
}

/// The files that are chunks of a game.
pub open spec fn chunks_of(names: Seq<Seq<char>>, id: Seq<char>) -> Seq<Seq<char>>
    decreases names.len(),
{
    if names.len() == 0 {
        seq![]
    } else {
        let before = chunks_of(names.drop_last(), id);
        if is_chunk_of(names.last(), id) {
            before.push(names.last())
        } else {
            before
        }
    }
}

/// What deleting a game takes: its image in `location` where it is stored whole, else each of the
/// files `names` in the root directory that is a chunk of it, whatever the checksum in its name.
pub fn delete_game(game_id: &str, mode: &str, location: &str, names: &[String]) -> (plan: DeletePlan)
    ensures
        plan@ == (if mode@ == "nosplit"@ {
            DeletePlanView::Image { dir: location@, file: game_id@ + ".iso"@ }
        } else {
            DeletePlanView::Chunks(chunks_of(texts(names@), game_id@))
        }),
{
    if same_text(mode, "nosplit") {
        return DeletePlan::Image { dir: location.to_owned(), file: iso_file_name(game_id) };
    }
    let ghost all = texts(names@);
    let mut found: Vec<String> = Vec::new();
    let mut i: usize = 0;
    assert(texts(found@) =~= chunks_of(all.take(0), game_id@));
    while i < names.len()
        invariant
            i <= names.len(),
            all == texts(names@),
            texts(found@) == chunks_of(all.take(i as int), game_id@),
        decreases names.len() - i,
    {
        let ghost before = texts(found@);
        assert(all.take(i + 1).drop_last() =~= all.take(i as int));
        assert(all.take(i + 1).last() == names@[i as int]@);
        match parse_chunk_name(names[i].as_str()) {
            Some((_crc, id, _part)) => {
                if same_text(id.as_str(), game_id) {
                    found.push(names[i].clone());
                    assert(texts(found@) =~= before.push(names@[i as int]@));
                }
            },
            None => {},
        }
        i += 1;
    }
    assert(all.take(i as int) =~= all);
    DeletePlan::Chunks(found)
}

/// Deleting a split game deletes all its chunks and nothing else.
pub proof fn law_delete_takes_all_chunks(names: Seq<Seq<char>>, id: Seq<char>, name: Seq<char>)
    ensures
        chunks_of(names, id).contains(name) <==> names.contains(name) && is_chunk_of(name, id),
    decreases names.len(),
{
    if names.len() > 0 {
        let rest = names.drop_last();
        let before = chunks_of(rest, id);
        let all = chunks_of(names, id);
        law_delete_takes_all_chunks(rest, id, name);
        if names.contains(name) {
            let i = choose|i: int| 0 <= i < names.len() && names[i] == name;
            if i < rest.len() {
                assert(rest[i] == name);
            }
        }
        if rest.contains(name) {
            let i = choose|i: int| 0 <= i < rest.len() && rest[i] == name;
            assert(names[i] == name);
        }
        assert(names[names.len() - 1] == names.last());
        if before.contains(name) {
            let i = choose|i: int| 0 <= i < before.len() && before[i] == name;
            assert(all[i] == name);
        }
        if is_chunk_of(names.last(), id) {
            assert(all[before.len() as int] == names.last());
            if all.contains(name) {
                let i = choose|i: int| 0 <= i < all.len() && all[i] == name;
                if i < before.len() {
                    assert(before[i] == name);
                }
            }
        }
    }
}

// ---------------------------------------------------------------- renaming

/// The list with the name of each entry of a game changed.
pub open spec fn retitled(entries: Seq<EntryView>, id: Seq<char>, title: Seq<char>) -> Seq<
    EntryView,
> {
    Seq::new(
        entries.len(),
        |i: int|
            if entries[i].game_id == id {
                EntryView { title, ..entries[i] }
            } else {
                entries[i]
            },
    )
}

/// The name that the last entry of a game has; nothing where there is no entry.
pub open spec fn title_of(entries: Seq<EntryView>, id: Seq<char>) -> Option<Seq<char>>
    decreases entries.len(),
{
    if entries.len() == 0 {
        None
    } else if entries.last().game_id == id {
        Some(entries.last().title)
    } else {
        title_of(entries.drop_last(), id)
    }
}

/// The number of a part; zero where it is none.
pub open spec fn part_number(part: Seq<char>) -> u32 {
    match parse_hex_spec(part) {
        Some(n) => n,
        None => 0,
    }
}

/// The new name of a chunk file; nothing where it is no chunk of the game with the old checksum.
pub open spec fn new_chunk_name(
    name: Seq<char>,
    id: Seq<char>,
    old_crc: Seq<char>,
    new_crc: Seq<char>,
) -> Option<Seq<char>> {
    match chunk_parts(name) {
        Some(parts) => if parts.1 == id && parts.0 == old_crc {
            Some(chunk_name(new_crc, id, part_number(parts.2)))
        } else {
            None
        },
        None => None,
    }
}

/// The chunk files to rename, each with its new name.
pub open spec fn renames(
    names: Seq<Seq<char>>,
    id: Seq<char>,
    old_crc: Seq<char>,
    new_crc: Seq<char>,
) -> Seq<(Seq<char>, Seq<char>)>
    decreases names.len(),
{
    if names.len() == 0 {
        seq![]
    } else {
        let before = renames(names.drop_last(), id, old_crc, new_crc);
        match new_chunk_name(names.last(), id, old_crc, new_crc) {
            Some(new) => before.push((names.last(), new)),
            None => before,
        }
    }
}

/// The texts of some pairs.
pub open spec fn pair_views(pairs: Seq<(String, String)>) -> Seq<(Seq<char>, Seq<char>)> {
    Seq::new(pairs.len(), |i: int| (pairs[i].0@, pairs[i].1@))
}

/// What renaming a game takes: renaming these chunk files, where the new name is free, then
/// writing this game list.
#[derive(Debug)]
pub struct RenamePlan {
    pub pairs: Vec<(String, String)>,
    pub data: Vec<u8>,
}

/// The chunk files to rename when a game is renamed: none where the names have one checksum.
pub open spec fn planned_renames(
    names: Seq<Seq<char>>,
    id: Seq<char>,
    old_title: Seq<char>,
    new_title: Seq<char>,
) -> Seq<(Seq<char>, Seq<char>)> {
    if name_crc_hex(old_title) == name_crc_hex(new_title) {
        seq![]
    } else {
        renames(names, id, name_crc_hex(old_title), name_crc_hex(new_title))
    }
}

/// Changes the name of each entry of a game, and gives the name that the last of them had.
fn retitle(entries: &mut Vec<UlEntry>, game_id: &str, new_title: &str) -> (old_title: Option<
    String,
>)
    ensures
        entry_views(final(entries)@) == retitled(entry_views(old(entries)@), game_id@, new_title@),
        crate::text::optional_text(old_title) == title_of(entry_views(old(entries)@), game_id@),
{
    let ghost all = entry_views(entries@);
    let mut old_title: Option<String> = None;
    let mut i: usize = 0;
    assert(title_of(all.take(0), game_id@) is None);
    while i < entries.len()
        invariant
            i <= entries.len(),
            entries.len() == all.len(),
            all == entry_views(old(entries)@),
            forall|k: int|
                0 <= k < i ==> (#[trigger] entries@[k])@ == retitled(all, game_id@, new_title@)[k],
            forall|k: int| i <= k < entries.len() ==> (#[trigger] entries@[k])@ == all[k],
            crate::text::optional_text(old_title) == title_of(all.take(i as int), game_id@),
        decreases entries.len() - i,
    {
        assert(all.take(i + 1).drop_last() =~= all.take(i as int));
        assert(all.take(i + 1).last() == entries@[i as int]@);
        if same_text(entries[i].game_id.as_str(), game_id) {
            old_title = Some(entries[i].title.clone());
            let entry = UlEntry {
                title: new_title.to_owned(),
                game_id: entries[i].game_id.clone(),
                parts: entries[i].parts,
                media: entries[i].media,
                mount_point: entries[i].mount_point.clone(),
            };
            entries.set(i, entry);
        }
        i += 1;
    }
    assert(all.take(i as int) =~= all);
    assert(entry_views(entries@) =~= retitled(all, game_id@, new_title@));
    old_title
}

/// The chunk files to rename, each with its new name.
fn collect_renames(names: &[String], game_id: &str, old_crc: &str, new_crc: &str) -> (pairs: Vec<
    (String, String),
>)
    ensures
        pair_views(pairs@) == renames(texts(names@), game_id@, old_crc@, new_crc@),
{
    let ghost all = texts(names@);
    let mut pairs: Vec<(String, String)> = Vec::new();
    let mut i: usize = 0;
    assert(pair_views(pairs@) =~= renames(all.take(0), game_id@, old_crc@, new_crc@));
    while i < names.len()
        invariant
            i <= names.len(),
            all == texts(names@),
            pair_views(pairs@) == renames(all.take(i as int), game_id@, old_crc@, new_crc@),
        decreases names.len() - i,
    {
        let ghost before = pair_views(pairs@);
        assert(all.take(i + 1).drop_last() =~= all.take(i as int));
        assert(all.take(i + 1).last() == names@[i as int]@);
        match parse_chunk_name(names[i].as_str()) {
            Some((crc, id, part)) => {
                if same_text(id.as_str(), game_id) && same_text(crc.as_str(), old_crc) {
                    let number: u32 = match parse_hex(to_chars(part.as_str()).as_slice()) {
                        Some(n) => n,
                        None => 0,
                    };
                    let pair = (names[i].clone(), chunk_file_name(new_crc, game_id, number));
                    pairs.push(pair);
                    assert(pair_views(pairs@) =~= before.push((pair.0@, pair.1@)));
                }
            },
            None => {},
        }
        i += 1;
    }
    assert(all.take(i as int) =~= all);
    pairs
}

/// What renaming a game takes. The new name is cut to what the game list gives back of it, and
/// the chunks are named after that. `data` is the game list where there is one, and `names` are
/// the files in the root directory.
pub fn rename_game(
    game_id: &str,
    mode: &str,
    new_title: &str,
    data: Option<&[u8]>,
    names: &[String],
) -> (r: Result<RenamePlan, String>)
    ensures
        match r {
            Ok(plan) => mode@ == "split"@ && (data matches Some(bytes) && (title_of(
                parsed(bytes@),
                game_id@,
            ) matches Some(old_title) && pair_views(plan.pairs@) == planned_renames(
                texts(names@),
                game_id@,
                old_title,
                shortened(new_title@),
            ) && plan.data@ == serialized(
                retitled(parsed(bytes@), game_id@, shortened(new_title@)),
            ))),
            Err(e) => if mode@ != "split"@ {
                e@ == "Rename is only supported for split-mode games (ul.cfg)"@
            } else {
                match data {
                    None => e@ == "ul.cfg not found"@,
                    Some(bytes) => title_of(parsed(bytes@), game_id@) is None && e@ == "Game "@
                        + game_id@ + " not found in ul.cfg"@,
                }
            },
        },
{
    if !same_text(mode, "split") {
        return Err("Rename is only supported for split-mode games (ul.cfg)".to_owned());
    }
    let bytes = match data {
        Some(bytes) => bytes,
        None => {
            return Err("ul.cfg not found".to_owned());
        },
    };
    let mut entries = parse_ulcfg(bytes);
    let title = shorten_title(new_title);
    match retitle(&mut entries, game_id, title.as_str()) {
        Some(old_title) => {
            let old_crc = crc32_hex(old_title.as_str());
            let new_crc = crc32_hex(title.as_str());
            let pairs = if same_text(old_crc.as_str(), new_crc.as_str()) {
                let none: Vec<(String, String)> = Vec::new();
                assert(pair_views(none@) =~= seq![]);
                none
            } else {
                collect_renames(names, game_id, old_crc.as_str(), new_crc.as_str())
            };
            Ok(RenamePlan { pairs, data: write_ulcfg(entries.as_slice()) })
        },
        None => Err("Game ".to_owned().concat(game_id).concat(" not found in ul.cfg")),
    }
}

// ---------------------------------------------------------------- carrying out the renames

/// The pairs whose new name is free.
pub open spec fn free_pairs(pairs: Seq<(Seq<char>, Seq<char>)>, taken: Seq<bool>) -> Seq<
    (Seq<char>, Seq<char>),
>
    decreases pairs.len(),
{
    if pairs.len() == 0 {
        seq![]
    } else {
        let before = free_pairs(pairs.drop_last(), taken.drop_last());
        if taken.last() {
            before
        } else {
            before.push(pairs.last())
        }
    }
}

/// Renames on their way.
pub struct RenameRun {
    pairs: Vec<(String, String)>,
    done: usize,
}

/// What a [`RenameRun`] holds.
#[verifier::ext_equal]
pub struct RenameRunView {
    /// All renames.
    pub pairs: Seq<(Seq<char>, Seq<char>)>,
    /// How many of them are done.
    pub done: nat,
}

impl RenameRunView {
    /// No more are done than there are.
    pub open spec fn wf(self) -> bool {
        self.done <= self.pairs.len()
    }
}

impl View for RenameRun {
    type V = RenameRunView;

    closed spec fn view(&self) -> RenameRunView {
        RenameRunView { pairs: pair_views(self.pairs@), done: self.done as nat }
    }
}

impl RenameRun {
    /// Begins with those of the pairs whose new name is free; `taken` says of each whether there
    /// is a file of that name.
    pub fn start(pairs: Vec<(String, String)>, taken: &[bool]) -> (run: RenameRun)
        requires
            pairs@.len() == taken@.len(),
        ensures
            run@.wf(),
            run@ == (RenameRunView { pairs: free_pairs(pair_views(pairs@), taken@), done: 0 }),
    {
        let ghost all = pair_views(pairs@);
        let mut free: Vec<(String, String)> = Vec::new();
        let mut i: usize = 0;
        assert(pair_views(free@) =~= free_pairs(all.take(0), taken@.take(0)));
        while i < taken.len()
            invariant
                i <= taken.len(),
                pairs@.len() == taken@.len(),
                all == pair_views(pairs@),
                pair_views(free@) == free_pairs(all.take(i as int), taken@.take(i as int)),
            decreases taken.len() - i,
        {
            let ghost before = pair_views(free@);
            assert(all.take(i + 1).drop_last() =~= all.take(i as int));
            assert(all.take(i + 1).last() == all[i as int]);
            assert(taken@.take(i + 1).drop_last() =~= taken@.take(i as int));
            assert(taken@.take(i + 1).last() == taken@[i as int]);
            if !taken[i] {
                let pair = (pairs[i].0.clone(), pairs[i].1.clone());
                free.push(pair);
                assert(pair_views(free@) =~= before.push((pair.0@, pair.1@)));
            }
            i += 1;
        }
        assert(all.take(i as int) =~= all);
        assert(taken@.take(i as int) =~= taken@);
        RenameRun { pairs: free, done: 0 }
    }

    /// The next rename; nothing once all are done.
    pub fn next_rename(&self) -> (pair: Option<(String, String)>)
        requires
            self@.wf(),
        ensures
            match pair {
                Some(p) => self@.done < self@.pairs.len() && (p.0@, p.1@)
                    == self@.pairs[self@.done as int],
                None => self@.done == self@.pairs.len(),
            },
    {
        if self.done < self.pairs.len() {
            let k: usize = self.done;
            Some((self.pairs[k].0.clone(), self.pairs[k].1.clone()))
        } else {
            None
        }
    }

    /// The next rename has been done.
    pub fn renamed(&mut self)
        requires
            old(self)@.wf(),
            old(self)@.done < old(self)@.pairs.len(),
        ensures
            final(self)@.wf(),
            final(self)@ == (RenameRunView { done: old(self)@.done + 1, ..old(self)@ }),
    {
        assert(self.done < self.pairs.len());
        self.done = self.done + 1;
    }

    /// The next rename has failed for this reason: the renames that undo those done, in the order
    /// in which they were done, and the error.
    pub fn failed(self, reason: &str) -> (r: (Vec<(String, String)>, String))
        requires
            self@.wf(),
            self@.done < self@.pairs.len(),
        ensures
            pair_views(r.0@) == undoing(self@.pairs.take(self@.done as int)),
            r.1@ == "Failed to rename "@ + self@.pairs[self@.done as int].0 + ": "@ + reason@
                + ". All changes rolled back."@,
    {
        let mut back: Vec<(String, String)> = Vec::new();
        let ghost done = self@.pairs.take(self.done as int);
        let mut i: usize = 0;
        while i < self.done
            invariant
                i <= self.done,
                self@.wf(),
                done == self@.pairs.take(self.done as int),
                pair_views(back@) == undoing(done).take(i as int),
            decreases self.done - i,
        {
            let ghost before = pair_views(back@);
            let pair = (self.pairs[i].1.clone(), self.pairs[i].0.clone());
            back.push(pair);
            assert(pair_views(back@) =~= before.push((pair.0@, pair.1@)));
            i += 1;
        }
        assert(pair_views(back@) =~= undoing(done));
        let k: usize = self.done;
        let message = "Failed to rename ".to_owned().concat(self.pairs[k].0.as_str()).concat(
            ": ",
        ).concat(reason).concat(". All changes rolled back.");
        (back, message)
    }
}

/// The renames that undo some, in their order.
pub open spec fn undoing(pairs: Seq<(Seq<char>, Seq<char>)>) -> Seq<(Seq<char>, Seq<char>)> {
    Seq::new(pairs.len(), |i: int| (pairs[i].1, pairs[i].0))
}

// ---------------------------------------------------------------- laws

/// A directory, as what each name in it stands for, after a rename.
pub open spec fn rename_in<T>(
    dir: Map<Seq<char>, T>,
    pair: (Seq<char>, Seq<char>),
) -> Map<Seq<char>, T> {
    dir.remove(pair.0).insert(pair.1, dir[pair.0])
}

/// A directory after some renames.
pub open spec fn renamed_dir<T>(
    dir: Map<Seq<char>, T>,
    pairs: Seq<(Seq<char>, Seq<char>)>,
) -> Map<Seq<char>, T>
    decreases pairs.len(),
{
    if pairs.len() == 0 {
        dir
    } else {
        rename_in(renamed_dir(dir, pairs.drop_last()), pairs.last())
    }
}

/// Renames of different files in the directory to different names that are free.
pub open spec fn separate<T>(
    dir: Map<Seq<char>, T>,
    pairs: Seq<(Seq<char>, Seq<char>)>,
) -> bool {
    &&& forall|i: int| 0 <= i < pairs.len() ==> dir.dom().contains((#[trigger] pairs[i]).0)
    &&& forall|i: int| 0 <= i < pairs.len() ==> !dir.dom().contains((#[trigger] pairs[i]).1)
    &&& forall|i: int, j: int|
        0 <= i < j < pairs.len() ==> (#[trigger] pairs[i]).0 != (#[trigger] pairs[j]).0
            && pairs[i].1 != pairs[j].1
}

/// A directory after renames of different files to different free names.
proof fn lemma_renamed_dir<T>(dir: Map<Seq<char>, T>, pairs: Seq<(Seq<char>, Seq<char>)>)
    requires
        separate(dir, pairs),
    ensures
        forall|i: int|
            0 <= i < pairs.len() ==> !renamed_dir(dir, pairs).dom().contains(
                (#[trigger] pairs[i]).0,
            ),
        forall|i: int|
            0 <= i < pairs.len() ==> renamed_dir(dir, pairs).dom().contains((#[trigger] pairs[i]).1)
                && renamed_dir(dir, pairs)[pairs[i].1] == dir[pairs[i].0],
        forall|name: Seq<char>|
            (forall|i: int|
                0 <= i < pairs.len() ==> (#[trigger] pairs[i]).0 != name && pairs[i].1 != name)
                ==> (#[trigger] renamed_dir(dir, pairs).dom().contains(name)
                == dir.dom().contains(name)) && renamed_dir(dir, pairs)[name] == dir[name],
    decreases pairs.len(),
{
    if pairs.len() > 0 {
        let rest = pairs.drop_last();
        let last = pairs.last();
        assert forall|i: int| 0 <= i < rest.len() implies rest[i] == pairs[i] by {}
        lemma_renamed_dir(dir, rest);
        let mid = renamed_dir(dir, rest);
        assert(pairs[pairs.len() - 1] == last);
        assert(forall|i: int|
            0 <= i < rest.len() ==> (#[trigger] rest[i]).0 != last.0 && rest[i].1 != last.0) by {
            assert forall|i: int| 0 <= i < rest.len() implies (#[trigger] rest[i]).0 != last.0
                && rest[i].1 != last.0 by {
                assert(rest[i] == pairs[i]);
            }
        }
        assert(mid.dom().contains(last.0) == dir.dom().contains(last.0));
        assert(mid[last.0] == dir[last.0]);
        let end = renamed_dir(dir, pairs);
        assert(end == mid.remove(last.0).insert(last.1, mid[last.0]));
        assert forall|i: int| 0 <= i < pairs.len() implies !end.dom().contains(
            (#[trigger] pairs[i]).0,
        ) by {
            if i < rest.len() {
                assert(rest[i] == pairs[i]);
            }
        }
        assert forall|i: int| 0 <= i < pairs.len() implies end.dom().contains(
            (#[trigger] pairs[i]).1,
        ) && end[pairs[i].1] == dir[pairs[i].0] by {
            if i < rest.len() {
                assert(rest[i] == pairs[i]);
                assert(pairs[i].1 != last.0);
            }
        }
        assert forall|name: Seq<char>|
            (forall|i: int|
                0 <= i < pairs.len() ==> (#[trigger] pairs[i]).0 != name && pairs[i].1
                    != name) implies (#[trigger] end.dom().contains(name) == dir.dom().contains(
            name,
        )) && end[name] == dir[name] by {
            assert(forall|i: int|
                0 <= i < rest.len() ==> (#[trigger] rest[i]).0 != name && rest[i].1 != name) by {
                assert forall|i: int| 0 <= i < rest.len() implies (#[trigger] rest[i]).0 != name
                    && rest[i].1 != name by {
                    assert(rest[i] == pairs[i]);
                }
            }
            assert(mid.dom().contains(name) == dir.dom().contains(name));
            assert(pairs[pairs.len() - 1].0 != name);
        }
    }
}

/// Rolling back leaves the directory as it was: undoing the renames done gives every file its old
/// name again, where they went to different names that were free.
pub proof fn law_rollback_restores<T>(dir: Map<Seq<char>, T>, pairs: Seq<(Seq<char>, Seq<char>)>)
    requires
        separate(dir, pairs),
    ensures
        renamed_dir(renamed_dir(dir, pairs), undoing(pairs)) =~= dir,
{
    let there = renamed_dir(dir, pairs);
    let back = undoing(pairs);
    lemma_renamed_dir(dir, pairs);
    assert(separate(there, back)) by {
        assert forall|i: int| 0 <= i < back.len() implies there.dom().contains(
            (#[trigger] back[i]).0,
        ) by {
            assert(back[i] == (pairs[i].1, pairs[i].0));
        }
        assert forall|i: int| 0 <= i < back.len() implies !there.dom().contains(
            (#[trigger] back[i]).1,
        ) by {
            assert(back[i] == (pairs[i].1, pairs[i].0));
        }
        assert forall|i: int, j: int| 0 <= i < j < back.len() implies (#[trigger] back[i]).0 != (
        #[trigger] back[j]).0 && back[i].1 != back[j].1 by {
            assert(back[i] == (pairs[i].1, pairs[i].0));
            assert(back[j] == (pairs[j].1, pairs[j].0));
        }
    }
    lemma_renamed_dir(there, back);
    let end = renamed_dir(there, back);
    assert forall|name: Seq<char>| end.dom().contains(name) == dir.dom().contains(name) && (
    dir.dom().contains(name) ==> end[name] == dir[name]) by {
        if exists|i: int| 0 <= i < pairs.len() && (#[trigger] pairs[i]).0 == name {
            let i = choose|i: int| 0 <= i < pairs.len() && (#[trigger] pairs[i]).0 == name;
            assert(back[i].1 == name);
            assert(back[i].0 == pairs[i].1);
        } else if exists|i: int| 0 <= i < pairs.len() && (#[trigger] pairs[i]).1 == name {
            let i = choose|i: int| 0 <= i < pairs.len() && (#[trigger] pairs[i]).1 == name;
            assert(back[i].0 == name);
        } else {
            assert(forall|i: int|
                0 <= i < back.len() ==> (#[trigger] back[i]).0 != name && back[i].1 != name) by {
                assert forall|i: int| 0 <= i < back.len() implies (#[trigger] back[i]).0 != name
                    && back[i].1 != name by {
                    assert(back[i] == (pairs[i].1, pairs[i].0));
                    assert(pairs[i].0 != name && pairs[i].1 != name);
                }
            }
            assert(there.dom().contains(name) == dir.dom().contains(name));
        }
    }
}

/// A chunk file is renamed to a chunk of the same game with the checksum of the new name and the
/// same number: the loader finds it under the new name.
pub proof fn law_renamed_chunk(
    name: Seq<char>,
    id: Seq<char>,
    old_title: Seq<char>,
    new_title: Seq<char>,
)
    requires
        new_chunk_name(name, id, name_crc_hex(old_title), name_crc_hex(new_title)) is Some,
    ensures
        ({
            let new = new_chunk_name(
                name,
                id,
                name_crc_hex(old_title),
                name_crc_hex(new_title),
            )->0;
            chunk_parts(new) matches Some(parts) && parts.0 == name_crc_hex(new_title) && parts.1
                == id && part_number(parts.2) == part_number((chunk_parts(name)->0).2)
        }),
{
    let parts = chunk_parts(name)->0;
    let crc = name_crc_hex(new_title);
    let number = part_number(parts.2);
    law_hex_form(new_title);
    assert(!crc.contains('.')) by {
        if crc.contains('.') {
            let i = choose|i: int| 0 <= i < crc.len() && crc[i] == '.';
            assert(crc[i] == '.');
        }
    }
    law_parts_are_not_empty(name);
    law_chunk_name_round_trip(crc, id, number);
    crate::text::law_hex_round_trip(number, 2);
}

/// The name that the loader reads in the list of a renamed game hashes to the checksum that its
/// chunks are then named by.
pub proof fn law_renamed_name_hashes_to_chunks(
    entries: Seq<EntryView>,
    id: Seq<char>,
    new_title: Seq<char>,
    i: int,
)
    requires
        0 <= i < entries.len(),
        entries[i].game_id == id,
    ensures
        name_crc_hex(
            record_entry(encoded(retitled(entries, id, shortened(new_title))[i])).title,
        ) == name_crc_hex(shortened(new_title)),
{
    law_shortened_name_reads_back(retitled(entries, id, shortened(new_title))[i], new_title);
}

/// A renamed game is listed in the new file under the name that hashes to the checksum of its
/// chunks, unless its new name is empty.
pub proof fn law_renamed_game_is_listed(
    entries: Seq<EntryView>,
    id: Seq<char>,
    new_title: Seq<char>,
    i: int,
)
    requires
        0 <= i < entries.len(),
        entries[i].game_id == id,
        shortened(new_title).len() > 0,
    ensures
        ({
            let after = parsed(serialized(retitled(entries, id, shortened(new_title))));
            exists|k: int|
                0 <= k < after.len() && (#[trigger] after[k]).title == shortened(new_title)
                    && after[k].game_id == record_entry(encoded(entries[i])).game_id
        }),
{
    let list = retitled(entries, id, shortened(new_title));
    let read = record_entry(encoded(list[i]));
    law_shortened_name_reads_back(list[i], new_title);
    assert(read.game_id == record_entry(encoded(entries[i])).game_id) by {
        let (a, b) = (encoded(list[i]), encoded(entries[i]));
        assert(a.subrange(IMAGE_OFFSET as int, IMAGE_OFFSET + IMAGE_SIZE) =~= b.subrange(
            IMAGE_OFFSET as int,
            IMAGE_OFFSET + IMAGE_SIZE,
        ));
    }
    law_written_entry_is_read(list, i);
    let after = parsed(serialized(list));
    let k = choose|k: int| 0 <= k < after.len() && after[k] == read;
    assert(after[k].title == shortened(new_title));
}

/// Renaming carries each chunk from the name that the loader looks for under the old name of the
/// game to the one that it looks for under the new name.
pub proof fn law_rename_carries_chunks(
    id: Seq<char>,
    old_title: Seq<char>,
    new_title: Seq<char>,
    part: u32,
)
    requires
        id.len() > 0,
    ensures
        new_chunk_name(
            chunk_name(name_crc_hex(old_title), id, part),
            id,
            name_crc_hex(old_title),
            name_crc_hex(new_title),
        ) == Some(chunk_name(name_crc_hex(new_title), id, part)),
{
    let crc = name_crc_hex(old_title);
    law_hex_form(old_title);
    assert(!crc.contains('.')) by {
        if crc.contains('.') {
            let i = choose|i: int| 0 <= i < crc.len() && crc[i] == '.';
            assert(crc[i] == '.');
        }
    }
    law_chunk_name_round_trip(crc, id, part);
    crate::text::law_hex_round_trip(part, 2);
}

/// Every chunk of the game with the old checksum is to be renamed.
pub proof fn law_no_chunk_is_left(
    names: Seq<Seq<char>>,
    id: Seq<char>,
    old_crc: Seq<char>,
    new_crc: Seq<char>,
    i: int,
)
    requires
        0 <= i < names.len(),
        new_chunk_name(names[i], id, old_crc, new_crc) is Some,
    ensures
        renames(names, id, old_crc, new_crc).contains(
            (names[i], new_chunk_name(names[i], id, old_crc, new_crc)->0),
        ),
    decreases names.len(),
{
    let rest = names.drop_last();
    let before = renames(rest, id, old_crc, new_crc);
    let after = renames(names, id, old_crc, new_crc);
    let pair = (names[i], new_chunk_name(names[i], id, old_crc, new_crc)->0);
    if i < rest.len() {
        assert(rest[i] == names[i]);
        law_no_chunk_is_left(rest, id, old_crc, new_crc, i);
        let k = choose|k: int| 0 <= k < before.len() && before[k] == pair;
        assert(after[k] == pair);
    } else {
        assert(after[after.len() - 1] == pair);
    }
}

/// Where the files to rename come from: each is one of the files, and they keep their order.
proof fn lemma_renames_source(
    names: Seq<Seq<char>>,
    id: Seq<char>,
    old_crc: Seq<char>,
    new_crc: Seq<char>,
) -> (source: Seq<int>)
    ensures
        source.len() == renames(names, id, old_crc, new_crc).len(),
        forall|i: int|
            0 <= i < source.len() ==> {
                let pair = renames(names, id, old_crc, new_crc)[i];
                &&& 0 <= #[trigger] source[i] < names.len()
                &&& pair.0 == names[source[i]]
                &&& new_chunk_name(pair.0, id, old_crc, new_crc) == Some(pair.1)
            },
        forall|i: int, j: int| 0 <= i < j < source.len() ==> source[i] < source[j],
    decreases names.len(),
{
    if names.len() == 0 {
        Seq::empty()
    } else {
        let rest = names.drop_last();
        let before = lemma_renames_source(rest, id, old_crc, new_crc);
        match new_chunk_name(names.last(), id, old_crc, new_crc) {
            Some(_) => before.push(names.len() - 1),
            None => before,
        }
    }
}

/// Where the pairs whose new name is free come from.
proof fn lemma_free_source(pairs: Seq<(Seq<char>, Seq<char>)>, taken: Seq<bool>) -> (source: Seq<
    int,
>)
    requires
        pairs.len() == taken.len(),
    ensures
        source.len() == free_pairs(pairs, taken).len(),
        forall|i: int|
            0 <= i < source.len() ==> 0 <= #[trigger] source[i] < pairs.len()
                && !taken[source[i]] && free_pairs(pairs, taken)[i] == pairs[source[i]],
        forall|i: int, j: int| 0 <= i < j < source.len() ==> source[i] < source[j],
    decreases pairs.len(),
{
    if pairs.len() == 0 {
        Seq::empty()
    } else {
        let before = lemma_free_source(pairs.drop_last(), taken.drop_last());
        if taken.last() {
            before
        } else {
            before.push(pairs.len() - 1)
        }
    }
}

/// Whether no two of the files are chunks of the game with this checksum and the same number.
pub open spec fn numbered_apart(names: Seq<Seq<char>>, id: Seq<char>, crc: Seq<char>) -> bool {
    forall|i: int, j: int|
        0 <= i < j < names.len() && (#[trigger] chunk_parts(names[i]) matches Some(a) && a.0 == crc
            && a.1 == id) && (#[trigger] chunk_parts(names[j]) matches Some(b) && b.0 == crc && b.1
            == id) ==> part_number((chunk_parts(names[i])->0).2) != part_number(
            (chunk_parts(names[j])->0).2,
        )
}

/// A rename of a game that fails leaves the directory as it was: however many of its chunks have
/// been renamed, undoing that gives every file its old name again. `names` are the files of the
/// directory, each once, and no two chunks of the game have the same number: of two that have,
/// the second takes the place of the first.
pub proof fn law_failed_rename_changes_nothing<T>(
    dir: Map<Seq<char>, T>,
    names: Seq<Seq<char>>,
    id: Seq<char>,
    old_title: Seq<char>,
    new_title: Seq<char>,
    taken: Seq<bool>,
    done: int,
)
    requires
        names.no_duplicates(),
        forall|name: Seq<char>| dir.dom().contains(name) <==> names.contains(name),
        numbered_apart(names, id, name_crc_hex(old_title)),
        taken.len() == planned_renames(names, id, old_title, new_title).len(),
        forall|i: int|
            0 <= i < taken.len() ==> #[trigger] taken[i] == dir.dom().contains(
                planned_renames(names, id, old_title, new_title)[i].1,
            ),
        0 <= done <= free_pairs(planned_renames(names, id, old_title, new_title), taken).len(),
    ensures
        ({
            let pairs = free_pairs(
                planned_renames(names, id, old_title, new_title),
                taken,
            ).take(done);
            renamed_dir(renamed_dir(dir, pairs), undoing(pairs)) =~= dir
        }),
{
    let old_crc = name_crc_hex(old_title);
    let new_crc = name_crc_hex(new_title);
    let plan = planned_renames(names, id, old_title, new_title);
    let free = free_pairs(plan, taken);
    let pairs = free.take(done);
    let from_plan = lemma_free_source(plan, taken);
    if old_crc == new_crc {
        assert(free.len() == 0);
        assert(separate(dir, pairs));
    } else {
        let from_names = lemma_renames_source(names, id, old_crc, new_crc);
        assert forall|i: int| 0 <= i < pairs.len() implies dir.dom().contains(
            (#[trigger] pairs[i]).0,
        ) && !dir.dom().contains(pairs[i].1) by {
            let k = from_plan[i];
            assert(pairs[i] == plan[k]);
            assert(taken[k] == dir.dom().contains(plan[k].1));
            assert(names[from_names[k]] == plan[k].0);
            assert(names.contains(plan[k].0));
        }
        assert forall|i: int, j: int| 0 <= i < j < pairs.len() implies (#[trigger] pairs[i]).0 != (
        #[trigger] pairs[j]).0 && pairs[i].1 != pairs[j].1 by {
            let (k, m) = (from_plan[i], from_plan[j]);
            assert(k < m);
            let (a, b) = (from_names[k], from_names[m]);
            assert(a < b);
            assert(pairs[i] == plan[k] && pairs[j] == plan[m]);
            assert(names[a] == plan[k].0 && names[b] == plan[m].0);
            assert(chunk_parts(names[a]) is Some && chunk_parts(names[b]) is Some);
            let p = part_number((chunk_parts(names[a])->0).2);
            let q = part_number((chunk_parts(names[b])->0).2);
            assert(p != q);
            if plan[k].1 == plan[m].1 {
                crate::split::law_part_names_differ(new_crc, id, p, q);
            }
        }
        assert(separate(dir, pairs));
    }
    law_rollback_restores(dir, pairs);
}

/// Renaming a game changes the name of each of its entries and nothing else: every entry stays at
/// its place with its game id, its number of parts, its media type and its mount point, and every
/// other entry keeps its name too.
pub proof fn law_rename_changes_only_names(
    entries: Seq<EntryView>,
    id: Seq<char>,
    title: Seq<char>,
    i: int,
)
    requires
        0 <= i < entries.len(),
    ensures
        retitled(entries, id, title).len() == entries.len(),
        retitled(entries, id, title)[i].game_id == entries[i].game_id,
        retitled(entries, id, title)[i].parts == entries[i].parts,
        retitled(entries, id, title)[i].media == entries[i].media,
        retitled(entries, id, title)[i].mount_point == entries[i].mount_point,
        entries[i].game_id == id ==> retitled(entries, id, title)[i].title == title,
        entries[i].game_id != id ==> retitled(entries, id, title)[i].title == entries[i].title,
{
}

/// The list that renaming a game leaves is read back with as many entries as before, each at its
/// place with its game id, its number of parts and its media type, under the new name where it is
/// an entry of the game and under its old name elsewhere.
pub proof fn law_renamed_list_reads_back(
    data: Seq<u8>,
    id: Seq<char>,
    new_title: Seq<char>,
    i: int,
)
    requires
        forall|k: int| 0 <= k < parsed(data).len() ==> storable(#[trigger] parsed(data)[k]),
        shortened(new_title).len() > 0,
        0 <= i < parsed(data).len(),
    ensures
        ({
            let before = parsed(data);
            let after = parsed(serialized(retitled(before, id, shortened(new_title))));
            &&& after.len() == before.len()
            &&& after[i].game_id == before[i].game_id
            &&& after[i].parts == before[i].parts
            &&& before[i].media == 0x12 || before[i].media == 0x14 ==> after[i].media
                == before[i].media
            &&& after[i].title == (if before[i].game_id == id {
                shortened(new_title)
            } else {
                before[i].title
            })
        }),
{
    let before = parsed(data);
    let list = retitled(before, id, shortened(new_title));
    law_shortened_name_fits(new_title);
    assert forall|k: int| 0 <= k < list.len() implies storable(#[trigger] list[k]) by {
        assert(storable(before[k]));
    }
    law_file_round_trip(list);
    crate::ulcfg::lemma_parts_fit_a_byte(data, i);
}

/// A game has the name of the last of its entries.
pub proof fn law_title_of(a: Seq<EntryView>, entry: EntryView, b: Seq<EntryView>, id: Seq<char>)
    requires
        forall|i: int| 0 <= i < b.len() ==> (#[trigger] b[i]).game_id != id,
    ensures
        entry.game_id == id ==> title_of(a.push(entry) + b, id) == Some(entry.title),
        title_of(b, id) is None,
    decreases b.len(),
{
    let list = a.push(entry) + b;
    if b.len() == 0 {
        assert(list.last() == entry);
    } else {
        assert(list.drop_last() =~= a.push(entry) + b.drop_last());
        assert(list.last() == b.last());
        assert(b.last() == b[b.len() - 1]);
        assert forall|i: int| 0 <= i < b.drop_last().len() implies (
        #[trigger] b.drop_last()[i]).game_id != id by {
            assert(b.drop_last()[i] == b[i]);
        }
        law_title_of(a, entry, b.drop_last(), id);
    }
}

/// The chunks to delete are found in their order over all files of a directory, each file once.
pub proof fn law_chunks_to_delete(a: Seq<Seq<char>>, b: Seq<Seq<char>>, id: Seq<char>)
    ensures
        chunks_of(a + b, id) == chunks_of(a, id) + chunks_of(b, id),
        chunks_of(Seq::empty(), id) == Seq::<Seq<char>>::empty(),
    decreases b.len(),
{
    if b.len() == 0 {
        assert(a + b =~= a);
        assert(chunks_of(a, id) + chunks_of(b, id) =~= chunks_of(a, id));
    } else {
        assert((a + b).drop_last() =~= a + b.drop_last());
        assert((a + b).last() == b.last());
        law_chunks_to_delete(a, b.drop_last(), id);
        assert(chunks_of(a + b, id) =~= chunks_of(a, id) + chunks_of(b, id));
    }
}

/// A file `ul.<checksum>.<game id>.<part>` is deleted with the game of that id, whatever its
/// checksum, and with no other game; no file of another form is deleted.
pub proof fn law_chunk_to_delete(
    crc: Seq<char>,
    id: Seq<char>,
    part: Seq<char>,
    other: Seq<char>,
    name: Seq<char>,
)
    requires
        crc.len() > 0,
        !crc.contains('.'),
        id.len() > 0,
        !part.contains('.'),
    ensures
        chunks_of(seq!["ul."@ + crc + "."@ + id + "."@ + part], id) == seq![
            "ul."@ + crc + "."@ + id + "."@ + part,
        ],
        other != id ==> chunks_of(
            seq!["ul."@ + crc + "."@ + id + "."@ + part],
            other,
        ).len() == 0,
        (forall|c: Seq<char>, p: Seq<char>| name != #[trigger] named_chunk(c, id, p)) ==> chunks_of(
            seq![name],
            id,
        ).len() == 0,
{
    let chunk = "ul."@ + crc + "."@ + id + "."@ + part;
    law_chunk_parts(crc, id, part);
    reveal_with_fuel(chunks_of, 2);
    let none = Seq::<Seq<char>>::empty();
    assert(seq![chunk].drop_last() =~= none && seq![name].drop_last() =~= none);
    assert(chunks_of(seq![chunk], id) =~= seq![chunk]);
    law_only_chunk_names(name);
    if is_chunk_of(name, id) {
        let p = chunk_parts(name)->0;
        assert(name == named_chunk(p.0, id, p.2));
    }
}

/// The files to rename are found in their order over all files of a directory.
pub proof fn law_renames(
    a: Seq<Seq<char>>,
    b: Seq<Seq<char>>,
    id: Seq<char>,
    old_crc: Seq<char>,
    new_crc: Seq<char>,
)
    ensures
        renames(a + b, id, old_crc, new_crc) == renames(a, id, old_crc, new_crc) + renames(
            b,
            id,
            old_crc,
            new_crc,
        ),
        renames(Seq::empty(), id, old_crc, new_crc) == Seq::<(Seq<char>, Seq<char>)>::empty(),
    decreases b.len(),
{
    let there = renames(a, id, old_crc, new_crc);
    if b.len() == 0 {
        assert(a + b =~= a);
        assert(there + renames(b, id, old_crc, new_crc) =~= there);
    } else {
        assert((a + b).drop_last() =~= a + b.drop_last());
        assert((a + b).last() == b.last());
        law_renames(a, b.drop_last(), id, old_crc, new_crc);
        assert(renames(a + b, id, old_crc, new_crc) =~= there + renames(
            b,
            id,
            old_crc,
            new_crc,
        ));
    }
}

/// A chunk of the game with the old checksum is to be renamed to the one with the new checksum
/// and the same number; a chunk with another checksum or of another game is not.
pub proof fn law_rename_of_a_chunk(
    crc: Seq<char>,
    owner: Seq<char>,
    part: Seq<char>,
    id: Seq<char>,
    old_crc: Seq<char>,
    new_crc: Seq<char>,
)
    requires
        crc.len() > 0,
        !crc.contains('.'),
        owner.len() > 0,
        !part.contains('.'),
    ensures
        renames(seq!["ul."@ + crc + "."@ + owner + "."@ + part], id, old_crc, new_crc) == (if crc
            == old_crc && owner == id {
            seq![
                (
                    "ul."@ + crc + "."@ + owner + "."@ + part,
                    "ul."@ + new_crc + "."@ + id + "."@ + hex_upper(part_number(part) as nat, 2),
                ),
            ]
        } else {
            Seq::empty()
        }),
{
    let chunk = "ul."@ + crc + "."@ + owner + "."@ + part;
    law_chunk_parts(crc, owner, part);
    reveal_with_fuel(renames, 2);
    let none = Seq::<Seq<char>>::empty();
    assert(seq![chunk].drop_last() =~= none);
    assert(seq![chunk].last() == chunk);
    assert(renames(none, id, old_crc, new_crc) =~= Seq::empty());
}

/// A part whose text is no hexadecimal number is numbered zero.
pub proof fn law_part_without_number(part: Seq<char>)
    requires
        part.len() == 0 || exists|i: int|
            0 <= i < part.len() && !is_hex_digit(#[trigger] part[i]) && (i > 0 || part.len() == 1),
    ensures
        part_number(part) == 0,
{
    law_hex_reading(part, '0');
}

/// Nothing is renamed where the old name and the new one have the same checksum; otherwise all
/// that has the old checksum is.
pub proof fn law_planned_renames(
    names: Seq<Seq<char>>,
    id: Seq<char>,
    old_title: Seq<char>,
    new_title: Seq<char>,
)
    ensures
        planned_renames(names, id, old_title, old_title).len() == 0,
        name_crc_hex(old_title) == name_crc_hex(new_title) ==> planned_renames(
            names,
            id,
            old_title,
            new_title,
        ).len() == 0,
        name_crc_hex(old_title) != name_crc_hex(new_title) ==> planned_renames(
            names,
            id,
            old_title,
            new_title,
        ) == renames(names, id, name_crc_hex(old_title), name_crc_hex(new_title)),
{
}

/// Of the renames planned, those whose new name is free are made, each of them and in their order.
pub proof fn law_free_pairs(
    a: Seq<(Seq<char>, Seq<char>)>,
    b: Seq<(Seq<char>, Seq<char>)>,
    pair: (Seq<char>, Seq<char>),
    x: Seq<bool>,
    y: Seq<bool>,
)
    requires
        a.len() == x.len(),
        b.len() == y.len(),
    ensures
        free_pairs(a + b, x + y) == free_pairs(a, x) + free_pairs(b, y),
        free_pairs(seq![pair], seq![false]) == seq![pair],
        free_pairs(seq![pair], seq![true]).len() == 0,
        free_pairs(Seq::empty(), Seq::empty()).len() == 0,
    decreases b.len(),
{
    if b.len() == 0 {
        assert(a + b =~= a && x + y =~= x);
        assert(free_pairs(a, x) + free_pairs(b, y) =~= free_pairs(a, x));
        reveal_with_fuel(free_pairs, 2);
        assert(seq![pair].drop_last() =~= Seq::empty());
        assert(free_pairs(seq![pair], seq![false]) =~= seq![pair]);
    } else {
        assert((a + b).drop_last() =~= a + b.drop_last());
        assert((x + y).drop_last() =~= x + y.drop_last());
        assert((a + b).last() == b.last() && (x + y).last() == y.last());
        law_free_pairs(a, b.drop_last(), pair, x, y.drop_last());
        assert(free_pairs(a + b, x + y) =~= free_pairs(a, x) + free_pairs(b, y));
    }
}

/// Renames are undone one by one, in the order in which they were made, each by giving the file
/// its old name again.
pub proof fn law_undoing(
    a: Seq<(Seq<char>, Seq<char>)>,
    b: Seq<(Seq<char>, Seq<char>)>,
    from: Seq<char>,
    to: Seq<char>,
)
    ensures
        undoing(a + b) == undoing(a) + undoing(b),
        undoing(seq![(from, to)]) == seq![(to, from)],
        undoing(undoing(a)) == a,
{
    assert(undoing(a + b) =~= undoing(a) + undoing(b));
    assert(undoing(seq![(from, to)]) =~= seq![(to, from)]);
    assert(undoing(undoing(a)) =~= a);
}

/// The texts of pairs are all of them, each at its place.
pub proof fn law_pair_views(pairs: Seq<(String, String)>, i: int)
    ensures
        pair_views(pairs).len() == pairs.len(),
        0 <= i < pairs.len() ==> pair_views(pairs)[i] == (pairs[i].0@, pairs[i].1@),
{
}

} // verus!
