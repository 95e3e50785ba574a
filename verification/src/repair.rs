//! Bringing games over from an older layout, in which the game list had records of 66 bytes and
//! the chunk files were named by the game id alone.

use crate::chunks::{detect_media, media_of_size};
use crate::games::size_sum;
use crate::opl_crc::{crc32_hex, law_hex_form, name_crc_hex};
use crate::split::{chunk_file_name, chunk_name};
use crate::text::{
    decimal_padded,
    decode_lossy,
    decoded,
    digits,
    first_of,
    hex_upper,
    law_decoded,
    lemma_digits_chars,
    lemma_first_of_unique,
    same_text,
    texts,
    to_decimal_padded,
};
use crate::ulcfg::{
    encoded,
    entry_views,
    has_real_format,
    is_real_format,
    law_shortened_name_reads_back,
    law_written_format,
    lemma_text_no_null,
    record_entry,
    serialized,
    shorten_title,
    shortened,
    until_null,
    write_ulcfg,
    EntryView,
    UlEntry,
};
use vstd::prelude::*;
use vstd::slice::slice_subrange;
use vstd::string::StringExecFns;
use vstd::utf8::encode_utf8;

verus! {

// ---------------------------------------------------------------- the old list

/// The size of an old record.
pub const OLD_ENTRY_SIZE: usize = 66;

/// The size of the name field of an old record.
pub const OLD_TITLE_SIZE: usize = 32;

/// The most chunks that an old record is believed to have.
pub const OLD_MAX_PARTS: u16 = 255;

/// A game of an old list.
#[derive(Debug, Clone)]
pub struct OldEntry {
    pub title: String,
    pub game_id: String,
    /// How many chunk files the game has: from 1 to 255.
    pub parts: u16,
}

/// What an [`OldEntry`] holds.
#[verifier::ext_equal]
pub struct OldView {
    pub title: Seq<char>,
    pub game_id: Seq<char>,
    pub parts: u16,
}

impl View for OldEntry {
    type V = OldView;

    open spec fn view(&self) -> OldView {
        OldView { title: self.title@, game_id: self.game_id@, parts: self.parts }
    }
}

/// What some old entries hold.
pub open spec fn old_views(entries: Seq<OldEntry>) -> Seq<OldView> {
    Seq::new(entries.len(), |i: int| entries[i]@)
}

/// The text of a field: its bytes before the first null byte.
pub open spec fn null_text(bytes: Seq<u8>) -> Seq<char> {
    decoded(bytes.take(first_of(bytes, 0u8)))
}

/// A number of chunks, brought into the range from 1 to 255.
pub open spec fn sane_parts(n: u16) -> u16 {
    if n < 1 {
        1
    } else if n > OLD_MAX_PARTS {
        OLD_MAX_PARTS
    } else {
        n
    }
}

/// The game in an old record: the name, the number of chunks with its low byte first, and the id.
pub open spec fn old_record(record: Seq<u8>) -> OldView {
    OldView {
        title: null_text(record.subrange(0, OLD_TITLE_SIZE as int)),
        game_id: null_text(record.subrange(OLD_TITLE_SIZE + 2, OLD_ENTRY_SIZE as int)),
        parts: sane_parts(
            (record[OLD_TITLE_SIZE as int] + 256 * record[OLD_TITLE_SIZE + 1]) as u16,
        ),
    }
}

/// The games in an old list: one for each whole record that has a name.
pub open spec fn old_parsed(data: Seq<u8>) -> Seq<OldView>
    decreases data.len(),
{
    if data.len() < OLD_ENTRY_SIZE {
        seq![]
    } else {
        let entry = old_record(data.take(OLD_ENTRY_SIZE as int));
        let rest = old_parsed(data.skip(OLD_ENTRY_SIZE as int));
        if entry.title.len() == 0 {
            rest
        } else {
            seq![entry] + rest
        }
    }
}

/// The text of a field.
pub fn null_str(bytes: &[u8]) -> (text: String)
    ensures
        text@ == null_text(bytes@),
{
    decode_lossy(until_null(bytes))
}

/// The games in the bytes of an old list.
pub fn parse_old_ulcfg(data: &[u8]) -> (entries: Vec<OldEntry>)
    ensures
        old_views(entries@) == old_parsed(data@),
        forall|i: int| 0 <= i < entries@.len() ==> 1 <= (#[trigger] entries@[i]).parts <= 255,
{
    let mut entries: Vec<OldEntry> = Vec::new();
    let mut offset: usize = 0;
    assert(data@.skip(0) =~= data@);
    assert(old_views(entries@) + old_parsed(data@) =~= old_parsed(data@));
    while data.len() - offset >= OLD_ENTRY_SIZE
        invariant
            offset <= data.len(),
            old_parsed(data@) == old_views(entries@) + old_parsed(data@.skip(offset as int)),
            forall|i: int| 0 <= i < entries@.len() ==> 1 <= (#[trigger] entries@[i]).parts <= 255,
        decreases data.len() - offset,
    {
        let record = slice_subrange(data, offset, offset + OLD_ENTRY_SIZE);
        let title = null_str(slice_subrange(record, 0, OLD_TITLE_SIZE));
        let game_id = null_str(slice_subrange(record, OLD_TITLE_SIZE + 2, OLD_ENTRY_SIZE));
        let count: u16 = record[OLD_TITLE_SIZE] as u16 + 256 * record[OLD_TITLE_SIZE + 1] as u16;
        let parts: u16 = if count < 1 {
            1
        } else if count > OLD_MAX_PARTS {
            OLD_MAX_PARTS
        } else {
            count
        };
        let ghost before = old_views(entries@);
        let ghost rest = data@.skip(offset as int);
        assert(rest.take(OLD_ENTRY_SIZE as int) =~= record@);
        assert(rest.skip(OLD_ENTRY_SIZE as int) =~= data@.skip(offset + OLD_ENTRY_SIZE));
        if !title.as_str().is_empty() {
            let entry = OldEntry { title, game_id, parts };
            entries.push(entry);
            proof {
                let e = old_record(record@);
                assert(entry@ =~= e);
                assert(old_views(entries@) =~= before.push(e));
                assert(before + (seq![e] + old_parsed(data@.skip(offset + OLD_ENTRY_SIZE)))
                    =~= before.push(e) + old_parsed(data@.skip(offset + OLD_ENTRY_SIZE)));
            }
        }
        offset += OLD_ENTRY_SIZE;
    }
    assert(old_views(entries@) + old_parsed(data@.skip(offset as int)) =~= old_views(entries@));
    entries
}

// ---------------------------------------------------------------- names

/// The old name of a chunk: `ul.<game id>` for the first, `ul.<game id>.<part>` for the others,
/// the part in two decimal digits or more.
pub open spec fn old_chunk_name(id: Seq<char>, part: u32) -> Seq<char> {
    if part == 0 {
        "ul."@ + id
    } else {
        "ul."@ + id + "."@ + decimal_padded(part as nat, 2)
    }
}

/// The old name of a chunk.
pub fn old_chunk_file_name(game_id: &str, part: u32) -> (name: String)
    ensures
        name@ == old_chunk_name(game_id@, part),
{
    let name = "ul.".to_owned().concat(game_id);
    if part == 0 {
        name
    } else {
        name.concat(".").concat(to_decimal_padded(part as u64, 2).as_str())
    }
}

/// No old name is a new name of the same chunk, so renaming a chunk always moves it.
pub proof fn law_old_name_is_not_new(title: Seq<char>, id: Seq<char>, part: u32)
    ensures
        old_chunk_name(id, part) != chunk_name(name_crc_hex(title), id, part),
{
    law_hex_form(title);
    reveal_strlit("ul.");
    reveal_strlit(".");
    let hex = hex_upper(part as nat, 2);
    lemma_digits_chars(part as nat, true);
    reveal_with_fuel(digits, 11);
    assert(digits(part as nat, 10, false).len() <= 10);
    assert(hex.len() >= 2);
    assert(decimal_padded(part as nat, 2).len() <= 10);
    assert(old_chunk_name(id, part).len() <= id.len() + 14);
    assert(chunk_name(name_crc_hex(title), id, part).len() >= id.len() + 15);
}

// ---------------------------------------------------------------- what there is to do

/// The games to bring over: none where there is no list, or it has the new format already.
pub open spec fn old_games(data: Option<Seq<u8>>) -> Seq<OldView> {
    match data {
        Some(bytes) => if has_real_format(bytes) {
            seq![]
        } else {
            old_parsed(bytes)
        },
        None => seq![],
    }
}

/// The games to bring over, from the bytes of the list where there is one.
pub fn games_to_repair(data: Option<&[u8]>) -> (games: Vec<OldEntry>)
    ensures
        old_views(games@) == old_games(
            match data {
                Some(bytes) => Some(bytes@),
                None => None,
            },
        ),
        forall|i: int| 0 <= i < games@.len() ==> 1 <= (#[trigger] games@[i]).parts <= 255,
{
    let none: Vec<OldEntry> = Vec::new();
    assert(old_views(none@) =~= seq![]);
    match data {
        Some(bytes) => {
            if is_real_format(bytes) {
                none
            } else {
                parse_old_ulcfg(bytes)
            }
        },
        None => none,
    }
}

/// The files that show that the old layout is in use: the first chunk of each game.
pub fn evidence_names(games: &[OldEntry]) -> (names: Vec<String>)
    ensures
        texts(names@) == Seq::new(
            games@.len(),
            |i: int| old_chunk_name(old_views(games@)[i].game_id, 0),
        ),
{
    let ghost all = old_views(games@);
    let mut names: Vec<String> = Vec::new();
    let mut i: usize = 0;
    while i < games.len()
        invariant
            i <= games.len(),
            all == old_views(games@),
            texts(names@) == Seq::new(i as nat, |k: int| old_chunk_name(all[k].game_id, 0)),
        decreases games.len() - i,
    {
        let ghost before = texts(names@);
        let name = old_chunk_file_name(games[i].game_id.as_str(), 0);
        assert(all[i as int] == games@[i as int]@);
        names.push(name);
        assert(texts(names@) =~= before.push(name@));
        i += 1;
    }
    names
}

/// Whether any of some files is there.
pub open spec fn any_there(found: Seq<bool>) -> bool {
    exists|i: int| 0 <= i < found.len() && #[trigger] found[i]
}

/// Whether any of some files is there.
fn is_any_there(found: &[bool]) -> (b: bool)
    ensures
        b == any_there(found@),
{
    let mut i: usize = 0;
    while i < found.len()
        invariant
            i <= found.len(),
            forall|k: int| 0 <= k < i ==> !#[trigger] found@[k],
        decreases found.len() - i,
    {
        if found[i] {
            assert(found@[i as int]);
            return true;
        }
        i += 1;
    }
    false
}

// ---------------------------------------------------------------- doing it

/// The old and the new name of a chunk.
#[derive(Debug, Clone)]
pub struct PartNames {
    pub old: String,
    pub new: String,
}

/// Games on their way from the old layout.
pub struct RepairRun {
    games: Vec<OldEntry>,
    game: usize,
    part: u32,
    total: u64,
    renamed: bool,
    migrated: u32,
    entries: Vec<UlEntry>,
    dest_dir: String,
}

/// What a [`RepairRun`] holds.
#[verifier::ext_equal]
pub struct RepairView {
    pub games: Seq<OldView>,
    /// The game and the chunk of it that come next.
    pub game: int,
    pub part: u32,
    /// The sizes of the chunks of that game so far.
    pub total: u64,
    /// Whether one of them has been renamed.
    pub renamed: bool,
    /// How many games had a chunk renamed.
    pub migrated: u32,
    /// The entries of the games that are done.
    pub entries: Seq<EntryView>,
    pub dest_dir: Seq<char>,
}

impl RepairView {
    /// The games before the next one are done, each with its name, cut to fit the new list, its id
    /// and its number of chunks.
    pub open spec fn wf(self) -> bool {
        &&& 0 <= self.game <= self.games.len() <= u32::MAX
        &&& self.entries.len() == self.game
        &&& self.migrated <= self.game
        &&& forall|i: int|
            0 <= i < self.games.len() ==> 1 <= (#[trigger] self.games[i]).parts <= 255
        &&& self.game < self.games.len() ==> self.part < self.games[self.game].parts
        &&& forall|i: int|
            0 <= i < self.entries.len() ==> {
                &&& (#[trigger] self.entries[i]).title == shortened(self.games[i].title)
                &&& self.entries[i].game_id == self.games[i].game_id
                &&& self.entries[i].parts == self.games[i].parts
            }
    }
}

impl View for RepairRun {
    type V = RepairView;

    closed spec fn view(&self) -> RepairView {
        RepairView {
            games: old_views(self.games@),
            game: self.game as int,
            part: self.part,
            total: self.total,
            renamed: self.renamed,
            migrated: self.migrated,
            entries: entry_views(self.entries@),
            dest_dir: self.dest_dir@,
        }
    }
}

/// Whether a chunk is renamed: it is there under its old name, and the new name is free.
pub fn renames_part(names: &PartNames, old_there: bool, new_there: bool) -> (b: bool)
    ensures
        b == (old_there && names.old@ != names.new@ && !new_there),
{
    old_there && !same_text(names.old.as_str(), names.new.as_str()) && !new_there
}

/// What the run is after a chunk: whether that has been renamed, and its size under the new name
/// where it is there.
pub open spec fn after_part(run: RepairView, renamed: bool, size: Option<u64>) -> RepairView {
    let game = run.games[run.game];
    let total = (run.total + match size {
        Some(n) => n as int,
        None => 0,
    }) as u64;
    let any = run.renamed || renamed;
    if run.part + 1 < game.parts {
        RepairView { part: (run.part + 1) as u32, total, renamed: any, ..run }
    } else {
        RepairView {
            game: run.game + 1,
            part: 0,
            total: 0,
            renamed: false,
            migrated: if any {
                (run.migrated + 1) as u32
            } else {
                run.migrated
            },
            entries: run.entries.push(
                EntryView {
                    title: shortened(game.title),
                    game_id: game.game_id,
                    parts: game.parts,
                    media: media_of_size(total),
                    mount_point: run.dest_dir,
                },
            ),
            ..run
        }
    }
}

/// Begins to bring games over; nothing where there are none, or `found` says of no game that the
/// first chunk is there under its old name.
pub fn repair_split_files(games: Vec<OldEntry>, found: &[bool], dest_dir: &str) -> (run: Option<
    RepairRun,
>)
    requires
        games@.len() <= u32::MAX,
        forall|i: int| 0 <= i < games@.len() ==> 1 <= (#[trigger] games@[i]).parts <= 255,
    ensures
        match run {
            Some(r) => games@.len() > 0 && any_there(found@) && r@.wf() && r@ == (RepairView {
                games: old_views(games@),
                game: 0,
                part: 0,
                total: 0,
                renamed: false,
                migrated: 0,
                entries: Seq::empty(),
                dest_dir: dest_dir@,
            }),
            None => games@.len() == 0 || !any_there(found@),
        },
{
    if games.len() == 0 || !is_any_there(found) {
        return None;
    }
    let run = RepairRun {
        games,
        game: 0,
        part: 0,
        total: 0,
        renamed: false,
        migrated: 0,
        entries: Vec::new(),
        dest_dir: dest_dir.to_owned(),
    };
    assert(run@.entries =~= Seq::empty());
    Some(run)
}

impl RepairRun {
    /// The names of the next chunk; nothing once all are done.
    pub fn next_part(&self) -> (names: Option<PartNames>)
        requires
            self@.wf(),
        ensures
            match names {
                Some(n) => self@.game < self@.games.len() && n.old@ == old_chunk_name(
                    self@.games[self@.game].game_id,
                    self@.part,
                ) && n.new@ == chunk_name(
                    name_crc_hex(shortened(self@.games[self@.game].title)),
                    self@.games[self@.game].game_id,
                    self@.part,
                ),
                None => self@.game == self@.games.len(),
            },
    {
        if self.game >= self.games.len() {
            return None;
        }
        let game = &self.games[self.game];
        assert(self@.games[self.game as int] == game@);
        let crc = crc32_hex(shorten_title(game.title.as_str()).as_str());
        Some(
            PartNames {
                old: old_chunk_file_name(game.game_id.as_str(), self.part),
                new: chunk_file_name(crc.as_str(), game.game_id.as_str(), self.part),
            },
        )
    }

    /// Whether the sizes of a game's chunks can still be added up with this one.
    pub fn can_count(&self, size: Option<u64>) -> (b: bool)
        ensures
            b == (size matches Some(n) ==> self@.total + n <= u64::MAX),
    {
        match size {
            Some(n) => n <= u64::MAX - self.total,
            None => true,
        }
    }

    /// The next chunk is done: whether it has been renamed, and its size under the new name where
    /// it is there.
    pub fn part_done(&mut self, renamed: bool, size: Option<u64>)
        requires
            old(self)@.wf(),
            old(self)@.game < old(self)@.games.len(),
            size matches Some(n) ==> old(self)@.total + n <= u64::MAX,
        ensures
            final(self)@.wf(),
            final(self)@ == after_part(old(self)@, renamed, size),
    {
        let ghost before = self@;
        let ghost k = self.game as int;
        assert(self@.games[k] == self.games@[k]@);
        if let Some(n) = size {
            self.total = self.total + n;
        }
        if renamed {
            self.renamed = true;
        }
        if self.part + 1 < self.games[self.game].parts as u32 {
            self.part = self.part + 1;
        } else {
            let entry = UlEntry {
                title: shorten_title(self.games[self.game].title.as_str()),
                game_id: self.games[self.game].game_id.clone(),
                parts: self.games[self.game].parts,
                media: detect_media(self.total),
                mount_point: self.dest_dir.clone(),
            };
            self.entries.push(entry);
            assert(entry_views(self.entries@) =~= before.entries.push(entry@));
            if self.renamed {
                self.migrated = self.migrated + 1;
            }
            self.game = self.game + 1;
            self.part = 0;
            self.total = 0;
            self.renamed = false;
            proof {
                let after = self@;
                assert forall|i: int| 0 <= i < after.entries.len() implies {
                    &&& (#[trigger] after.entries[i]).title == shortened(after.games[i].title)
                    &&& after.entries[i].game_id == after.games[i].game_id
                    &&& after.entries[i].parts == after.games[i].parts
                } by {
                    if i < before.entries.len() {
                        assert(after.entries[i] == before.entries[i]);
                    }
                }
                if after.game < after.games.len() {
                    assert(1 <= after.games[after.game].parts);
                }
            }
        }
        assert(self@ =~= after_part(before, renamed, size));
    }

    /// How many games had a chunk renamed, and the new game list.
    pub fn finish(self) -> (r: (u32, Vec<u8>))
        requires
            self@.wf(),
            self@.game == self@.games.len(),
        ensures
            r.0 == self@.migrated,
            r.1@ == serialized(self@.entries),
    {
        (self.migrated, write_ulcfg(self.entries.as_slice()))
    }
}

/// What a chunk that could not be renamed is answered with.
pub fn rename_failure(names: &PartNames, reason: &str) -> (m: String)
    ensures
        m@ == "Failed to rename "@ + names.old@ + ": "@ + reason@,
{
    "Failed to rename ".to_owned().concat(names.old.as_str()).concat(": ").concat(reason)
}

// ---------------------------------------------------------------- laws

/// Every game of the old list is in the new one, in its place, with its name, cut to fit, its id
/// and its number of chunks.
pub proof fn law_no_game_lost(run: RepairView, i: int)
    requires
        run.wf(),
        run.game == run.games.len(),
        0 <= i < run.games.len(),
    ensures
        run.entries.len() == run.games.len(),
        run.entries[i].title == shortened(run.games[i].title),
        run.entries[i].game_id == run.games[i].game_id,
        run.entries[i].parts == run.games[i].parts,
{
    assert(run.entries[i].title == shortened(run.games[i].title));
}

/// The name that the loader reads in the new list hashes to the checksum that the chunks of the
/// game have been renamed to.
pub proof fn law_repaired_name_hashes_to_chunks(run: RepairView, i: int)
    requires
        run.wf(),
        0 <= i < run.game,
    ensures
        name_crc_hex(record_entry(encoded(run.entries[i])).title) == name_crc_hex(
            shortened(run.games[i].title),
        ),
{
    assert(run.entries[i].title == shortened(run.games[i].title));
    law_shortened_name_reads_back(run.entries[i], run.games[i].title);
}

/// A list that has been brought over is left alone from then on.
pub proof fn law_repaired_list_is_left_alone(run: RepairView)
    requires
        run.wf(),
        run.game == run.games.len(),
        run.games.len() > 0,
    ensures
        old_games(Some(serialized(run.entries))).len() == 0,
{
    law_written_format(run.entries);
}

/// A list in the new format is left alone.
pub proof fn law_new_format_is_left_alone(data: Seq<u8>)
    requires
        has_real_format(data),
    ensures
        old_games(Some(data)).len() == 0,
{
}

/// The run after some chunks: which of them were renamed, and their sizes.
pub open spec fn after_parts(
    run: RepairView,
    renamed: Seq<bool>,
    sizes: Seq<Option<u64>>,
) -> RepairView
    decreases sizes.len(),
{
    if sizes.len() == 0 {
        run
    } else {
        after_part(
            after_parts(run, renamed.drop_last(), sizes.drop_last()),
            renamed.last(),
            sizes.last(),
        )
    }
}

/// The run within a game.
proof fn lemma_within_game(run: RepairView, renamed: Seq<bool>, sizes: Seq<Option<u64>>)
    requires
        renamed.len() == sizes.len(),
        0 <= run.game < run.games.len(),
        run.part == 0,
        run.total == 0,
        !run.renamed,
        sizes.len() < run.games[run.game].parts,
        size_sum(sizes) <= u64::MAX,
    ensures
        after_parts(run, renamed, sizes) == (RepairView {
            part: sizes.len() as u32,
            total: size_sum(sizes) as u64,
            renamed: any_there(renamed),
            ..run
        }),
    decreases sizes.len(),
{
    if sizes.len() == 0 {
        assert(!any_there(renamed));
    } else {
        lemma_within_game(run, renamed.drop_last(), sizes.drop_last());
        lemma_any_there(renamed);
    }
}

/// One of some flags is set where the last is, or one before it.
proof fn lemma_any_there(found: Seq<bool>)
    requires
        found.len() > 0,
    ensures
        any_there(found) <==> any_there(found.drop_last()) || found.last(),
{
    let rest = found.drop_last();
    if any_there(found) {
        let i = choose|i: int| 0 <= i < found.len() && #[trigger] found[i];
        if i < rest.len() {
            assert(rest[i]);
        }
    }
    if any_there(rest) {
        let i = choose|i: int| 0 <= i < rest.len() && #[trigger] rest[i];
        assert(found[i]);
    }
    if found.last() {
        assert(found[found.len() - 1]);
    }
}

/// Once every chunk of a game has had its turn, the game has its entry, with its name cut to fit,
/// its id, its number of chunks, and the media type of their sizes together; it counts as brought
/// over where a chunk of it was renamed; and the next game comes, from its first chunk.
pub proof fn law_game_is_brought_over(run: RepairView, renamed: Seq<bool>, sizes: Seq<Option<u64>>)
    requires
        renamed.len() == sizes.len(),
        0 <= run.game < run.games.len(),
        run.part == 0,
        run.total == 0,
        !run.renamed,
        sizes.len() == run.games[run.game].parts,
        sizes.len() > 0,
        size_sum(sizes) <= u64::MAX,
        run.migrated < u32::MAX,
    ensures
        ({
            let game = run.games[run.game];
            let end = after_parts(run, renamed, sizes);
            &&& end.game == run.game + 1
            &&& end.part == 0
            &&& end.total == 0
            &&& !end.renamed
            &&& end.games == run.games
            &&& end.dest_dir == run.dest_dir
            &&& end.entries.len() == run.entries.len() + 1
            &&& end.entries.drop_last() == run.entries
            &&& end.entries.last().title == shortened(game.title)
            &&& end.entries.last().game_id == game.game_id
            &&& end.entries.last().parts == game.parts
            &&& end.entries.last().mount_point == run.dest_dir
            &&& size_sum(sizes) <= 734_003_200 ==> end.entries.last().media == 0x12
            &&& size_sum(sizes) > 734_003_200 ==> end.entries.last().media == 0x14
            &&& (exists|i: int| 0 <= i < renamed.len() && #[trigger] renamed[i]) ==> end.migrated
                == run.migrated + 1
            &&& (forall|i: int| 0 <= i < renamed.len() ==> !#[trigger] renamed[i]) ==> end.migrated
                == run.migrated
        }),
{
    lemma_within_game(run, renamed.drop_last(), sizes.drop_last());
    lemma_any_there(renamed);
    let end = after_parts(run, renamed, sizes);
    assert(end.entries.drop_last() =~= run.entries);
}

/// The number of chunks in an old record is believed from one to 255.
pub proof fn law_sane_parts(n: u16)
    ensures
        sane_parts(0) == 1,
        1 <= n <= 255 ==> sane_parts(n) == n,
        n > 255 ==> sane_parts(n) == 255,
{
}

/// The text of an old field ends before the first null byte.
pub proof fn law_null_text(text: Seq<char>, rest: Seq<u8>)
    requires
        forall|i: int| 0 <= i < text.len() ==> #[trigger] text[i] != '\0',
        rest.len() > 0 ==> rest[0] == 0,
    ensures
        null_text(encode_utf8(text) + rest) == text,
{
    let bytes = encode_utf8(text);
    let field = bytes + rest;
    let n = bytes.len() as int;
    lemma_text_no_null(text);
    assert forall|i: int| 0 <= i < n implies field[i] != 0 by {
        assert(field[i] == bytes[i]);
    }
    lemma_first_of_unique(field, 0u8, n);
    assert(field.take(n) =~= bytes);
    law_decoded(text);
}

/// An old record has the name in its first 32 bytes, then the number of chunks in two, the lower
/// first, then the game id.
pub proof fn law_old_record(name: Seq<u8>, low: u8, high: u8, id: Seq<u8>)
    requires
        name.len() == 32,
        id.len() == 32,
    ensures
        old_record(name + seq![low, high] + id).title == null_text(name),
        old_record(name + seq![low, high] + id).game_id == null_text(id),
        old_record(name + seq![low, high] + id).parts == sane_parts((low + 256 * high) as u16),
{
    let record = name + seq![low, high] + id;
    assert(record.subrange(0, 32) =~= name);
    assert(record.subrange(34, 66) =~= id);
}

/// An old list is read record by record; one without a name is passed over, and what is left at
/// the end is no record.
pub proof fn law_old_list_reading(record: Seq<u8>, rest: Seq<u8>)
    ensures
        record.len() == 66 && old_record(record).title.len() > 0 ==> old_parsed(record + rest)
            == seq![old_record(record)] + old_parsed(rest),
        record.len() == 66 && old_record(record).title.len() == 0 ==> old_parsed(record + rest)
            == old_parsed(rest),
        rest.len() < 66 ==> old_parsed(rest).len() == 0,
{
    if record.len() == 66 {
        assert((record + rest).take(66) =~= record);
        assert((record + rest).skip(66) =~= rest);
    }
}

/// The first chunk of a game was named `ul.<id>`, and each further one `ul.<id>.<part>`.
pub proof fn law_old_chunk_name(id: Seq<char>, part: u32)
    ensures
        old_chunk_name(id, 0) == "ul."@ + id,
        part > 0 ==> old_chunk_name(id, part) == "ul."@ + id + "."@ + decimal_padded(part as nat, 2),
{
}

/// The games to bring over are all that an old list names; a list in the new format has none, and
/// neither has a missing one.
pub proof fn law_old_games(data: Seq<u8>)
    ensures
        has_real_format(data) ==> old_games(Some(data)).len() == 0,
        !has_real_format(data) ==> old_games(Some(data)) == old_parsed(data),
        old_games(None).len() == 0,
{
}

/// The model of a [`OldEntry`] has all that it holds, and that of a list has every item at its
/// place.
pub proof fn law_model_of_old_entry(entry: OldEntry, list: Seq<OldEntry>, i: int)
    ensures
        entry@.title == entry.title@,
        entry@.game_id == entry.game_id@,
        entry@.parts == entry.parts,
        old_views(list).len() == list.len(),
        0 <= i < list.len() ==> old_views(list)[i] == list[i]@,
{
}

} // verus!
