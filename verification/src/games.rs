//! The games on a device: listing them, checking that they are complete, and rebuilding and
//! sorting the game list.

use crate::chunks::{
    can_count_chunks,
    chunk_count,
    chunk_ids,
    chunk_total,
    countable,
    detect_media,
    file_views,
    group_chunks,
    group_views,
    grouped,
    law_groups,
    law_listed_ids,
    media_of_size,
    ChunkGroup,
    DirFile,
    DirFileView,
    GroupView,
};
use crate::iso::{extract_volume_label, label_in_text};
use crate::opl_crc::{crc32_hex, name_crc_hex};
use crate::order::{
    arranged,
    code_points,
    goes_before,
    in_place,
    indices,
    is_permutation,
    is_sort_order,
    key_views,
    law_sorted_stays,
    law_text_order,
    lemma_arranged_multiset,
    lemma_lex_total,
    lemma_number_order,
    lemma_sort_is_permutation,
    number_key,
    relate_texts,
    sort_order,
    text_key,
    text_less,
    Relation,
};
use crate::split::{chunk_file_name, chunk_name};
use crate::text::{
    decoded,
    ends_with,
    from_chars,
    has_suffix,
    hex_upper,
    law_prefix_and_suffix,
    lowercase,
    same_text,
    texts,
    to_chars,
    to_lowercase,
};
use crate::ulcfg::{
    all_stored,
    all_within_fields,
    as_stored,
    encoded,
    entry_views,
    is_plain,
    is_text_list,
    law_file_round_trip,
    law_text_list_reads_plain,
    parse_ulcfg,
    parsed,
    serialized,
    storable,
    within_fields,
    write_ulcfg,
    EntryView,
    UlEntry,
    ENTRY_SIZE,
    MEDIA_CD,
    MEDIA_DVD,
};
use vstd::prelude::*;
use vstd::slice::slice_subrange;
use vstd::utf8::encode_utf8;

verus! {

// ---------------------------------------------------------------- rebuilding the list

/// The index of the last entry with this game id, or `-1`.
pub open spec fn last_with_id(entries: Seq<EntryView>, id: Seq<char>) -> int
    decreases entries.len(),
{
    if entries.len() == 0 {
        -1
    } else if entries.last().game_id == id {
        entries.len() - 1
    } else {
        last_with_id(entries.drop_last(), id)
    }
}

/// What [`last_with_id`] says of the entries.
pub proof fn lemma_last_with_id(entries: Seq<EntryView>, id: Seq<char>)
    ensures
        -1 <= last_with_id(entries, id) < entries.len(),
        last_with_id(entries, id) >= 0 ==> entries[last_with_id(entries, id)].game_id == id,
        forall|j: int|
            last_with_id(entries, id) < j < entries.len() ==> (#[trigger] entries[j]).game_id != id,
    decreases entries.len(),
{
    if entries.len() > 0 && entries.last().game_id != id {
        let rest = entries.drop_last();
        lemma_last_with_id(rest, id);
        assert forall|j: int| last_with_id(entries, id) < j < entries.len() implies (
        #[trigger] entries[j]).game_id != id by {
            if j < entries.len() - 1 {
                assert(entries[j] == rest[j]);
            }
        }
    }
}

/// Whether entry `i` is the last one with its game id, and its name has this checksum.
pub open spec fn matches_crc(entries: Seq<EntryView>, i: int, crc: Seq<char>) -> bool {
    last_with_id(entries, entries[i].game_id) == i && name_crc_hex(entries[i].title) == crc
}

/// Among the first `n` entries, the one whose name has this checksum; of several the one with the
/// greatest game id; `-1` where there is none.
pub open spec fn best_by_crc(entries: Seq<EntryView>, crc: Seq<char>, n: int) -> int
    decreases n,
{
    if n <= 0 {
        -1
    } else {
        let best = best_by_crc(entries, crc, n - 1);
        if matches_crc(entries, n - 1, crc) && (best < 0 || text_less(
            entries[best].game_id,
            entries[n - 1].game_id,
        )) {
            n - 1
        } else {
            best
        }
    }
}

/// The name of a game whose chunks carry this checksum: the one that the list has for its id;
/// else the one in the list that has the checksum; else the id itself.
pub open spec fn title_of_group(entries: Seq<EntryView>, group: GroupView) -> Seq<char> {
    let by_id = last_with_id(entries, group.game_id);
    let by_crc = best_by_crc(entries, group.crc, entries.len() as int);
    if by_id >= 0 {
        entries[by_id].title
    } else if by_crc >= 0 {
        entries[by_crc].title
    } else {
        group.game_id
    }
}

/// The media type of a game: the one that the list has for its id, else that of its size.
pub open spec fn media_of_group(entries: Seq<EntryView>, group: GroupView) -> u8 {
    let by_id = last_with_id(entries, group.game_id);
    if by_id >= 0 {
        entries[by_id].media
    } else {
        media_of_size(group.total)
    }
}

/// The entry of a game.
pub open spec fn entry_of_group(
    entries: Seq<EntryView>,
    group: GroupView,
    dest_dir: Seq<char>,
) -> EntryView {
    EntryView {
        title: title_of_group(entries, group),
        game_id: group.game_id,
        parts: group.parts,
        media: media_of_group(entries, group),
        mount_point: dest_dir,
    }
}

/// The list for these files, with the names of the list `entries`.
pub open spec fn regenerated(
    entries: Seq<EntryView>,
    files: Seq<DirFileView>,
    dest_dir: Seq<char>,
) -> Seq<EntryView> {
    let groups = grouped(files, seq![]);
    Seq::new(groups.len(), |i: int| entry_of_group(entries, groups[i], dest_dir))
}

/// The index of the last entry with this game id.
fn find_last_with_id(entries: &[UlEntry], id: &str) -> (k: Option<usize>)
    ensures
        match k {
            Some(i) => i < entries.len() && i == last_with_id(entry_views(entries@), id@),
            None => last_with_id(entry_views(entries@), id@) == -1,
        },
{
    let ghost all = entry_views(entries@);
    let mut n: usize = entries.len();
    assert(all.take(n as int) =~= all);
    while n > 0
        invariant
            n <= entries.len(),
            all == entry_views(entries@),
            last_with_id(all, id@) == last_with_id(all.take(n as int), id@),
        decreases n,
    {
        assert(all.take(n as int).last() == entries@[n - 1]@);
        assert(all.take(n as int).drop_last() =~= all.take(n - 1));
        if same_text(entries[n - 1].game_id.as_str(), id) {
            return Some(n - 1);
        }
        n -= 1;
    }
    None
}

/// The entry whose name has this checksum; of several the one with the greatest game id.
fn find_by_crc(entries: &[UlEntry], crc: &str) -> (k: Option<usize>)
    ensures
        match k {
            Some(i) => i < entries.len() && i == best_by_crc(
                entry_views(entries@),
                crc@,
                entries.len() as int,
            ),
            None => best_by_crc(entry_views(entries@), crc@, entries.len() as int) == -1,
        },
{
    let ghost all = entry_views(entries@);
    let mut best: Option<usize> = None;
    let mut i: usize = 0;
    while i < entries.len()
        invariant
            i <= entries.len(),
            all == entry_views(entries@),
            match best {
                Some(b) => b < i && b == best_by_crc(all, crc@, i as int),
                None => best_by_crc(all, crc@, i as int) == -1,
            },
        decreases entries.len() - i,
    {
        assert(all[i as int] == entries@[i as int]@);
        proof {
            lemma_last_with_id(all, all[i as int].game_id);
        }
        let last = match find_last_with_id(entries, entries[i].game_id.as_str()) {
            Some(k) => k == i,
            None => false,
        };
        if last && same_text(crc32_hex(entries[i].title.as_str()).as_str(), crc) {
            match best {
                Some(b) => {
                    assert(all[b as int] == entries@[b as int]@);
                    proof {
                        law_text_order(
                            all[b as int].game_id,
                            all[i as int].game_id,
                            all[b as int].game_id,
                        );
                    }
                    match relate_texts(entries[b].game_id.as_str(), entries[i].game_id.as_str()) {
                        Relation::Before => {
                            best = Some(i);
                        },
                        Relation::Same => {},
                        Relation::After => {},
                    }
                },
                None => {
                    best = Some(i);
                },
            }
        }
        i += 1;
    }
    best
}

/// The entry of a game.
fn make_entry(entries: &[UlEntry], group: &ChunkGroup, dest_dir: &str) -> (entry: UlEntry)
    ensures
        entry@ == entry_of_group(entry_views(entries@), group@, dest_dir@),
{
    let ghost all = entry_views(entries@);
    let (title, media) = match find_last_with_id(entries, group.game_id.as_str()) {
        Some(k) => {
            assert(all[k as int] == entries@[k as int]@);
            (entries[k].title.clone(), entries[k].media)
        },
        None => {
            let title = match find_by_crc(entries, group.crc.as_str()) {
                Some(k) => {
                    assert(all[k as int] == entries@[k as int]@);
                    entries[k].title.clone()
                },
                None => group.game_id.clone(),
            };
            (title, detect_media(group.total))
        },
    };
    UlEntry {
        title,
        game_id: group.game_id.clone(),
        parts: group.parts,
        media,
        mount_point: dest_dir.to_owned(),
    }
}

/// Rebuilds the game list from the chunk files on the device, with the names of the list that is
/// there. Gives the number of games and the file.
pub fn generate_ulcfg(data: &[u8], files: &[DirFile], dest_dir: &str) -> (r: (usize, Vec<u8>))
    requires
        countable(file_views(files@), seq![]),
    ensures
        r.0 == regenerated(parsed(data@), file_views(files@), dest_dir@).len(),
        r.1@ == serialized(regenerated(parsed(data@), file_views(files@), dest_dir@)),
{
    let existing = parse_ulcfg(data);
    let known: Vec<String> = Vec::new();
    assert(texts(known@) =~= seq![]);
    let groups = group_chunks(files, known.as_slice());
    let ghost old = entry_views(existing@);
    let ghost all = group_views(groups@);
    let mut entries: Vec<UlEntry> = Vec::new();
    let mut i: usize = 0;
    while i < groups.len()
        invariant
            i <= groups.len(),
            old == entry_views(existing@),
            all == group_views(groups@),
            entry_views(entries@) == Seq::new(
                i as nat,
                |k: int| entry_of_group(old, all[k], dest_dir@),
            ),
        decreases groups.len() - i,
    {
        let ghost before = entry_views(entries@);
        let entry = make_entry(existing.as_slice(), &groups[i], dest_dir);
        assert(all[i as int] == groups@[i as int]@);
        entries.push(entry);
        assert(entry_views(entries@) =~= before.push(entry@));
        i += 1;
    }
    assert(entry_views(entries@) =~= regenerated(old, file_views(files@), dest_dir@));
    (entries.len(), write_ulcfg(entries.as_slice()))
}

/// Every game with chunks on the device is listed, with all its chunks, and no other; one that
/// was listed keeps its name and media type.
pub proof fn law_generated_list(
    entries: Seq<EntryView>,
    files: Seq<DirFileView>,
    dest_dir: Seq<char>,
    id: Seq<char>,
)
    ensures
        (exists|i: int|
            0 <= i < regenerated(entries, files, dest_dir).len() && (#[trigger] regenerated(
                entries,
                files,
                dest_dir,
            )[i]).game_id == id) <==> chunk_count(files, id) > 0,
        forall|i: int|
            0 <= i < regenerated(entries, files, dest_dir).len() ==> {
                let e = #[trigger] regenerated(entries, files, dest_dir)[i];
                let k = last_with_id(entries, e.game_id);
                &&& e.parts == chunk_count(files, e.game_id) as u16
                &&& k >= 0 ==> e.title == entries[k].title && e.media == entries[k].media
            },
{
    let ids = chunk_ids(files, seq![]);
    let list = regenerated(entries, files, dest_dir);
    law_listed_ids(files, seq![], id);
    assert(list.len() == ids.len());
    if ids.contains(id) {
        let i = choose|i: int| 0 <= i < ids.len() && ids[i] == id;
        assert(list[i].game_id == id);
    }
    if exists|i: int| 0 <= i < list.len() && (#[trigger] list[i]).game_id == id {
        let i = choose|i: int| 0 <= i < list.len() && (#[trigger] list[i]).game_id == id;
        assert(ids[i] == id);
    }
}

/// A game that is not listed under its id gets a name that its chunks were named after, where
/// the list has one: the loader then finds them.
pub proof fn law_name_by_checksum(entries: Seq<EntryView>, group: GroupView)
    requires
        last_with_id(entries, group.game_id) < 0,
        exists|i: int| 0 <= i < entries.len() && #[trigger] matches_crc(entries, i, group.crc),
    ensures
        name_crc_hex(title_of_group(entries, group)) == group.crc,
{
    let i = choose|i: int| 0 <= i < entries.len() && #[trigger] matches_crc(entries, i, group.crc);
    lemma_best_by_crc(entries, group.crc, entries.len() as int, i);
}

/// Rebuilding a list again writes the same file, as long as records can hold the names and ids of
/// its entries.
pub proof fn law_generating_again(
    entries: Seq<EntryView>,
    files: Seq<DirFileView>,
    dest_dir: Seq<char>,
)
    requires
        forall|i: int|
            0 <= i < regenerated(entries, files, dest_dir).len() ==> storable(
                #[trigger] regenerated(entries, files, dest_dir)[i],
            ),
    ensures
        ({
            let file = serialized(regenerated(entries, files, dest_dir));
            serialized(regenerated(parsed(file), files, dest_dir)) == file
        }),
{
    let list = regenerated(entries, files, dest_dir);
    let groups = grouped(files, seq![]);
    let ids = chunk_ids(files, seq![]);
    law_file_round_trip(list);
    let read = all_stored(list);
    let again = regenerated(read, files, dest_dir);
    crate::chunks::law_listed_in_order(files, seq![]);
    assert forall|i: int| 0 <= i < list.len() implies encoded(#[trigger] again[i]) == encoded(
        list[i],
    ) by {
        let id = groups[i].game_id;
        lemma_last_with_id(read, id);
        let k = last_with_id(read, id);
        assert(ids[i] == id);
        assert(read[i].game_id == id);
        assert(k >= i);
        assert(read[k].game_id == ids[k]);
        if k > i {
            law_text_order(id, id, id);
            assert(text_less(ids[i], ids[k]));
        }
        assert(again[i].title == list[i].title);
    }
    lemma_same_file(again, list);
}

/// Lists whose entries have the same records make the same file.
proof fn lemma_same_file(a: Seq<EntryView>, b: Seq<EntryView>)
    requires
        a.len() == b.len(),
        forall|i: int| 0 <= i < a.len() ==> encoded(#[trigger] a[i]) == encoded(b[i]),
    ensures
        serialized(a) == serialized(b),
    decreases a.len(),
{
    if a.len() > 0 {
        let (x, y) = (a.drop_first(), b.drop_first());
        assert forall|i: int| 0 <= i < x.len() implies encoded(#[trigger] x[i]) == encoded(y[i]) by {
            assert(x[i] == a[i + 1]);
            assert(y[i] == b[i + 1]);
        }
        lemma_same_file(x, y);
        assert(encoded(a[0]) == encoded(b[0]));
    }
}

/// What [`best_by_crc`] says of the entries.
proof fn lemma_best_by_crc(entries: Seq<EntryView>, crc: Seq<char>, n: int, i: int)
    requires
        0 <= n <= entries.len(),
    ensures
        -1 <= best_by_crc(entries, crc, n) < n || n == 0 && best_by_crc(entries, crc, n) == -1,
        best_by_crc(entries, crc, n) >= 0 ==> matches_crc(
            entries,
            best_by_crc(entries, crc, n),
            crc,
        ),
        0 <= i < n && matches_crc(entries, i, crc) ==> best_by_crc(entries, crc, n) >= 0,
    decreases n,
{
    if n > 0 {
        lemma_best_by_crc(entries, crc, n - 1, i);
    }
}

// ---------------------------------------------------------------- the chunk files of a listed game

/// The names of the chunk files of a game. A game listed with no parts is looked for in one.
pub open spec fn chunk_files(title: Seq<char>, id: Seq<char>, parts: u16) -> Seq<Seq<char>> {
    Seq::new(
        if parts == 0 {
            1
        } else {
            parts as nat
        },
        |i: int| chunk_name(name_crc_hex(title), id, i as u32),
    )
}

/// The names of the chunk files of a listed game.
pub fn chunk_files_of(entry: &UlEntry) -> (names: Vec<String>)
    ensures
        texts(names@) == chunk_files(entry@.title, entry@.game_id, entry@.parts),
{
    let crc = crc32_hex(entry.title.as_str());
    let n: u32 = if entry.parts == 0 {
        1
    } else {
        entry.parts as u32
    };
    let mut names: Vec<String> = Vec::new();
    let mut i: u32 = 0;
    while i < n
        invariant
            i <= n,
            crc@ == name_crc_hex(entry@.title),
            texts(names@) == Seq::new(
                i as nat,
                |k: int| chunk_name(crc@, entry@.game_id, k as u32),
            ),
        decreases n - i,
    {
        let ghost before = texts(names@);
        let name = chunk_file_name(crc.as_str(), entry.game_id.as_str(), i);
        names.push(name);
        assert(texts(names@) =~= before.push(name@));
        i += 1;
    }
    assert(texts(names@) =~= chunk_files(entry@.title, entry@.game_id, entry@.parts));
    names
}

/// A listed game, and the size of each of its chunk files that is there.
#[derive(Debug, Clone)]
pub struct ListedGame {
    pub entry: UlEntry,
    /// One for each name that [`chunk_files_of`] gives.
    pub sizes: Vec<Option<u64>>,
}

/// What a [`ListedGame`] holds.
#[verifier::ext_equal]
pub struct ListedView {
    pub entry: EntryView,
    pub sizes: Seq<Option<u64>>,
}

impl View for ListedGame {
    type V = ListedView;

    open spec fn view(&self) -> ListedView {
        ListedView { entry: self.entry@, sizes: self.sizes@ }
    }
}

/// What some listed games hold.
pub open spec fn listed_views(games: Seq<ListedGame>) -> Seq<ListedView> {
    Seq::new(games.len(), |i: int| games[i]@)
}

/// The sizes of the files that are there together.
pub open spec fn size_sum(sizes: Seq<Option<u64>>) -> nat
    decreases sizes.len(),
{
    if sizes.len() == 0 {
        0
    } else {
        size_sum(sizes.drop_last()) + match sizes.last() {
            Some(n) => n as nat,
            None => 0,
        }
    }
}

/// More files make no smaller sum.
proof fn lemma_size_sum(sizes: Seq<Option<u64>>, k: int)
    requires
        0 <= k <= sizes.len(),
    ensures
        size_sum(sizes.take(k)) <= size_sum(sizes),
    decreases sizes.len() - k,
{
    if k == sizes.len() {
        assert(sizes.take(k) =~= sizes);
    } else {
        lemma_size_sum(sizes, k + 1);
        assert(sizes.take(k + 1).drop_last() =~= sizes.take(k));
    }
}

/// The sizes of the chunk files that are there together.
pub fn sum_chunk_sizes(sizes: &[Option<u64>]) -> (total: u64)
    requires
        size_sum(sizes@) <= u64::MAX,
    ensures
        total == size_sum(sizes@),
{
    let mut total: u64 = 0;
    let mut i: usize = 0;
    while i < sizes.len()
        invariant
            i <= sizes.len(),
            size_sum(sizes@) <= u64::MAX,
            total == size_sum(sizes@.take(i as int)),
        decreases sizes.len() - i,
    {
        proof {
            assert(sizes@.take(i + 1).drop_last() =~= sizes@.take(i as int));
            lemma_size_sum(sizes@, i + 1);
        }
        match sizes[i] {
            Some(n) => {
                total += n;
            },
            None => {},
        }
        i += 1;
    }
    assert(sizes@.take(i as int) =~= sizes@);
    total
}

// ---------------------------------------------------------------- checking

/// How many listed games are complete, and how many are not.
#[derive(Debug)]
pub struct VerifyResult {
    pub verified: usize,
    pub errors: usize,
}

/// Whether a game has parts, and all of them are there and not empty.
pub open spec fn is_complete(game: ListedView) -> bool {
    &&& game.entry.parts > 0
    &&& game.sizes.len() == game.entry.parts
    &&& forall|i: int|
        0 <= i < game.sizes.len() ==> (#[trigger] game.sizes[i] matches Some(n) && n > 0)
}

/// How many of the games are complete.
pub open spec fn complete_count(games: Seq<ListedView>) -> nat
    decreases games.len(),
{
    if games.len() == 0 {
        0
    } else {
        complete_count(games.drop_last()) + if is_complete(games.last()) {
            1nat
        } else {
            0nat
        }
    }
}

/// Whether a game has parts, and all of them are there and not empty.
fn check_game(game: &ListedGame) -> (ok: bool)
    ensures
        ok == is_complete(game@),
{
    let mut i: usize = 0;
    while i < game.sizes.len()
        invariant
            i <= game.sizes.len(),
            forall|k: int| 0 <= k < i ==> (#[trigger] game@.sizes[k] matches Some(n) && n > 0),
        decreases game.sizes.len() - i,
    {
        let there = match game.sizes[i] {
            Some(n) => n > 0,
            None => false,
        };
        if !there {
            assert(!(game@.sizes[i as int] matches Some(n) && n > 0));
            return false;
        }
        i += 1;
    }
    game.entry.parts > 0 && game.sizes.len() == game.entry.parts as usize
}

/// Checks that the chunk files of each listed game are there and not empty.
pub fn verify_games(games: &[ListedGame]) -> (r: VerifyResult)
    ensures
        r.verified == complete_count(listed_views(games@)),
        r.verified + r.errors == games@.len(),
{
    let ghost all = listed_views(games@);
    let mut verified: usize = 0;
    let mut errors: usize = 0;
    let mut i: usize = 0;
    while i < games.len()
        invariant
            i <= games.len(),
            all == listed_views(games@),
            verified == complete_count(all.take(i as int)),
            verified + errors == i,
        decreases games.len() - i,
    {
        proof {
            assert(all.take(i + 1).drop_last() =~= all.take(i as int));
            assert(all.take(i + 1).last() == games@[i as int]@);
        }
        if check_game(&games[i]) {
            verified += 1;
        } else {
            errors += 1;
        }
        i += 1;
    }
    assert(all.take(i as int) =~= all);
    VerifyResult { verified, errors }
}

// ---------------------------------------------------------------- listing

/// A game on the device.
#[derive(Debug, Clone)]
pub struct GameEntry {
    pub game_id: String,
    pub title: String,
    pub parts: u16,
    pub size: u64,
    /// Where it is: `root`, `CD` or `DVD`.
    pub location: String,
    /// How it is stored: `split` or `nosplit`.
    pub mode: String,
}

/// What a [`GameEntry`] holds.
#[verifier::ext_equal]
pub struct GameView {
    pub game_id: Seq<char>,
    pub title: Seq<char>,
    pub parts: u16,
    pub size: u64,
    pub location: Seq<char>,
    pub mode: Seq<char>,
}

impl View for GameEntry {
    type V = GameView;

    open spec fn view(&self) -> GameView {
        GameView {
            game_id: self.game_id@,
            title: self.title@,
            parts: self.parts,
            size: self.size,
            location: self.location@,
            mode: self.mode@,
        }
    }
}

/// What some games hold.
pub open spec fn game_views(games: Seq<GameEntry>) -> Seq<GameView> {
    Seq::new(games.len(), |i: int| games[i]@)
}

/// The ids of some games.
pub open spec fn ids_of(games: Seq<GameView>) -> Seq<Seq<char>> {
    Seq::new(games.len(), |i: int| games[i].game_id)
}

/// A file in the directory `CD` or `DVD`.
#[derive(Debug, Clone)]
pub struct IsoFile {
    pub name: String,
    /// Its size, or zero where that cannot be found out.
    pub size: u64,
    /// The bytes of its label field, where they can be read.
    pub label: Option<Vec<u8>>,
}

/// What an [`IsoFile`] holds.
#[verifier::ext_equal]
pub struct IsoFileView {
    pub name: Seq<char>,
    pub size: u64,
    pub label: Option<Seq<u8>>,
}

impl View for IsoFile {
    type V = IsoFileView;

    open spec fn view(&self) -> IsoFileView {
        IsoFileView {
            name: self.name@,
            size: self.size,
            label: match self.label {
                Some(bytes) => Some(bytes@),
                None => None,
            },
        }
    }
}

/// What the files of a directory of images hold.
pub open spec fn iso_views(files: Seq<IsoFile>) -> Seq<IsoFileView> {
    Seq::new(files.len(), |i: int| files[i]@)
}

/// The game of a listed entry.
pub open spec fn listed_game(game: ListedView) -> GameView {
    GameView {
        game_id: game.entry.game_id,
        title: game.entry.title,
        parts: game.entry.parts,
        size: size_sum(game.sizes) as u64,
        location: "root"@,
        mode: "split"@,
    }
}

/// The game in a file of the directory `location`: every file `<game id>.iso` is one. Its name is
/// the volume label, or the id where it has none.
pub open spec fn iso_game(file: IsoFileView, location: Seq<char>) -> Option<GameView> {
    if ends_with(file.name, ".iso"@) && file.name.len() > 4 {
        let id = file.name.take(file.name.len() - 4);
        let label = match file.label {
            Some(bytes) => label_in_text(decoded(bytes)),
            None => None,
        };
        Some(
            GameView {
                game_id: id,
                title: match label {
                    Some(title) => title,
                    None => id,
                },
                parts: 1,
                size: file.size,
                location,
                mode: "nosplit"@,
            },
        )
    } else {
        None
    }
}

/// The games in the files of the directory `location`.
pub open spec fn iso_games(files: Seq<IsoFileView>, location: Seq<char>) -> Seq<GameView>
    decreases files.len(),
{
    if files.len() == 0 {
        seq![]
    } else {
        let before = iso_games(files.drop_last(), location);
        match iso_game(files.last(), location) {
            Some(game) => before.push(game),
            None => before,
        }
    }
}

/// The game of chunks that no list names.
pub open spec fn orphan_game(group: GroupView) -> GameView {
    GameView {
        game_id: group.game_id,
        title: group.game_id,
        parts: group.parts,
        size: group.total,
        location: "root"@,
        mode: "split"@,
    }
}

/// The listed games, then the images in `CD` and in `DVD`.
pub open spec fn known_games(
    listed: Seq<ListedView>,
    cd: Seq<IsoFileView>,
    dvd: Seq<IsoFileView>,
) -> Seq<GameView> {
    Seq::new(listed.len(), |i: int| listed_game(listed[i])) + iso_games(cd, "CD"@) + iso_games(
        dvd,
        "DVD"@,
    )
}

/// The games of chunks in the root directory that none of the games `known` covers.
pub open spec fn orphan_games(root: Seq<DirFileView>, known: Seq<GameView>) -> Seq<GameView> {
    let groups = grouped(root, ids_of(known));
    Seq::new(groups.len(), |i: int| orphan_game(groups[i]))
}

/// All games on the device.
pub open spec fn all_games(
    listed: Seq<ListedView>,
    cd: Seq<IsoFileView>,
    dvd: Seq<IsoFileView>,
    root: Seq<DirFileView>,
) -> Seq<GameView> {
    let known = known_games(listed, cd, dvd);
    known + orphan_games(root, known)
}

/// The sizes of the games can be summed up.
pub open spec fn can_sum(listed: Seq<ListedView>) -> bool {
    forall|i: int| 0 <= i < listed.len() ==> size_sum((#[trigger] listed[i]).sizes) <= u64::MAX
}

/// The game in a file of the directory `location`.
fn make_iso_game(file: &IsoFile, location: &str) -> (game: Option<GameEntry>)
    ensures
        match game {
            Some(g) => iso_game(file@, location@) == Some(g@),
            None => iso_game(file@, location@) is None,
        },
{
    let chars = to_chars(file.name.as_str());
    proof {
        reveal_strlit(".iso");
    }
    if !has_suffix(chars.as_slice(), ".iso") || chars.len() <= 4 {
        return None;
    }
    let id = from_chars(slice_subrange(chars.as_slice(), 0, chars.len() - 4));
    assert(id@ =~= file@.name.take(file@.name.len() - 4));
    let label = match &file.label {
        Some(bytes) => extract_volume_label(bytes.as_slice()),
        None => None,
    };
    let title = match label {
        Some(title) => title,
        None => id.clone(),
    };
    Some(
        GameEntry {
            game_id: id,
            title,
            parts: 1,
            size: file.size,
            location: location.to_owned(),
            mode: "nosplit".to_owned(),
        },
    )
}

/// Appends the games in the files of the directory `location`.
fn push_iso_games(games: &mut Vec<GameEntry>, files: &[IsoFile], location: &str)
    ensures
        game_views(final(games)@) == game_views(old(games)@) + iso_games(
            iso_views(files@),
            location@,
        ),
{
    let ghost start = game_views(games@);
    let ghost all = iso_views(files@);
    let mut i: usize = 0;
    assert(start + iso_games(all.take(0), location@) =~= start);
    while i < files.len()
        invariant
            i <= files.len(),
            all == iso_views(files@),
            game_views(games@) == start + iso_games(all.take(i as int), location@),
        decreases files.len() - i,
    {
        let ghost before = game_views(games@);
        proof {
            assert(all.take(i + 1).drop_last() =~= all.take(i as int));
            assert(all.take(i + 1).last() == files@[i as int]@);
        }
        match make_iso_game(&files[i], location) {
            Some(game) => {
                games.push(game);
                assert(game_views(games@) =~= before.push(game@));
                assert(game_views(games@) =~= start + iso_games(all.take(i + 1), location@));
            },
            None => {},
        }
        i += 1;
    }
    assert(all.take(i as int) =~= all);
}

/// The listed games, then the images in `CD` and in `DVD`.
fn make_known_games(listed: &[ListedGame], cd: &[IsoFile], dvd: &[IsoFile]) -> (games: Vec<
    GameEntry,
>)
    requires
        can_sum(listed_views(listed@)),
    ensures
        game_views(games@) == known_games(
            listed_views(listed@),
            iso_views(cd@),
            iso_views(dvd@),
        ),
{
    let ghost all = listed_views(listed@);
    let mut games: Vec<GameEntry> = Vec::new();
    let mut i: usize = 0;
    while i < listed.len()
        invariant
            i <= listed.len(),
            all == listed_views(listed@),
            can_sum(all),
            game_views(games@) == Seq::new(i as nat, |k: int| listed_game(all[k])),
        decreases listed.len() - i,
    {
        let ghost before = game_views(games@);
        let entry = &listed[i].entry;
        assert(all[i as int] == listed@[i as int]@);
        let game = GameEntry {
            game_id: entry.game_id.clone(),
            title: entry.title.clone(),
            parts: entry.parts,
            size: sum_chunk_sizes(listed[i].sizes.as_slice()),
            location: "root".to_owned(),
            mode: "split".to_owned(),
        };
        games.push(game);
        assert(game@ =~= listed_game(all[i as int]));
        assert(game_views(games@) =~= before.push(game@));
        i += 1;
    }
    push_iso_games(&mut games, cd, "CD");
    push_iso_games(&mut games, dvd, "DVD");
    games
}

/// The ids of some games.
fn collect_ids(games: &[GameEntry]) -> (ids: Vec<String>)
    ensures
        texts(ids@) == ids_of(game_views(games@)),
{
    let mut ids: Vec<String> = Vec::new();
    let mut i: usize = 0;
    while i < games.len()
        invariant
            i <= games.len(),
            texts(ids@) == ids_of(game_views(games@)).take(i as int),
        decreases games.len() - i,
    {
        let ghost before = texts(ids@);
        ids.push(games[i].game_id.clone());
        assert(texts(ids@) =~= before.push(games@[i as int].game_id@));
        i += 1;
    }
    assert(texts(ids@) =~= ids_of(game_views(games@)));
    ids
}

/// Whether the sizes and chunks of the games on a device can be counted, as
/// [`list_device_games`] asks.
pub fn can_list_games(
    listed: &[ListedGame],
    cd: &[IsoFile],
    dvd: &[IsoFile],
    root: &[DirFile],
) -> (b: bool)
    ensures
        b == (can_sum(listed_views(listed@)) && countable(
            file_views(root@),
            ids_of(known_games(listed_views(listed@), iso_views(cd@), iso_views(dvd@))),
        )),
{
    let ghost all = listed_views(listed@);
    let mut i: usize = 0;
    while i < listed.len()
        invariant
            i <= listed.len(),
            all == listed_views(listed@),
            forall|k: int| 0 <= k < i ==> size_sum((#[trigger] all[k]).sizes) <= u64::MAX,
        decreases listed.len() - i,
    {
        assert(all[i as int] == listed@[i as int]@);
        if !has_sum(listed[i].sizes.as_slice()) {
            return false;
        }
        i += 1;
    }
    let games = make_known_games(listed, cd, dvd);
    can_count_chunks(root, collect_ids(games.as_slice()).as_slice())
}

/// Whether some sizes can be summed up.
pub fn has_sum(sizes: &[Option<u64>]) -> (b: bool)
    ensures
        b == (size_sum(sizes@) <= u64::MAX),
{
    let mut total: u128 = 0;
    let mut i: usize = 0;
    while i < sizes.len()
        invariant
            i <= sizes.len(),
            total == size_sum(sizes@.take(i as int)),
            total <= i * 0xFFFF_FFFF_FFFF_FFFF,
        decreases sizes.len() - i,
    {
        assert(sizes@.take(i + 1).drop_last() =~= sizes@.take(i as int));
        match sizes[i] {
            Some(n) => {
                total += n as u128;
            },
            None => {},
        }
        i += 1;
    }
    assert(sizes@.take(i as int) =~= sizes@);
    total <= u64::MAX as u128
}

/// Lists all games on the device: those of the game list, the images in `CD` and in `DVD`, and
/// those that only chunk files show.
pub fn list_device_games(
    listed: &[ListedGame],
    cd: &[IsoFile],
    dvd: &[IsoFile],
    root: &[DirFile],
) -> (games: Vec<GameEntry>)
    requires
        can_sum(listed_views(listed@)),
        countable(
            file_views(root@),
            ids_of(known_games(listed_views(listed@), iso_views(cd@), iso_views(dvd@))),
        ),
    ensures
        game_views(games@) == all_games(
            listed_views(listed@),
            iso_views(cd@),
            iso_views(dvd@),
            file_views(root@),
        ),
{
    let mut games = make_known_games(listed, cd, dvd);
    let ghost known = game_views(games@);
    let ids = collect_ids(games.as_slice());
    let groups = group_chunks(root, ids.as_slice());
    let ghost all = group_views(groups@);
    let mut i: usize = 0;
    while i < groups.len()
        invariant
            i <= groups.len(),
            all == group_views(groups@),
            game_views(games@) == known + Seq::new(i as nat, |k: int| orphan_game(all[k])),
        decreases groups.len() - i,
    {
        let ghost before = game_views(games@);
        let group = &groups[i];
        assert(all[i as int] == groups@[i as int]@);
        let game = GameEntry {
            title: group.game_id.clone(),
            game_id: group.game_id.clone(),
            parts: group.parts,
            size: group.total,
            location: "root".to_owned(),
            mode: "split".to_owned(),
        };
        games.push(game);
        assert(game@ =~= orphan_game(all[i as int]));
        assert(game_views(games@) =~= before.push(game@));
        i += 1;
    }
    assert(game_views(games@) =~= known + orphan_games(file_views(root@), known));
    games
}

/// No game is missed: every listed game, and every game with a chunk in the root directory, is
/// among the games.
pub proof fn law_no_game_missed(
    listed: Seq<ListedView>,
    cd: Seq<IsoFileView>,
    dvd: Seq<IsoFileView>,
    root: Seq<DirFileView>,
    id: Seq<char>,
)
    ensures
        forall|i: int|
            0 <= i < listed.len() ==> ids_of(all_games(listed, cd, dvd, root)).contains(
                (#[trigger] listed[i]).entry.game_id,
            ),
        chunk_count(root, id) > 0 ==> ids_of(all_games(listed, cd, dvd, root)).contains(id),
{
    let known = known_games(listed, cd, dvd);
    let all = all_games(listed, cd, dvd, root);
    let ids = ids_of(all);
    assert forall|i: int| 0 <= i < listed.len() implies ids.contains(
        (#[trigger] listed[i]).entry.game_id,
    ) by {
        assert(known[i] == listed_game(listed[i]));
        assert(all[i] == known[i]);
        assert(ids[i] == listed[i].entry.game_id);
    }
    if chunk_count(root, id) > 0 {
        if ids_of(known).contains(id) {
            let i = choose|i: int| 0 <= i < known.len() && ids_of(known)[i] == id;
            assert(all[i] == known[i]);
            assert(ids[i] == id);
        } else {
            law_listed_ids(root, ids_of(known), id);
            let found = chunk_ids(root, ids_of(known));
            let i = choose|i: int| 0 <= i < found.len() && found[i] == id;
            let orphans = orphan_games(root, known);
            assert(orphans[i].game_id == id);
            assert(all[known.len() + i] == orphans[i]);
            assert(ids[known.len() + i] == id);
        }
    }
}

/// A game that only chunk files show is listed once, and only where no listed game or image has
/// its id.
pub proof fn law_orphans_are_new(root: Seq<DirFileView>, known: Seq<GameView>, i: int, j: int)
    requires
        0 <= i < orphan_games(root, known).len(),
        0 <= j < orphan_games(root, known).len(),
    ensures
        !ids_of(known).contains(orphan_games(root, known)[i].game_id),
        i != j ==> orphan_games(root, known)[i].game_id != orphan_games(root, known)[j].game_id,
{
    let found = chunk_ids(root, ids_of(known));
    crate::chunks::law_listed_in_order(root, ids_of(known));
    assert(found.contains(found[i]));
    law_listed_ids(root, ids_of(known), found[i]);
    law_text_order(found[i], found[i], found[i]);
    assert(orphan_games(root, known)[i].game_id == found[i]);
    assert(orphan_games(root, known)[j].game_id == found[j]);
}

// ---------------------------------------------------------------- sorting the list

/// The keys by which a list is sorted: the names in lower case, or the numbers of chunks.
pub open spec fn sort_keys(entries: Seq<EntryView>, by_name: bool) -> Seq<Seq<u64>> {
    Seq::new(
        entries.len(),
        |i: int|
            if by_name {
                code_points(lowercase(entries[i].title))
            } else {
                seq![entries[i].parts as u64]
            },
    )
}

/// Whether a word asks to sort by name.
pub open spec fn sorts_by_name(sort_by: Seq<char>) -> bool {
    sort_by == "name"@ || sort_by == "name-desc"@
}

/// Whether a word asks to sort by size, which the number of chunks stands for.
pub open spec fn sorts_by_size(sort_by: Seq<char>) -> bool {
    sort_by == "size"@ || sort_by == "size-desc"@
}

/// Whether a word asks to sort downward.
pub open spec fn sorts_down(sort_by: Seq<char>) -> bool {
    sort_by == "name-desc"@ || sort_by == "size-desc"@
}

/// Whether `after` is the list `before` sorted as `sort_by` says; an unknown word sorts nothing.
pub open spec fn is_sorted_list(
    before: Seq<EntryView>,
    sort_by: Seq<char>,
    after: Seq<EntryView>,
) -> bool {
    if sorts_by_name(sort_by) || sorts_by_size(sort_by) {
        exists|order: Seq<int>|
            #[trigger] is_sort_order(
                sort_keys(before, sorts_by_name(sort_by)),
                sorts_down(sort_by),
                order,
            ) && after == arranged(before, order)
    } else {
        after == before
    }
}

/// The keys by which a list is sorted.
fn make_keys(entries: &[UlEntry], by_name: bool) -> (keys: Vec<Vec<u64>>)
    ensures
        key_views(keys@) == sort_keys(entry_views(entries@), by_name),
{
    let ghost all = entry_views(entries@);
    let mut keys: Vec<Vec<u64>> = Vec::new();
    let mut i: usize = 0;
    while i < entries.len()
        invariant
            i <= entries.len(),
            all == entry_views(entries@),
            key_views(keys@) == sort_keys(all, by_name).take(i as int),
        decreases entries.len() - i,
    {
        let ghost before = key_views(keys@);
        assert(all[i as int] == entries@[i as int]@);
        let key = if by_name {
            text_key(to_lowercase(entries[i].title.as_str()).as_str())
        } else {
            number_key(entries[i].parts as u64)
        };
        keys.push(key);
        assert(key_views(keys@) =~= before.push(key@));
        i += 1;
    }
    assert(key_views(keys@) =~= sort_keys(all, by_name));
    keys
}

/// The entries in an order.
fn arrange(entries: &[UlEntry], order: &[usize]) -> (sorted: Vec<UlEntry>)
    requires
        forall|i: int| 0 <= i < order@.len() ==> (#[trigger] order@[i]) < entries@.len(),
    ensures
        entry_views(sorted@) == arranged(entry_views(entries@), indices(order@)),
{
    let ghost all = entry_views(entries@);
    let mut sorted: Vec<UlEntry> = Vec::new();
    let mut i: usize = 0;
    while i < order.len()
        invariant
            i <= order.len(),
            all == entry_views(entries@),
            forall|i: int| 0 <= i < order@.len() ==> (#[trigger] order@[i]) < entries@.len(),
            entry_views(sorted@) == arranged(all, indices(order@)).take(i as int),
        decreases order.len() - i,
    {
        let ghost before = entry_views(sorted@);
        let k: usize = order[i];
        let entry = entries[k].duplicate();
        assert(all[k as int] == entries@[k as int]@);
        sorted.push(entry);
        assert(entry_views(sorted@) =~= before.push(entry@));
        i += 1;
    }
    assert(entry_views(sorted@) =~= arranged(all, indices(order@)));
    sorted
}

/// Sorts the game list. Gives the number of games and the file.
pub fn sort_ulcfg(data: &[u8], sort_by: &str) -> (r: (usize, Vec<u8>))
    ensures
        r.0 == parsed(data@).len(),
        exists|sorted: Seq<EntryView>|
            is_sorted_list(parsed(data@), sort_by@, sorted) && r.1@ == serialized(sorted),
        all_within_fields(parsed(data@)) ==> is_sorted_list(
            all_stored(parsed(data@)),
            sort_by@,
            parsed(r.1@),
        ) && forall|again: Seq<EntryView>|
            is_sorted_list(parsed(r.1@), sort_by@, again) ==> #[trigger] serialized(again) == r.1@,
{
    let entries = parse_ulcfg(data);
    let by_name = same_text(sort_by, "name") || same_text(sort_by, "name-desc");
    let by_size = same_text(sort_by, "size") || same_text(sort_by, "size-desc");
    let down = same_text(sort_by, "name-desc") || same_text(sort_by, "size-desc");
    assert(by_name == sorts_by_name(sort_by@));
    assert(down == sorts_down(sort_by@));
    let ghost all = entry_views(entries@);
    assert(all.len() == entries.len());
    if by_name || by_size {
        let keys = make_keys(entries.as_slice(), by_name);
        let order = sort_order(keys.as_slice(), down);
        let ghost places = indices(order@);
        assert forall|i: int| 0 <= i < order@.len() implies (#[trigger] order@[i]) < entries@.len() by {
            assert(places[i] == order@[i] as int);
        }
        let sorted = arrange(entries.as_slice(), order.as_slice());
        assert(is_sort_order(sort_keys(all, by_name), down, places));
        assert(is_sorted_list(all, sort_by@, entry_views(sorted@)));
        proof {
            lemma_sorted_file(data@, sort_by@, entry_views(sorted@));
        }
        (sorted.len(), write_ulcfg(sorted.as_slice()))
    } else {
        assert(is_sorted_list(all, sort_by@, all));
        proof {
            lemma_sorted_file(data@, sort_by@, all);
        }
        (entries.len(), write_ulcfg(entries.as_slice()))
    }
}

/// Sorting has one outcome.
pub proof fn law_sorted_list_is_unique(
    before: Seq<EntryView>,
    sort_by: Seq<char>,
    a: Seq<EntryView>,
    b: Seq<EntryView>,
)
    requires
        is_sorted_list(before, sort_by, a),
        is_sorted_list(before, sort_by, b),
    ensures
        a == b,
{
    let keys = sort_keys(before, sorts_by_name(sort_by));
    let down = sorts_down(sort_by);
    if sorts_by_name(sort_by) || sorts_by_size(sort_by) {
        let x = choose|order: Seq<int>|
            #[trigger] is_sort_order(keys, down, order) && a == arranged(before, order);
        let y = choose|order: Seq<int>|
            #[trigger] is_sort_order(keys, down, order) && b == arranged(before, order);
        crate::order::law_sort_is_unique(keys, down, x, y);
    }
}

/// A sorted list is in order already.
pub proof fn law_sorting_again(before: Seq<EntryView>, sort_by: Seq<char>, after: Seq<EntryView>)
    requires
        is_sorted_list(before, sort_by, after),
    ensures
        is_sorted_list(after, sort_by, after),
{
    let by_name = sorts_by_name(sort_by);
    let down = sorts_down(sort_by);
    let keys = sort_keys(before, by_name);
    if by_name || sorts_by_size(sort_by) {
        let order = choose|order: Seq<int>|
            #[trigger] is_sort_order(keys, down, order) && after == arranged(before, order);
        law_sorted_stays(keys, down, order);
        assert(sort_keys(after, by_name) =~= arranged(keys, order));
        assert(after =~= arranged(after, in_place(keys.len())));
    }
}

/// What is read back after sorting the game list is the old list sorted, where records can hold
/// the names and ids of all its entries.
pub proof fn law_sorted_file_reads_back(
    data: Seq<u8>,
    sort_by: Seq<char>,
    sorted: Seq<EntryView>,
)
    requires
        forall|i: int| 0 <= i < parsed(data).len() ==> storable(#[trigger] parsed(data)[i]),
        is_sorted_list(parsed(data), sort_by, sorted),
    ensures
        parsed(serialized(sorted)) == all_stored(sorted),
        is_sorted_list(all_stored(parsed(data)), sort_by, parsed(serialized(sorted))),
{
    let before = parsed(data);
    let by_name = sorts_by_name(sort_by);
    let down = sorts_down(sort_by);
    assert forall|i: int| 0 <= i < sorted.len() implies storable(#[trigger] sorted[i]) by {
        law_sorting_keeps_games(before, sort_by, sorted, sorted[i]);
        let k = choose|k: int| 0 <= k < before.len() && before[k] == sorted[i];
        assert(storable(before[k]));
    }
    law_file_round_trip(sorted);
    if by_name || sorts_by_size(sort_by) {
        let keys = sort_keys(before, by_name);
        let order = choose|order: Seq<int>|
            #[trigger] is_sort_order(keys, down, order) && sorted == arranged(before, order);
        lemma_parsed_parts(data);
        assert(sort_keys(all_stored(before), by_name) =~= keys);
        assert(all_stored(sorted) =~= arranged(all_stored(before), order));
    }
}

/// Sorting the game list a second time writes the same file, where records can hold the names and
/// ids of all its entries.
pub proof fn law_sorting_file_again(
    data: Seq<u8>,
    sort_by: Seq<char>,
    once: Seq<EntryView>,
    twice: Seq<EntryView>,
)
    requires
        forall|i: int| 0 <= i < parsed(data).len() ==> storable(#[trigger] parsed(data)[i]),
        is_sorted_list(parsed(data), sort_by, once),
        is_sorted_list(parsed(serialized(once)), sort_by, twice),
    ensures
        serialized(twice) == serialized(once),
{
    let stored = all_stored(once);
    law_sorted_file_reads_back(data, sort_by, once);
    law_sorting_again(all_stored(parsed(data)), sort_by, stored);
    law_sorted_list_is_unique(stored, sort_by, stored, twice);
    lemma_same_file(stored, once);
}

/// What sorting a file of plain entries gives back, and that a second time changes nothing.
proof fn lemma_sorted_file(data: Seq<u8>, sort_by: Seq<char>, sorted: Seq<EntryView>)
    requires
        forall|i: int| 0 <= i < parsed(data).len() ==> is_plain(#[trigger] parsed(data)[i]),
        is_sorted_list(parsed(data), sort_by, sorted),
    ensures
        all_within_fields(parsed(data)) ==> is_sorted_list(
            all_stored(parsed(data)),
            sort_by,
            parsed(serialized(sorted)),
        ) && forall|again: Seq<EntryView>|
            is_sorted_list(parsed(serialized(sorted)), sort_by, again) ==> #[trigger] serialized(
                again,
            ) == serialized(sorted),
{
    if all_within_fields(parsed(data)) {
        assert forall|i: int| 0 <= i < parsed(data).len() implies storable(
            #[trigger] parsed(data)[i],
        ) by {
            assert(within_fields(parsed(data)[i]));
        }
        law_sorted_file_reads_back(data, sort_by, sorted);
        assert forall|again: Seq<EntryView>|
            is_sorted_list(parsed(serialized(sorted)), sort_by, again) implies #[trigger] serialized(
            again,
        ) == serialized(sorted) by {
            law_sorting_file_again(data, sort_by, sorted, again);
        }
    }
}

/// A sorted list is in the order that was asked for: by the names in lower case, or by the
/// numbers of chunks, upward or downward; and an unknown word changes nothing.
pub proof fn law_sorted_order(
    before: Seq<EntryView>,
    sort_by: Seq<char>,
    after: Seq<EntryView>,
    i: int,
    j: int,
)
    requires
        is_sorted_list(before, sort_by, after),
        0 <= i < j < after.len(),
    ensures
        sort_by == "name"@ ==> !text_less(lowercase(after[j].title), lowercase(after[i].title)),
        sort_by == "name-desc"@ ==> !text_less(
            lowercase(after[i].title),
            lowercase(after[j].title),
        ),
        sort_by == "size"@ ==> after[i].parts <= after[j].parts,
        sort_by == "size-desc"@ ==> after[i].parts >= after[j].parts,
        !sorts_by_name(sort_by) && !sorts_by_size(sort_by) ==> after == before,
{
    reveal_strlit("name");
    reveal_strlit("name-desc");
    reveal_strlit("size");
    reveal_strlit("size-desc");
    assert("name"@[0] != "size"@[0] && "name-desc"@[0] != "size"@[0] && "name"@[0]
        != "size-desc"@[0] && "name-desc"@[0] != "size-desc"@[0]);
    assert("name"@.len() != "name-desc"@.len() && "size"@.len() != "size-desc"@.len());
    let by_name = sorts_by_name(sort_by);
    let down = sorts_down(sort_by);
    let keys = sort_keys(before, by_name);
    if by_name || sorts_by_size(sort_by) {
        let order = choose|order: Seq<int>|
            #[trigger] is_sort_order(keys, down, order) && after == arranged(before, order);
        let (a, b) = (order[i], order[j]);
        assert(goes_before(keys, down, a, b));
        lemma_lex_total(keys[a], keys[b]);
        lemma_number_order(after[i].parts as u64, after[j].parts as u64);
    }
}

/// Entries that have the same key keep the order in which they were.
pub proof fn law_sorting_is_stable(
    before: Seq<EntryView>,
    sort_by: Seq<char>,
    after: Seq<EntryView>,
) -> (order: Seq<int>)
    requires
        is_sorted_list(before, sort_by, after),
    ensures
        is_permutation(order, before.len()),
        after == arranged(before, order),
        forall|i: int, j: int|
            0 <= i < j < order.len() && sort_keys(after, sorts_by_name(sort_by))[i] == sort_keys(
                after,
                sorts_by_name(sort_by),
            )[j] ==> #[trigger] order[i] < #[trigger] order[j],
{
    let by_name = sorts_by_name(sort_by);
    let down = sorts_down(sort_by);
    let keys = sort_keys(before, by_name);
    if by_name || sorts_by_size(sort_by) {
        let order = choose|order: Seq<int>|
            #[trigger] is_sort_order(keys, down, order) && after == arranged(before, order);
        lemma_sort_is_permutation(keys, down, order);
        assert(sort_keys(after, by_name) =~= arranged(keys, order));
        assert forall|i: int, j: int|
            0 <= i < j < order.len() && sort_keys(after, by_name)[i] == sort_keys(
                after,
                by_name,
            )[j] implies #[trigger] order[i] < #[trigger] order[j] by {
            assert(goes_before(keys, down, order[i], order[j]));
        }
        order
    } else {
        let order = in_place(before.len());
        assert(after =~= arranged(before, order));
        order
    }
}

/// After sorting a file whose fields hold UTF-8 the same games are read, in the order asked for,
/// and sorting it once more writes the same file; as long as no id has more than twelve bytes and
/// every media type is that of a CD or a DVD.
pub proof fn law_sorted_text_file(data: Seq<u8>, sort_by: Seq<char>, sorted: Seq<EntryView>)
    requires
        is_text_list(data),
        forall|i: int|
            0 <= i < parsed(data).len() ==> encode_utf8((#[trigger] parsed(data)[i]).game_id).len()
                <= 12 && (parsed(data)[i].media == MEDIA_CD || parsed(data)[i].media == MEDIA_DVD),
        is_sorted_list(parsed(data), sort_by, sorted),
    ensures
        parsed(serialized(sorted)) == sorted,
        sorted.to_multiset() == parsed(data).to_multiset(),
        forall|again: Seq<EntryView>|
            is_sorted_list(sorted, sort_by, again) ==> #[trigger] serialized(again) == serialized(
                sorted,
            ),
{
    let before = parsed(data);
    law_text_list_reads_plain(data);
    lemma_parsed_parts(data);
    law_sorted_file_reads_back(data, sort_by, sorted);
    let order = law_sorting_is_stable(before, sort_by, sorted);
    lemma_arranged_multiset(before, order);
    assert forall|i: int| 0 <= i < sorted.len() implies as_stored(sorted[i]) == sorted[i] by {
        assert(sorted[i] == before[order[i]]);
        assert(as_stored(sorted[i]) =~= sorted[i]);
    }
    assert(all_stored(sorted) =~= sorted);
    assert forall|again: Seq<EntryView>|
        is_sorted_list(sorted, sort_by, again) implies #[trigger] serialized(again) == serialized(
        sorted,
    ) by {
        law_sorting_file_again(data, sort_by, sorted, again);
    }
}

/// The records of a file have room for at most 255 chunks, and none for a mount point.
proof fn lemma_parsed_parts(data: Seq<u8>)
    ensures
        forall|i: int|
            0 <= i < parsed(data).len() ==> (#[trigger] parsed(data)[i]).parts <= 255
                && parsed(data)[i].mount_point == Seq::<char>::empty(),
    decreases data.len(),
{
    if data.len() >= ENTRY_SIZE {
        let all = parsed(data);
        let rest = parsed(data.skip(ENTRY_SIZE as int));
        lemma_parsed_parts(data.skip(ENTRY_SIZE as int));
        assert forall|i: int| 0 <= i < all.len() implies (#[trigger] all[i]).parts <= 255
            && all[i].mount_point == Seq::<char>::empty() by {
            if all.len() == rest.len() {
                assert(all[i] == rest[i]);
            } else if i > 0 {
                assert(all[i] == rest[i - 1]);
            }
        }
    }
}

/// Sorting loses no game and adds none.
pub proof fn law_sorting_keeps_games(
    before: Seq<EntryView>,
    sort_by: Seq<char>,
    after: Seq<EntryView>,
    entry: EntryView,
)
    requires
        is_sorted_list(before, sort_by, after),
    ensures
        after.len() == before.len(),
        after.to_multiset() == before.to_multiset(),
        after.contains(entry) <==> before.contains(entry),
{
    let order = law_sorting_is_stable(before, sort_by, after);
    lemma_arranged_multiset(before, order);
    before.to_multiset_ensures();
    after.to_multiset_ensures();
    assert(after.to_multiset().count(entry) == before.to_multiset().count(entry));
}

// ---------------------------------------------------------------- laws

/// Whether a file is named as an image is: an id, and `.iso` behind it.
pub open spec fn is_image_name(name: Seq<char>) -> bool {
    exists|id: Seq<char>| id.len() > 0 && name == #[trigger] (id + ".iso"@)
}

/// The files that are named as images are.
pub open spec fn named_images() -> spec_fn(IsoFileView) -> bool {
    |file: IsoFileView| is_image_name(file.name)
}

/// The games that are stored whole.
pub open spec fn stored_whole() -> spec_fn(GameView) -> bool {
    |game: GameView| game.mode == "nosplit"@
}

/// The images of a directory are listed in their order, each of them.
pub proof fn law_images_add_up(a: Seq<IsoFileView>, b: Seq<IsoFileView>, location: Seq<char>)
    ensures
        iso_games(a + b, location) == iso_games(a, location) + iso_games(b, location),
        iso_games(Seq::empty(), location) == Seq::<GameView>::empty(),
    decreases b.len(),
{
    if b.len() == 0 {
        assert(a + b =~= a);
        assert(iso_games(a, location) + iso_games(b, location) =~= iso_games(a, location));
    } else {
        assert((a + b).drop_last() =~= a + b.drop_last());
        assert((a + b).last() == b.last());
        law_images_add_up(a, b.drop_last(), location);
        assert(iso_games(a + b, location) =~= iso_games(a, location) + iso_games(b, location));
    }
}

/// A file `<id>.iso` is the whole game of that id, called as its label says, or else by its id; a
/// file of another name is no game.
pub proof fn law_one_image(
    id: Seq<char>,
    size: u64,
    label: Option<Seq<u8>>,
    location: Seq<char>,
    other: IsoFileView,
)
    requires
        id.len() > 0,
    ensures
        iso_games(seq![(IsoFileView { name: id + ".iso"@, size, label })], location) == seq![
            (GameView {
                game_id: id,
                title: if label is Some && label_in_text(decoded(label->0)) is Some {
                    label_in_text(decoded(label->0))->0
                } else {
                    id
                },
                parts: 1,
                size,
                location,
                mode: "nosplit"@,
            }),
        ],
        !is_image_name(other.name) ==> iso_games(seq![other], location).len() == 0,
{
    let file = IsoFileView { name: id + ".iso"@, size, label };
    reveal_strlit(".iso");
    reveal_with_fuel(iso_games, 2);
    law_prefix_and_suffix(file.name, ".iso"@, id);
    assert(file.name.take(file.name.len() - 4) =~= id);
    let none = Seq::<IsoFileView>::empty();
    assert(seq![file].drop_last() =~= none && seq![other].drop_last() =~= none);
    assert(seq![file].last() == file && seq![other].last() == other);
    let game = iso_game(file, location)->0;
    assert(iso_games(seq![file], location) =~= seq![game]);
    law_prefix_and_suffix(other.name, ".iso"@, id);
    if iso_game(other, location) is Some {
        let start = other.name.take(other.name.len() - 4);
        assert(other.name == start + ".iso"@);
        assert(is_image_name(other.name));
    }
}

/// Every image in a directory is among its games.
proof fn lemma_image_is_listed(files: Seq<IsoFileView>, location: Seq<char>, i: int)
    requires
        0 <= i < files.len(),
        iso_game(files[i], location) is Some,
    ensures
        iso_games(files, location).contains(iso_game(files[i], location)->0),
    decreases files.len(),
{
    let game = iso_game(files[i], location)->0;
    let before = iso_games(files.drop_last(), location);
    let all = iso_games(files, location);
    if i < files.len() - 1 {
        lemma_image_is_listed(files.drop_last(), location, i);
        let k = choose|k: int| 0 <= k < before.len() && before[k] == game;
        assert(all[k] == game);
    } else {
        assert(all[before.len() as int] == game);
    }
}

/// Every file `<id>.iso` in the directories `CD` and `DVD` is among the games on the device: as a
/// whole game of that id and that size, in that directory.
pub proof fn law_no_image_missed(
    listed: Seq<ListedView>,
    cd: Seq<IsoFileView>,
    dvd: Seq<IsoFileView>,
    root: Seq<DirFileView>,
    id: Seq<char>,
    i: int,
)
    requires
        id.len() > 0,
    ensures
        0 <= i < cd.len() && cd[i].name == id + ".iso"@ ==> iso_game(cd[i], "CD"@) is Some
            && all_games(listed, cd, dvd, root).contains(iso_game(cd[i], "CD"@)->0)
            && iso_game(cd[i], "CD"@)->0.game_id == id && iso_game(cd[i], "CD"@)->0.size
            == cd[i].size && iso_game(cd[i], "CD"@)->0.parts == 1 && iso_game(
            cd[i],
            "CD"@,
        )->0.location == "CD"@ && iso_game(cd[i], "CD"@)->0.mode == "nosplit"@,
        0 <= i < dvd.len() && dvd[i].name == id + ".iso"@ ==> iso_game(dvd[i], "DVD"@) is Some
            && all_games(listed, cd, dvd, root).contains(iso_game(dvd[i], "DVD"@)->0)
            && iso_game(dvd[i], "DVD"@)->0.game_id == id && iso_game(dvd[i], "DVD"@)->0.size
            == dvd[i].size && iso_game(dvd[i], "DVD"@)->0.parts == 1 && iso_game(
            dvd[i],
            "DVD"@,
        )->0.location == "DVD"@ && iso_game(dvd[i], "DVD"@)->0.mode == "nosplit"@,
        0 <= i < cd.len() && iso_game(cd[i], "CD"@) is Some ==> all_games(
            listed,
            cd,
            dvd,
            root,
        ).contains(iso_game(cd[i], "CD"@)->0),
        0 <= i < dvd.len() && iso_game(dvd[i], "DVD"@) is Some ==> all_games(
            listed,
            cd,
            dvd,
            root,
        ).contains(iso_game(dvd[i], "DVD"@)->0),
{
    let all = all_games(listed, cd, dvd, root);
    let (on_cd, on_dvd) = (iso_games(cd, "CD"@), iso_games(dvd, "DVD"@));
    reveal_strlit(".iso");
    if 0 <= i < cd.len() {
        law_prefix_and_suffix(cd[i].name, ".iso"@, id);
        if cd[i].name == id + ".iso"@ {
            assert(cd[i].name.take(cd[i].name.len() - 4) =~= id);
        }
        if iso_game(cd[i], "CD"@) is Some {
            let game = iso_game(cd[i], "CD"@)->0;
            lemma_image_is_listed(cd, "CD"@, i);
            let k = choose|k: int| 0 <= k < on_cd.len() && on_cd[k] == game;
            assert(all[listed.len() + k] == game);
        }
    }
    if 0 <= i < dvd.len() {
        law_prefix_and_suffix(dvd[i].name, ".iso"@, id);
        if dvd[i].name == id + ".iso"@ {
            assert(dvd[i].name.take(dvd[i].name.len() - 4) =~= id);
        }
        if iso_game(dvd[i], "DVD"@) is Some {
            let game = iso_game(dvd[i], "DVD"@)->0;
            lemma_image_is_listed(dvd, "DVD"@, i);
            let k = choose|k: int| 0 <= k < on_dvd.len() && on_dvd[k] == game;
            assert(all[listed.len() + on_cd.len() + k] == game);
        }
    }
}

/// A directory has one game for each file that is named as an image is, and all are whole.
proof fn lemma_image_count(files: Seq<IsoFileView>, location: Seq<char>)
    ensures
        iso_games(files, location).len() == files.filter(named_images()).len(),
        iso_games(files, location).filter(stored_whole()) == iso_games(files, location),
    decreases files.len(),
{
    reveal(Seq::filter);
    if files.len() > 0 {
        let (rest, file) = (files.drop_last(), files.last());
        lemma_image_count(rest, location);
        reveal_strlit(".iso");
        law_prefix_and_suffix(file.name, ".iso"@, Seq::empty());
        if iso_game(file, location) is Some {
            let start = file.name.take(file.name.len() - 4);
            assert(file.name == start + ".iso"@);
            assert(is_image_name(file.name));
            let (before, all) = (iso_games(rest, location), iso_games(files, location));
            assert(all.drop_last() =~= before);
            assert(all.last() == iso_game(file, location)->0);
        } else if is_image_name(file.name) {
            let id = choose|id: Seq<char>| id.len() > 0 && file.name == #[trigger] (id + ".iso"@);
            law_prefix_and_suffix(file.name, ".iso"@, id);
            assert(false);
        }
    }
}

/// No game of a list is stored whole where none of its games is.
proof fn lemma_none_whole(games: Seq<GameView>)
    requires
        forall|i: int| 0 <= i < games.len() ==> (#[trigger] games[i]).mode == "split"@,
    ensures
        games.filter(stored_whole()).len() == 0,
    decreases games.len(),
{
    reveal(Seq::filter);
    reveal_strlit("split");
    reveal_strlit("nosplit");
    if games.len() > 0 {
        assert("split"@.len() != "nosplit"@.len());
        assert(games.last() == games[games.len() - 1]);
        assert forall|i: int| 0 <= i < games.drop_last().len() implies (
        #[trigger] games.drop_last()[i]).mode == "split"@ by {
            assert(games.drop_last()[i] == games[i]);
        }
        lemma_none_whole(games.drop_last());
    }
}

/// As many games on a device are stored whole as there are files in the directories `CD` and
/// `DVD` that are named as images are.
pub proof fn law_images_are_counted(
    listed: Seq<ListedView>,
    cd: Seq<IsoFileView>,
    dvd: Seq<IsoFileView>,
    root: Seq<DirFileView>,
)
    ensures
        all_games(listed, cd, dvd, root).filter(stored_whole()).len() == cd.filter(
            named_images(),
        ).len() + dvd.filter(named_images()).len(),
{
    let known = known_games(listed, cd, dvd);
    let split = Seq::new(listed.len(), |i: int| listed_game(listed[i]));
    let (on_cd, on_dvd) = (iso_games(cd, "CD"@), iso_games(dvd, "DVD"@));
    let orphans = orphan_games(root, known);
    let whole = stored_whole();
    assert(all_games(listed, cd, dvd, root) == split + on_cd + on_dvd + orphans);
    Seq::filter_distributes_over_add(split + on_cd + on_dvd, orphans, whole);
    Seq::filter_distributes_over_add(split + on_cd, on_dvd, whole);
    Seq::filter_distributes_over_add(split, on_cd, whole);
    lemma_none_whole(split);
    lemma_none_whole(orphans);
    lemma_image_count(cd, "CD"@);
    lemma_image_count(dvd, "DVD"@);
}

/// The games on a device are the listed ones in their order, then the images in `CD`, then those
/// in `DVD`, then those that only chunks show.
pub proof fn law_games_in_order(
    listed: Seq<ListedView>,
    cd: Seq<IsoFileView>,
    dvd: Seq<IsoFileView>,
    root: Seq<DirFileView>,
    i: int,
)
    requires
        0 <= i,
    ensures
        ({
            let all = all_games(listed, cd, dvd, root);
            let (on_cd, on_dvd) = (iso_games(cd, "CD"@), iso_games(dvd, "DVD"@));
            let n = listed.len();
            &&& all.len() >= n + on_cd.len() + on_dvd.len()
            &&& i < n ==> all[i].game_id == listed[i].entry.game_id
            &&& i < on_cd.len() ==> all[n + i] == on_cd[i]
            &&& i < on_dvd.len() ==> all[n + on_cd.len() + i] == on_dvd[i]
            &&& n + on_cd.len() + on_dvd.len() <= i < all.len() ==> all[i].mode == "split"@
                && all[i].location == "root"@
        }),
{
}

/// A listed game keeps its id, its name and its number of parts, and is as large as its chunks
/// together.
pub proof fn law_listed_game(
    listed: Seq<ListedView>,
    cd: Seq<IsoFileView>,
    dvd: Seq<IsoFileView>,
    root: Seq<DirFileView>,
    i: int,
)
    requires
        0 <= i < listed.len(),
        can_sum(listed),
    ensures
        ({
            let game = all_games(listed, cd, dvd, root)[i];
            &&& game.game_id == listed[i].entry.game_id
            &&& game.title == listed[i].entry.title
            &&& game.parts == listed[i].entry.parts
            &&& game.size == size_sum(listed[i].sizes)
            &&& game.location == "root"@
            &&& game.mode == "split"@
        }),
{
    assert(size_sum(listed[i].sizes) <= u64::MAX);
}

/// The chunks of a game that no list names and no image has make one game, called by its id, of
/// as many parts as there are chunks and as large as they are together.
pub proof fn law_game_of_loose_chunks(
    listed: Seq<ListedView>,
    cd: Seq<IsoFileView>,
    dvd: Seq<IsoFileView>,
    root: Seq<DirFileView>,
    id: Seq<char>,
)
    requires
        countable(root, ids_of(known_games(listed, cd, dvd))),
        chunk_count(root, id) > 0,
        !ids_of(known_games(listed, cd, dvd)).contains(id),
    ensures
        all_games(listed, cd, dvd, root).contains(
            (GameView {
                game_id: id,
                title: id,
                parts: chunk_count(root, id) as u16,
                size: chunk_total(root, id) as u64,
                location: "root"@,
                mode: "split"@,
            }),
        ),
        chunk_count(root, id) <= u16::MAX,
        chunk_total(root, id) <= u64::MAX,
{
    let known = known_games(listed, cd, dvd);
    let groups = grouped(root, ids_of(known));
    law_groups(root, ids_of(known));
    let i = choose|i: int| 0 <= i < groups.len() && (#[trigger] groups[i]).game_id == id;
    let all = all_games(listed, cd, dvd, root);
    assert(orphan_games(root, known)[i] == orphan_game(groups[i]));
    assert(all[known.len() + i] == orphan_game(groups[i]));
}

/// The sizes of chunks are summed up over all of them; one that is missing adds nothing.
pub proof fn law_sizes_add_up(a: Seq<Option<u64>>, b: Seq<Option<u64>>, n: u64)
    ensures
        size_sum(a + b) == size_sum(a) + size_sum(b),
        size_sum(seq![Some(n)]) == n,
        size_sum(seq![None]) == 0,
        size_sum(Seq::empty()) == 0,
    decreases b.len(),
{
    if b.len() == 0 {
        assert(a + b =~= a);
        reveal_with_fuel(size_sum, 2);
        let (some, none) = (seq![Some(n)], seq![None::<u64>]);
        assert(some.drop_last() =~= Seq::empty() && some.last() == Some(n));
        assert(none.drop_last() =~= Seq::empty() && none.last() is None);
    } else {
        assert((a + b).drop_last() =~= a + b.drop_last());
        assert((a + b).last() == b.last());
        law_sizes_add_up(a, b.drop_last(), n);
    }
}

/// A game is complete where it has a part or more and every one of them is there and not empty;
/// one that is missing or empty makes it incomplete, wherever it stands.
pub proof fn law_complete_game(game: ListedView, i: int)
    ensures
        game.entry.parts == 0 ==> !is_complete(game),
        game.sizes.len() != game.entry.parts ==> !is_complete(game),
        0 <= i < game.sizes.len() && (game.sizes[i] is None || game.sizes[i] == Some(0u64))
            ==> !is_complete(game),
        game.entry.parts > 0 && game.sizes.len() == game.entry.parts && (forall|k: int|
            0 <= k < game.sizes.len() ==> #[trigger] game.sizes[k] is Some && game.sizes[k]->0 > 0)
            ==> is_complete(game),
{
}

/// The complete games are counted over the whole list, each as one.
pub proof fn law_complete_games_add_up(a: Seq<ListedView>, b: Seq<ListedView>, game: ListedView)
    ensures
        complete_count(a + b) == complete_count(a) + complete_count(b),
        complete_count(seq![game]) == (if is_complete(game) {
            1nat
        } else {
            0nat
        }),
        complete_count(Seq::empty()) == 0,
        complete_count(a) <= a.len(),
    decreases a.len(), b.len(),
{
    if b.len() == 0 {
        assert(a + b =~= a);
        reveal_with_fuel(complete_count, 2);
        assert(seq![game].drop_last() =~= Seq::empty() && seq![game].last() == game);
        if a.len() > 0 {
            law_complete_games_add_up(a.drop_last(), b, game);
        }
    } else {
        assert((a + b).drop_last() =~= a + b.drop_last());
        assert((a + b).last() == b.last());
        law_complete_games_add_up(a, b.drop_last(), game);
    }
}

/// The chunk files of a listed game are `ul.<checksum of its name>.<its id>.<part>`, with the
/// parts counted from `00`; there is one for each part, and one where it is listed with none.
pub proof fn law_chunk_files(title: Seq<char>, id: Seq<char>, parts: u16, i: int)
    requires
        0 <= i < parts || i == 0,
    ensures
        parts > 0 ==> chunk_files(title, id, parts).len() == parts,
        parts == 0 ==> chunk_files(title, id, parts).len() == 1,
        chunk_files(title, id, parts)[i] == "ul."@ + name_crc_hex(title) + "."@ + id + "."@
            + hex_upper(i as nat, 2),
{
}

/// A game with chunks that is listed keeps the name and the media type of its last entry.
pub proof fn law_listed_name_is_kept(
    a: Seq<EntryView>,
    entry: EntryView,
    b: Seq<EntryView>,
    group: GroupView,
)
    requires
        entry.game_id == group.game_id,
        forall|i: int| 0 <= i < b.len() ==> (#[trigger] b[i]).game_id != group.game_id,
    ensures
        title_of_group(a.push(entry) + b, group) == entry.title,
        media_of_group(a.push(entry) + b, group) == entry.media,
{
    let list = a.push(entry) + b;
    lemma_last_with_id(list, group.game_id);
    let k = last_with_id(list, group.game_id);
    assert(list[a.len() as int] == entry);
    if k > a.len() {
        assert(list[k] == b[k - a.len() - 1]);
    }
}

/// A game with chunks that is not listed gets the name of an entry whose name has the checksum of
/// its chunks, of several the one with the greatest game id, and where there is none its id; and
/// its media type is that of its size.
pub proof fn law_unlisted_name(entries: Seq<EntryView>, group: GroupView, i: int)
    requires
        forall|k: int| 0 <= k < entries.len() ==> (#[trigger] entries[k]).game_id != group.game_id,
    ensures
        media_of_group(entries, group) == media_of_size(group.total),
        (forall|k: int|
            0 <= k < entries.len() ==> name_crc_hex((#[trigger] entries[k]).title) != group.crc)
            ==> title_of_group(entries, group) == group.game_id,
        0 <= i < entries.len() && name_crc_hex(entries[i].title) == group.crc && (forall|k: int|
            0 <= k < entries.len() && k != i && name_crc_hex((#[trigger] entries[k]).title)
                == group.crc ==> text_less(entries[k].game_id, entries[i].game_id)) && (forall|k: int|
            i < k < entries.len() ==> (#[trigger] entries[k]).game_id != entries[i].game_id)
            ==> title_of_group(entries, group) == entries[i].title,
{
    let n = entries.len() as int;
    lemma_last_with_id(entries, group.game_id);
    lemma_best_by_crc(entries, group.crc, n, i);
    let best = best_by_crc(entries, group.crc, n);
    if 0 <= i < n && name_crc_hex(entries[i].title) == group.crc && (forall|k: int|
        0 <= k < entries.len() && k != i && name_crc_hex((#[trigger] entries[k]).title) == group.crc
            ==> text_less(entries[k].game_id, entries[i].game_id)) && (forall|k: int|
        i < k < entries.len() ==> (#[trigger] entries[k]).game_id != entries[i].game_id) {
        lemma_last_with_id(entries, entries[i].game_id);
        assert(matches_crc(entries, i, group.crc));
        lemma_best_is_greatest(entries, group.crc, n, i);
        if best != i {
            assert(name_crc_hex(entries[best].title) == group.crc);
            law_text_order(entries[best].game_id, entries[i].game_id, entries[best].game_id);
        }
    }
}

/// No entry that [`best_by_crc`] could have taken has a greater game id.
proof fn lemma_best_is_greatest(entries: Seq<EntryView>, crc: Seq<char>, n: int, i: int)
    requires
        0 <= i < n <= entries.len(),
        matches_crc(entries, i, crc),
    ensures
        0 <= best_by_crc(entries, crc, n) < n,
        !text_less(entries[best_by_crc(entries, crc, n)].game_id, entries[i].game_id),
    decreases n,
{
    let before = best_by_crc(entries, crc, n - 1);
    let best = best_by_crc(entries, crc, n);
    lemma_best_by_crc(entries, crc, n, i);
    law_text_order(entries[i].game_id, entries[i].game_id, entries[i].game_id);
    if i < n - 1 {
        lemma_best_is_greatest(entries, crc, n - 1, i);
        if best == n - 1 && best != before {
            let (x, y, z) = (entries[before].game_id, entries[best].game_id, entries[i].game_id);
            assert(text_less(x, y));
            law_text_order(x, y, z);
        }
    } else if best != i {
        assert(best == before);
        assert(!text_less(entries[best].game_id, entries[i].game_id));
    }
}

/// The rebuilt list has one entry for each game with chunks, of as many parts as it has chunks, on
/// the device that it is written for.
pub proof fn law_rebuilt_entry(
    entries: Seq<EntryView>,
    files: Seq<DirFileView>,
    dest_dir: Seq<char>,
    i: int,
    j: int,
)
    requires
        countable(files, Seq::empty()),
        0 <= i < regenerated(entries, files, dest_dir).len(),
        0 <= j < regenerated(entries, files, dest_dir).len(),
    ensures
        ({
            let list = regenerated(entries, files, dest_dir);
            &&& list[i].mount_point == dest_dir
            &&& list[i].parts == chunk_count(files, list[i].game_id)
            &&& i != j ==> list[i].game_id != list[j].game_id
            &&& (forall|k: int|
                0 <= k < entries.len() ==> (#[trigger] entries[k]).game_id != list[i].game_id)
                ==> list[i].media == media_of_size(chunk_total(files, list[i].game_id) as u64)
        }),
{
    let groups = grouped(files, seq![]);
    let list = regenerated(entries, files, dest_dir);
    law_groups(files, Seq::empty());
    assert(Seq::<Seq<char>>::empty() =~= seq![]);
    assert(list[i] == entry_of_group(entries, groups[i], dest_dir));
    assert(list[j] == entry_of_group(entries, groups[j], dest_dir));
    assert(groups[i].game_id == list[i].game_id && groups[j].game_id == list[j].game_id);
    if forall|k: int| 0 <= k < entries.len() ==> (#[trigger] entries[k]).game_id != list[i].game_id {
        law_unlisted_name(entries, groups[i], 0);
    }
}

/// A list is sorted for the words `name`, `name-desc`, `size` and `size-desc`, and left as it is
/// for every other.
pub proof fn law_unknown_word(before: Seq<EntryView>, sort_by: Seq<char>, after: Seq<EntryView>)
    requires
        is_sorted_list(before, sort_by, after),
        sort_by != "name"@,
        sort_by != "name-desc"@,
        sort_by != "size"@,
        sort_by != "size-desc"@,
    ensures
        after == before,
{
}

/// The model of a [`ListedGame`] has all that it holds, and that of a list has every item at its
/// place.
pub proof fn law_model_of_listed_game(game: ListedGame, list: Seq<ListedGame>, i: int)
    ensures
        game@.entry == game.entry@,
        game@.sizes == game.sizes@,
        listed_views(list).len() == list.len(),
        0 <= i < list.len() ==> listed_views(list)[i] == list[i]@,
{
}

/// The model of a [`GameEntry`] has all that it holds, and that of a list has every item at its
/// place.
pub proof fn law_model_of_game_entry(entry: GameEntry, list: Seq<GameEntry>, i: int)
    ensures
        entry@.game_id == entry.game_id@,
        entry@.title == entry.title@,
        entry@.parts == entry.parts,
        entry@.size == entry.size,
        entry@.location == entry.location@,
        entry@.mode == entry.mode@,
        game_views(list).len() == list.len(),
        0 <= i < list.len() ==> game_views(list)[i] == list[i]@,
{
}

/// The model of a [`IsoFile`] has all that it holds, and that of a list has every item at its
/// place.
pub proof fn law_model_of_iso_file(file: IsoFile, list: Seq<IsoFile>, i: int)
    ensures
        file@.name == file.name@,
        file@.size == file.size,
        file.label is None ==> file@.label is None,
        file.label is Some ==> file@.label == Some(file.label->0@),
        iso_views(list).len() == list.len(),
        0 <= i < list.len() ==> iso_views(list)[i] == list[i]@,
{
}

/// Each entry of the rebuilt list is that of a group of chunks, in the order of the groups, with
/// the name and the media type that are found for it.
pub proof fn law_rebuilt_names(
    entries: Seq<EntryView>,
    files: Seq<DirFileView>,
    dest_dir: Seq<char>,
    i: int,
)
    requires
        0 <= i < grouped(files, seq![]).len(),
    ensures
        regenerated(entries, files, dest_dir).len() == grouped(files, seq![]).len(),
        ({
            let entry = regenerated(entries, files, dest_dir)[i];
            let group = grouped(files, seq![])[i];
            &&& entry.game_id == group.game_id
            &&& entry.title == title_of_group(entries, group)
            &&& entry.media == media_of_group(entries, group)
            &&& entry.parts == group.parts
            &&& entry.mount_point == dest_dir
        }),
{
}

/// The sizes of games can be summed up where each fits 64 bits.
pub proof fn law_can_sum(listed: Seq<ListedView>)
    ensures
        can_sum(listed) <==> forall|i: int|
            0 <= i < listed.len() ==> size_sum((#[trigger] listed[i]).sizes)
                <= 0xFFFF_FFFF_FFFF_FFFF,
        listed.len() == 0 ==> can_sum(listed),
{
}

} // verus!
