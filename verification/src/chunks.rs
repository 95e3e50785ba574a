//! The chunk files in the root of a device: their names, and which game each belongs to.

use crate::iso::{media_type, CD_MAX_BYTES};
use crate::order::{law_text_order, relate_texts, text_less, Relation};
use crate::split::chunk_name;
use crate::text::{
    digits,
    find_first,
    find_last,
    first_of,
    from_chars,
    has_prefix,
    hex_upper,
    last_of,
    lemma_digits_chars,
    lemma_first_of,
    lemma_first_of_unique,
    lemma_last_of,
    lemma_last_of_unique,
    same_text,
    starts_with,
    texts,
    to_chars,
    zero_padded,
};
use crate::ulcfg::{MEDIA_CD, MEDIA_DVD};
use vstd::prelude::*;
use vstd::slice::slice_subrange;

verus! {

/// A file in a directory.
#[derive(Debug, Clone)]
pub struct DirFile {
    pub name: String,
    /// Its size, or zero where that cannot be found out.
    pub size: u64,
}

/// What a [`DirFile`] holds.
#[verifier::ext_equal]
pub struct DirFileView {
    pub name: Seq<char>,
    pub size: u64,
}

impl View for DirFile {
    type V = DirFileView;

    open spec fn view(&self) -> DirFileView {
        DirFileView { name: self.name@, size: self.size }
    }
}

/// What the files of a directory hold.
pub open spec fn file_views(files: Seq<DirFile>) -> Seq<DirFileView> {
    Seq::new(files.len(), |i: int| files[i]@)
}

/// The media type of a game of this size, where nothing else tells it.
pub open spec fn media_of_size(size: u64) -> u8 {
    if size <= CD_MAX_BYTES {
        MEDIA_CD
    } else {
        MEDIA_DVD
    }
}

/// The media type of a game of this size, where nothing else tells it.
pub fn detect_media(size: u64) -> (media: u8)
    ensures
        media == media_of_size(size),
{
    if size <= CD_MAX_BYTES {
        MEDIA_CD
    } else {
        MEDIA_DVD
    }
}

/// Where an image has no readable UDF mark, its media type is that of its size.
pub proof fn law_media_by_size(size: u64)
    ensures
        media_type(Some(size), None) == media_of_size(size),
{
}

// ---------------------------------------------------------------- names

/// The checksum, the game id and the part in the name of a chunk file,
/// `ul.<checksum>.<game id>.<part>`. A game id may itself hold dots.
pub open spec fn chunk_parts(name: Seq<char>) -> Option<(Seq<char>, Seq<char>, Seq<char>)> {
    let rest = name.skip(3);
    let a = first_of(rest, '.');
    let b = last_of(rest, '.');
    if name == "ul.cfg"@ || !starts_with(name, "ul."@) || a >= b || a == 0 || b == a + 1 {
        None
    } else {
        Some((rest.take(a), rest.subrange(a + 1, b), rest.skip(b + 1)))
    }
}

/// The texts of the parts of a chunk name.
pub open spec fn parts_view(parts: Option<(String, String, String)>) -> Option<
    (Seq<char>, Seq<char>, Seq<char>),
> {
    match parts {
        Some(p) => Some((p.0@, p.1@, p.2@)),
        None => None,
    }
}

/// The checksum, the game id and the part in the name of a chunk file.
pub fn parse_chunk_name(name: &str) -> (parts: Option<(String, String, String)>)
    ensures
        parts_view(parts) == chunk_parts(name@),
{
    if same_text(name, "ul.cfg") {
        return None;
    }
    let chars = to_chars(name);
    if !has_prefix(chars.as_slice(), "ul.") {
        return None;
    }
    proof {
        reveal_strlit("ul.");
    }
    let rest = slice_subrange(chars.as_slice(), 3, chars.len());
    proof {
        assert(rest@ =~= name@.skip(3));
        lemma_first_of(rest@, '.');
        lemma_last_of(rest@, '.');
    }
    let a: usize = find_first(rest, '.');
    match find_last(rest, '.') {
        Some(b) => {
            if a >= b || a == 0 || b == a + 1 {
                return None;
            }
            let crc = from_chars(slice_subrange(rest, 0, a));
            let id = from_chars(slice_subrange(rest, a + 1, b));
            let part = from_chars(slice_subrange(rest, b + 1, rest.len()));
            proof {
                assert(crc@ =~= rest@.take(a as int));
                assert(part@ =~= rest@.skip(b + 1));
            }
            Some((crc, id, part))
        },
        None => None,
    }
}

/// A chunk name reads back as the checksum, the game id and the part that it was made from, as
/// long as neither is empty and the checksum holds no dot.
pub proof fn law_chunk_name_round_trip(crc_hex: Seq<char>, game_id: Seq<char>, part: u32)
    requires
        crc_hex.len() > 0,
        game_id.len() > 0,
        !crc_hex.contains('.'),
    ensures
        chunk_parts(chunk_name(crc_hex, game_id, part)) == Some(
            (crc_hex, game_id, hex_upper(part as nat, 2)),
        ),
{
    let name = chunk_name(crc_hex, game_id, part);
    let hex = hex_upper(part as nat, 2);
    reveal_strlit("ul.");
    reveal_strlit(".");
    reveal_strlit("ul.cfg");
    let rest = name.skip(3);
    let a = crc_hex.len() as int;
    let b = a + 1 + game_id.len();
    assert(rest =~= crc_hex + seq!['.'] + game_id + seq!['.'] + hex);
    assert(name.subrange(0, 3) =~= "ul."@);
    assert forall|i: int| 0 <= i < hex.len() implies hex[i] != '.' by {
        lemma_digits_chars(part as nat, true);
        let d = digits(part as nat, 16, true);
        assert(hex == zero_padded(d, 2));
        if d.len() < 2 {
            if i >= 2 - d.len() {
                assert(hex[i] == d[i - (2 - d.len())]);
            } else {
                assert(hex[i] == '0');
            }
        } else {
            assert(hex[i] == d[i]);
        }
    }
    assert forall|i: int| 0 <= i < a implies rest[i] != '.' by {
        assert(rest[i] == crc_hex[i]);
        assert(crc_hex.contains(crc_hex[i]));
    }
    assert(rest[a] == '.');
    assert(rest[b] == '.');
    lemma_first_of_unique(rest, '.', a);
    assert forall|i: int| b < i < rest.len() implies rest[i] != '.' by {
        assert(rest[i] == hex[i - b - 1]);
    }
    lemma_last_of_unique(rest, '.', b);
    assert(rest.take(a) =~= crc_hex);
    assert(rest.subrange(a + 1, b) =~= game_id);
    assert(rest.skip(b + 1) =~= hex);
    if name == "ul.cfg"@ {
        assert(rest[a] == name[a + 3]);
        assert(rest[b] == name[b + 3]);
    }
}

/// A chunk name has a checksum and a game id.
pub proof fn law_parts_are_not_empty(name: Seq<char>)
    ensures
        chunk_parts(name) matches Some(parts) ==> parts.0.len() > 0 && parts.1.len() > 0
            && !parts.0.contains('.') && !parts.2.contains('.'),
{
    let rest = name.skip(3);
    lemma_first_of(rest, '.');
    lemma_last_of(rest, '.');
}

/// The list file itself is no chunk.
pub proof fn law_list_file_is_no_chunk()
    ensures
        chunk_parts("ul.cfg"@) is None,
{
}

// ---------------------------------------------------------------- the chunks of each game

/// The game that a file is a chunk of.
pub open spec fn chunk_owner(file: DirFileView) -> Option<Seq<char>> {
    match chunk_parts(file.name) {
        Some(p) => Some(p.1),
        None => None,
    }
}

/// How many of the files are chunks of a game.
pub open spec fn chunk_count(files: Seq<DirFileView>, id: Seq<char>) -> nat
    decreases files.len(),
{
    if files.len() == 0 {
        0
    } else {
        chunk_count(files.drop_last(), id) + if chunk_owner(files.last()) == Some(id) {
            1nat
        } else {
            0nat
        }
    }
}

/// The sizes of the chunks of a game together.
pub open spec fn chunk_total(files: Seq<DirFileView>, id: Seq<char>) -> nat
    decreases files.len(),
{
    if files.len() == 0 {
        0
    } else {
        chunk_total(files.drop_last(), id) + if chunk_owner(files.last()) == Some(id) {
            files.last().size as nat
        } else {
            0nat
        }
    }
}

/// The checksum in the name of the first chunk of a game.
pub open spec fn first_crc(files: Seq<DirFileView>, id: Seq<char>) -> Seq<char>
    decreases files.len(),
{
    if files.len() == 0 {
        seq![]
    } else if chunk_count(files.drop_last(), id) > 0 {
        first_crc(files.drop_last(), id)
    } else if chunk_owner(files.last()) == Some(id) {
        (chunk_parts(files.last().name)->0).0
    } else {
        seq![]
    }
}

/// The ids with `id` among them, in their order.
pub open spec fn with_id(ids: Seq<Seq<char>>, id: Seq<char>) -> Seq<Seq<char>>
    decreases ids.len(),
{
    if ids.len() == 0 {
        seq![id]
    } else if ids[0] == id {
        ids
    } else if text_less(id, ids[0]) {
        seq![id] + ids
    } else {
        seq![ids[0]] + with_id(ids.drop_first(), id)
    }
}

/// The ids of the games that the files are chunks of, in their order, but for those already
/// known.
pub open spec fn chunk_ids(files: Seq<DirFileView>, known: Seq<Seq<char>>) -> Seq<Seq<char>>
    decreases files.len(),
{
    if files.len() == 0 {
        seq![]
    } else {
        let before = chunk_ids(files.drop_last(), known);
        match chunk_owner(files.last()) {
            Some(id) => if known.contains(id) {
                before
            } else {
                with_id(before, id)
            },
            None => before,
        }
    }
}

/// The chunks of one game.
#[derive(Debug, Clone)]
pub struct ChunkGroup {
    pub game_id: String,
    /// The checksum in the name of the first chunk.
    pub crc: String,
    /// How many chunks there are.
    pub parts: u16,
    /// Their sizes together.
    pub total: u64,
}

/// What a [`ChunkGroup`] holds.
#[verifier::ext_equal]
pub struct GroupView {
    pub game_id: Seq<char>,
    pub crc: Seq<char>,
    pub parts: u16,
    pub total: u64,
}

impl View for ChunkGroup {
    type V = GroupView;

    open spec fn view(&self) -> GroupView {
        GroupView {
            game_id: self.game_id@,
            crc: self.crc@,
            parts: self.parts,
            total: self.total,
        }
    }
}

/// What some groups hold.
pub open spec fn group_views(groups: Seq<ChunkGroup>) -> Seq<GroupView> {
    Seq::new(groups.len(), |i: int| groups[i]@)
}

/// The chunks of one game among the files.
pub open spec fn group_of(files: Seq<DirFileView>, id: Seq<char>) -> GroupView {
    GroupView {
        game_id: id,
        crc: first_crc(files, id),
        parts: chunk_count(files, id) as u16,
        total: chunk_total(files, id) as u64,
    }
}

/// The files by the game that they are chunks of, in the order of the game ids, but for the
/// games already known.
pub open spec fn grouped(files: Seq<DirFileView>, known: Seq<Seq<char>>) -> Seq<GroupView> {
    let ids = chunk_ids(files, known);
    Seq::new(ids.len(), |i: int| group_of(files, ids[i]))
}

/// The chunks of each game that is not known are so few and so small that they can be counted.
pub open spec fn countable(files: Seq<DirFileView>, known: Seq<Seq<char>>) -> bool {
    forall|id: Seq<char>|
        !known.contains(id) ==> #[trigger] chunk_count(files, id) <= u16::MAX && chunk_total(
            files,
            id,
        ) <= u64::MAX
}

/// More files make no fewer chunks.
proof fn lemma_counts_grow(files: Seq<DirFileView>, k: int, id: Seq<char>)
    requires
        0 <= k <= files.len(),
    ensures
        chunk_count(files.take(k), id) <= chunk_count(files, id),
        chunk_total(files.take(k), id) <= chunk_total(files, id),
    decreases files.len() - k,
{
    if k == files.len() {
        assert(files.take(k) =~= files);
    } else {
        lemma_counts_grow(files, k + 1, id);
        assert(files.take(k + 1).drop_last() =~= files.take(k));
    }
}

/// Where an id goes among ids.
proof fn lemma_with_id(ids: Seq<Seq<char>>, id: Seq<char>, p: int)
    requires
        0 <= p <= ids.len(),
        forall|i: int| 0 <= i < p ==> text_less(#[trigger] ids[i], id),
        p < ids.len() ==> ids[p] == id || text_less(id, ids[p]),
    ensures
        with_id(ids, id) == (if p < ids.len() && ids[p] == id {
            ids
        } else {
            ids.insert(p, id)
        }),
    decreases p,
{
    if p > 0 {
        law_text_order(ids[0], id, ids[0]);
        assert(text_less(ids[0], id));
        let rest = ids.drop_first();
        assert forall|i: int| 0 <= i < p - 1 implies text_less(#[trigger] rest[i], id) by {
            assert(rest[i] == ids[i + 1]);
        }
        lemma_with_id(rest, id, p - 1);
        if p < ids.len() && ids[p] == id {
            assert(seq![ids[0]] + rest =~= ids);
        } else {
            assert(seq![ids[0]] + rest.insert(p - 1, id) =~= ids.insert(p, id));
        }
    } else if ids.len() == 0 {
        assert(seq![id] =~= ids.insert(0, id));
    } else if ids[0] != id {
        assert(seq![id] + ids =~= ids.insert(0, id));
    }
}

/// The group of a game changes only with a chunk of it.
proof fn lemma_group_step(files: Seq<DirFileView>, id: Seq<char>)
    requires
        files.len() > 0,
        chunk_owner(files.last()) != Some(id),
    ensures
        group_of(files, id) == group_of(files.drop_last(), id),
{
    if chunk_count(files.drop_last(), id) == 0 {
        lemma_no_crc(files.drop_last(), id);
    }
}

/// A game without chunks has no checksum.
proof fn lemma_no_crc(files: Seq<DirFileView>, id: Seq<char>)
    requires
        chunk_count(files, id) == 0,
    ensures
        first_crc(files, id) == Seq::<char>::empty(),
        chunk_total(files, id) == 0,
    decreases files.len(),
{
    if files.len() > 0 {
        lemma_no_crc(files.drop_last(), id);
    }
}

/// A game is listed exactly where one of the files is a chunk of it and it is not known.
pub proof fn law_listed_ids(files: Seq<DirFileView>, known: Seq<Seq<char>>, id: Seq<char>)
    ensures
        chunk_ids(files, known).contains(id) <==> chunk_count(files, id) > 0 && !known.contains(
            id,
        ),
    decreases files.len(),
{
    if files.len() > 0 {
        let before = chunk_ids(files.drop_last(), known);
        law_listed_ids(files.drop_last(), known, id);
        match chunk_owner(files.last()) {
            Some(owner) => {
                if !known.contains(owner) {
                    lemma_with_id_contains(before, owner, id);
                }
            },
            None => {},
        }
    }
}

/// What [`with_id`] holds.
proof fn lemma_with_id_contains(ids: Seq<Seq<char>>, id: Seq<char>, x: Seq<char>)
    ensures
        with_id(ids, id).contains(x) <==> ids.contains(x) || x == id,
    decreases ids.len(),
{
    let all = with_id(ids, id);
    if ids.len() == 0 {
        assert(all[0] == id);
    } else if ids[0] == id {
        assert(ids[0] == id);
    } else if text_less(id, ids[0]) {
        assert(all[0] == id);
        if ids.contains(x) {
            let i = choose|i: int| 0 <= i < ids.len() && ids[i] == x;
            assert(all[i + 1] == x);
        }
        if all.contains(x) && x != id {
            let i = choose|i: int| 0 <= i < all.len() && all[i] == x;
            assert(ids[i - 1] == x);
        }
    } else {
        let rest = ids.drop_first();
        let tail = with_id(rest, id);
        lemma_with_id_contains(rest, id, x);
        assert(all[0] == ids[0]);
        if ids.contains(x) && x != ids[0] {
            let i = choose|i: int| 0 <= i < ids.len() && ids[i] == x;
            assert(rest[i - 1] == x);
        }
        if rest.contains(x) {
            let i = choose|i: int| 0 <= i < rest.len() && rest[i] == x;
            assert(ids[i + 1] == x);
        }
        if tail.contains(x) {
            let i = choose|i: int| 0 <= i < tail.len() && tail[i] == x;
            assert(all[i + 1] == x);
        }
        if all.contains(x) && x != ids[0] {
            let i = choose|i: int| 0 <= i < all.len() && all[i] == x;
            assert(tail[i - 1] == x);
        }
    }
}

/// Whether ids are in their order, each once.
pub open spec fn ascending(ids: Seq<Seq<char>>) -> bool {
    forall|i: int, j: int|
        0 <= i < j < ids.len() ==> text_less(#[trigger] ids[i], #[trigger] ids[j])
}

/// Adding an id keeps the order.
proof fn lemma_with_id_ascending(ids: Seq<Seq<char>>, id: Seq<char>)
    requires
        ascending(ids),
    ensures
        ascending(with_id(ids, id)),
    decreases ids.len(),
{
    if ids.len() > 0 && ids[0] != id {
        let all = with_id(ids, id);
        law_text_order(id, ids[0], id);
        if text_less(id, ids[0]) {
            assert forall|i: int, j: int| 0 <= i < j < all.len() implies text_less(
                #[trigger] all[i],
                #[trigger] all[j],
            ) by {
                assert(all[j] == ids[j - 1]);
                if i == 0 {
                    if j > 1 {
                        law_text_order(id, ids[0], ids[j - 1]);
                    }
                } else {
                    assert(all[i] == ids[i - 1]);
                }
            }
        } else {
            let rest = ids.drop_first();
            let tail = with_id(rest, id);
            assert(ascending(rest));
            lemma_with_id_ascending(rest, id);
            assert forall|i: int, j: int| 0 <= i < j < all.len() implies text_less(
                #[trigger] all[i],
                #[trigger] all[j],
            ) by {
                assert(all[j] == tail[j - 1]);
                if i == 0 {
                    lemma_with_id_contains(rest, id, tail[j - 1]);
                    assert(tail.contains(tail[j - 1]));
                    if tail[j - 1] != id {
                        let k = choose|k: int| 0 <= k < rest.len() && rest[k] == tail[j - 1];
                        assert(ids[k + 1] == tail[j - 1]);
                    }
                } else {
                    assert(all[i] == tail[i - 1]);
                }
            }
        }
    }
}

/// The games are listed in the order of their ids, each once.
pub proof fn law_listed_in_order(files: Seq<DirFileView>, known: Seq<Seq<char>>)
    ensures
        ascending(chunk_ids(files, known)),
    decreases files.len(),
{
    if files.len() > 0 {
        let before = chunk_ids(files.drop_last(), known);
        law_listed_in_order(files.drop_last(), known);
        match chunk_owner(files.last()) {
            Some(id) => lemma_with_id_ascending(before, id),
            None => {},
        }
    }
}

/// Whether a text is among some.
pub(crate) fn is_among(list: &[String], s: &str) -> (b: bool)
    ensures
        b == texts(list@).contains(s@),
{
    let mut i: usize = 0;
    while i < list.len()
        invariant
            i <= list.len(),
            forall|k: int| 0 <= k < i ==> texts(list@)[k] != s@,
        decreases list.len() - i,
    {
        if same_text(list[i].as_str(), s) {
            assert(texts(list@)[i as int] == s@);
            return true;
        }
        i += 1;
    }
    false
}

/// Files that are no chunks of an unknown game change no group.
proof fn lemma_groups_keep(files: Seq<DirFileView>, known: Seq<Seq<char>>)
    requires
        files.len() > 0,
        match chunk_owner(files.last()) {
            Some(id) => known.contains(id),
            None => true,
        },
    ensures
        grouped(files, known) == grouped(files.drop_last(), known),
{
    let seen = files.drop_last();
    let ids = chunk_ids(seen, known);
    assert forall|i: int| 0 <= i < ids.len() implies group_of(files, ids[i]) == group_of(
        seen,
        ids[i],
    ) by {
        law_listed_ids(seen, known, ids[i]);
        assert(ids.contains(ids[i]));
        lemma_group_step(files, ids[i]);
    }
    assert(grouped(files, known) =~= grouped(seen, known));
}

/// One more chunk of a game changes the group of that game, or makes one at its place.
proof fn lemma_groups_step(files: Seq<DirFileView>, known: Seq<Seq<char>>, id: Seq<char>, p: int)
    requires
        files.len() > 0,
        chunk_owner(files.last()) == Some(id),
        !known.contains(id),
        0 <= p <= chunk_ids(files.drop_last(), known).len(),
        forall|i: int|
            0 <= i < p ==> text_less(#[trigger] chunk_ids(files.drop_last(), known)[i], id),
        p < chunk_ids(files.drop_last(), known).len() ==> chunk_ids(files.drop_last(), known)[p]
            == id || text_less(id, chunk_ids(files.drop_last(), known)[p]),
    ensures
        ({
            let seen = files.drop_last();
            let ids = chunk_ids(seen, known);
            if p < ids.len() && ids[p] == id {
                &&& grouped(files, known) == grouped(seen, known).update(p, group_of(files, id))
                &&& chunk_count(seen, id) > 0
            } else {
                &&& grouped(files, known) == grouped(seen, known).insert(p, group_of(files, id))
                &&& chunk_count(seen, id) == 0
            }
        }),
{
    let seen = files.drop_last();
    let ids = chunk_ids(seen, known);
    lemma_with_id(ids, id, p);
    law_listed_in_order(seen, known);
    assert forall|i: int| 0 <= i < ids.len() && ids[i] == id implies i == p && ids[p] == id by {
        if i < p {
            law_text_order(id, id, id);
        } else if p < i {
            law_text_order(id, ids[p], ids[i]);
            law_text_order(id, id, id);
        }
    }
    law_listed_ids(seen, known, id);
    assert forall|i: int| 0 <= i < ids.len() && ids[i] != id implies group_of(files, ids[i])
        == group_of(seen, ids[i]) by {
        lemma_group_step(files, ids[i]);
    }
    if p < ids.len() && ids[p] == id {
        assert(ids.contains(id));
        assert(grouped(files, known) =~= grouped(seen, known).update(p, group_of(files, id)));
    } else {
        assert(!ids.contains(id));
        assert(grouped(files, known) =~= grouped(seen, known).insert(p, group_of(files, id)));
    }
}

/// The files by the game that they are chunks of, but for the games already known.
pub fn group_chunks(files: &[DirFile], known: &[String]) -> (groups: Vec<ChunkGroup>)
    requires
        countable(file_views(files@), texts(known@)),
    ensures
        group_views(groups@) == grouped(file_views(files@), texts(known@)),
{
    let ghost all = file_views(files@);
    let ghost listed = texts(known@);
    let mut groups: Vec<ChunkGroup> = Vec::new();
    let mut k: usize = 0;
    assert(group_views(groups@) =~= grouped(all.take(0), listed));
    while k < files.len()
        invariant
            k <= files.len(),
            all == file_views(files@),
            listed == texts(known@),
            countable(all, listed),
            group_views(groups@) == grouped(all.take(k as int), listed),
        decreases files.len() - k,
    {
        let ghost seen = all.take(k as int);
        let ghost next = all.take(k + 1);
        proof {
            assert(next.drop_last() =~= seen);
            assert(next.last() == files@[k as int]@);
        }
        match parse_chunk_name(files[k].name.as_str()) {
            Some((crc, id, _part)) => {
                if is_among(known, id.as_str()) {
                    proof {
                        lemma_groups_keep(next, listed);
                    }
                } else {
                    proof {
                        assert(chunk_owner(next.last()) == Some(id@));
                        lemma_counts_grow(all, k + 1, id@);
                        assert(chunk_count(all, id@) <= u16::MAX);
                    }
                    add_chunk(&mut groups, crc, id, files[k].size, Ghost(next), Ghost(listed));
                }
            },
            None => {
                proof {
                    assert(chunk_owner(next.last()) is None);
                    lemma_groups_keep(next, listed);
                }
            },
        }
        k += 1;
    }
    assert(all.take(k as int) =~= all);
    groups
}

/// Counts one more chunk of a game: the last of `files`.
fn add_chunk(
    groups: &mut Vec<ChunkGroup>,
    crc: String,
    id: String,
    size: u64,
    Ghost(files): Ghost<Seq<DirFileView>>,
    Ghost(known): Ghost<Seq<Seq<char>>>,
)
    requires
        files.len() > 0,
        files.last().size == size,
        chunk_owner(files.last()) == Some(id@),
        (chunk_parts(files.last().name)->0).0 == crc@,
        !known.contains(id@),
        group_views(old(groups)@) == grouped(files.drop_last(), known),
        chunk_count(files, id@) <= u16::MAX,
        chunk_total(files, id@) <= u64::MAX,
    ensures
        group_views(final(groups)@) == grouped(files, known),
{
    let ghost seen = files.drop_last();
    let ghost ids = chunk_ids(seen, known);
    let ghost before = group_views(groups@);
    let mut p: usize = 0;
    let mut found: bool = false;
    let mut searching: bool = true;
    while searching && p < groups.len()
        invariant
            p <= groups.len(),
            groups@ == old(groups)@,
            group_views(groups@) == grouped(seen, known),
            ids == chunk_ids(seen, known),
            searching ==> !found,
            forall|i: int| 0 <= i < p ==> text_less(#[trigger] ids[i], id@),
            !searching ==> p < ids.len() && (ids[p as int] == id@ || text_less(
                id@,
                ids[p as int],
            )) && found == (ids[p as int] == id@),
        decreases
            groups.len() - p + if searching {
                1int
            } else {
                0int
            },
    {
        assert(grouped(seen, known).len() == group_views(groups@).len());
        assert(group_views(groups@)[p as int] == group_of(seen, ids[p as int]));
        assert(groups@[p as int]@.game_id == ids[p as int]);
        match relate_texts(groups[p].game_id.as_str(), id.as_str()) {
            Relation::Before => {
                p += 1;
            },
            Relation::Same => {
                found = true;
                searching = false;
            },
            Relation::After => {
                searching = false;
            },
        }
    }
    assert(group_views(groups@).len() == ids.len());
    proof {
        lemma_groups_step(files, known, id@, p as int);
    }
    if found {
        assert(group_views(groups@)[p as int] == group_of(seen, id@));
        assert(chunk_count(files, id@) == chunk_count(seen, id@) + 1);
        let updated = ChunkGroup {
            game_id: id,
            crc: groups[p].crc.clone(),
            parts: groups[p].parts + 1,
            total: groups[p].total + size,
        };
        groups.set(p, updated);
        assert(updated@ =~= group_of(files, id@));
        assert(group_views(groups@) =~= before.update(p as int, updated@));
    } else {
        proof {
            lemma_no_crc(seen, id@);
        }
        let group = ChunkGroup { game_id: id, crc, parts: 1, total: size };
        groups.insert(p, group);
        assert(group@ =~= group_of(files, id@));
        assert(group_views(groups@) =~= before.insert(p as int, group@));
    }
}

/// A game that has chunks has one among the files.
proof fn lemma_has_chunk(files: Seq<DirFileView>, id: Seq<char>)
    requires
        chunk_count(files, id) > 0,
    ensures
        exists|i: int| 0 <= i < files.len() && chunk_owner(#[trigger] files[i]) == Some(id),
    decreases files.len(),
{
    if chunk_owner(files.last()) == Some(id) {
        assert(chunk_owner(files[files.len() - 1]) == Some(id));
    } else {
        lemma_has_chunk(files.drop_last(), id);
        let i = choose|i: int|
            0 <= i < files.len() - 1 && chunk_owner(#[trigger] files.drop_last()[i]) == Some(id);
        assert(chunk_owner(files[i]) == Some(id));
    }
}

/// Whether the chunks of one game can be counted.
fn can_count_game(files: &[DirFile], id: &str) -> (b: bool)
    ensures
        b == (chunk_count(file_views(files@), id@) <= u16::MAX && chunk_total(
            file_views(files@),
            id@,
        ) <= u64::MAX),
{
    let ghost all = file_views(files@);
    let mut count: usize = 0;
    let mut total: u128 = 0;
    let mut k: usize = 0;
    while k < files.len()
        invariant
            k <= files.len(),
            all == file_views(files@),
            count <= k,
            count == chunk_count(all.take(k as int), id@),
            total == chunk_total(all.take(k as int), id@),
            total <= k * 0xFFFF_FFFF_FFFF_FFFF,
        decreases files.len() - k,
    {
        proof {
            assert(all.take(k + 1).drop_last() =~= all.take(k as int));
            assert(all.take(k + 1).last() == files@[k as int]@);
        }
        match parse_chunk_name(files[k].name.as_str()) {
            Some((_crc, owner, _part)) => {
                if same_text(owner.as_str(), id) {
                    assert(chunk_owner(all.take(k + 1).last()) == Some(id@));
                    count += 1;
                    total += files[k].size as u128;
                } else {
                    assert(chunk_owner(all.take(k + 1).last()) == Some(owner@));
                }
            },
            None => {
                assert(chunk_owner(all.take(k + 1).last()) is None);
            },
        }
        k += 1;
    }
    assert(all.take(k as int) =~= all);
    count <= u16::MAX as usize && total <= u64::MAX as u128
}

/// Whether the chunks of each game that is not known can be counted.
pub fn can_count_chunks(files: &[DirFile], known: &[String]) -> (b: bool)
    ensures
        b == countable(file_views(files@), texts(known@)),
{
    let ghost all = file_views(files@);
    let mut k: usize = 0;
    while k < files.len()
        invariant
            k <= files.len(),
            all == file_views(files@),
            forall|i: int, id: Seq<char>|
                0 <= i < k && chunk_owner(#[trigger] all[i]) == Some(id) && !texts(known@).contains(
                    id,
                ) ==> #[trigger] chunk_count(all, id) <= u16::MAX && chunk_total(all, id)
                    <= u64::MAX,
        decreases files.len() - k,
    {
        match parse_chunk_name(files[k].name.as_str()) {
            Some((_crc, id, _part)) => {
                assert(chunk_owner(all[k as int]) == Some(id@));
                if !is_among(known, id.as_str()) && !can_count_game(files, id.as_str()) {
                    assert(!(chunk_count(all, id@) <= u16::MAX && chunk_total(all, id@)
                        <= u64::MAX));
                    return false;
                }
            },
            None => {
                assert(chunk_owner(all[k as int]) is None);
            },
        }
        k += 1;
    }
    assert forall|id: Seq<char>| !texts(known@).contains(id) implies #[trigger] chunk_count(all, id)
        <= u16::MAX && chunk_total(all, id) <= u64::MAX by {
        if chunk_count(all, id) > 0 {
            lemma_has_chunk(all, id);
            let i = choose|i: int|
                0 <= i < all.len() && chunk_owner(#[trigger] all[i]) == Some(id);
            assert(chunk_owner(all[i]) == Some(id));
        } else {
            lemma_no_crc(all, id);
        }
    }
    true
}

// ---------------------------------------------------------------- laws

/// A game of up to 700 MiB is on a CD, a larger one on a DVD.
pub proof fn law_media_of_size(size: u64)
    ensures
        size <= 734_003_200 ==> media_of_size(size) == 0x12,
        size > 734_003_200 ==> media_of_size(size) == 0x14,
{
}

/// The name of a chunk.
pub open spec fn named_chunk(crc: Seq<char>, id: Seq<char>, part: Seq<char>) -> Seq<char> {
    "ul."@ + crc + "."@ + id + "."@ + part
}

/// A file `ul.<checksum>.<game id>.<part>` is the chunk of that game, with that checksum and that
/// part, whatever dots the game id holds.
pub proof fn law_chunk_parts(crc: Seq<char>, id: Seq<char>, part: Seq<char>)
    requires
        crc.len() > 0,
        !crc.contains('.'),
        id.len() > 0,
        !part.contains('.'),
    ensures
        chunk_parts("ul."@ + crc + "."@ + id + "."@ + part) == Some((crc, id, part)),
{
    let name = "ul."@ + crc + "."@ + id + "."@ + part;
    reveal_strlit("ul.");
    reveal_strlit(".");
    reveal_strlit("ul.cfg");
    let rest = name.skip(3);
    let a = crc.len() as int;
    let b = a + 1 + id.len();
    assert(rest =~= crc + seq!['.'] + id + seq!['.'] + part);
    assert(name.subrange(0, 3) =~= "ul."@);
    assert forall|i: int| 0 <= i < a implies rest[i] != '.' by {
        assert(rest[i] == crc[i]);
        assert(crc.contains(crc[i]));
    }
    lemma_first_of_unique(rest, '.', a);
    assert forall|i: int| b < i < rest.len() implies rest[i] != '.' by {
        assert(rest[i] == part[i - b - 1]);
        assert(part.contains(part[i - b - 1]));
    }
    lemma_last_of_unique(rest, '.', b);
    assert(rest.take(a) =~= crc);
    assert(rest.subrange(a + 1, b) =~= id);
    assert(rest.skip(b + 1) =~= part);
    if name == "ul.cfg"@ {
        assert(rest[a] == name[a + 3]);
        assert(rest[b] == name[b + 3]);
    }
}

/// Only a file of that form is a chunk.
pub proof fn law_only_chunk_names(name: Seq<char>)
    ensures
        chunk_parts(name) matches Some(p) ==> name == "ul."@ + p.0 + "."@ + p.1 + "."@ + p.2
            && p.0.len() > 0 && p.1.len() > 0 && !p.0.contains('.') && !p.2.contains('.'),
{
    reveal_strlit("ul.");
    reveal_strlit(".");
    law_parts_are_not_empty(name);
    if chunk_parts(name) is Some {
        let p = chunk_parts(name)->0;
        let rest = name.skip(3);
        let (a, b) = (first_of(rest, '.'), last_of(rest, '.'));
        lemma_first_of(rest, '.');
        lemma_last_of(rest, '.');
        assert(name =~= name.subrange(0, 3) + rest);
        assert(rest =~= p.0 + seq!['.'] + p.1 + seq!['.'] + p.2);
        assert(name =~= "ul."@ + p.0 + "."@ + p.1 + "."@ + p.2);
    }
}

/// The chunks of a game are counted, and their sizes are summed, over all files: what two lists
/// of files hold together is what each of them holds.
pub proof fn law_chunks_add_up(a: Seq<DirFileView>, b: Seq<DirFileView>, id: Seq<char>)
    ensures
        chunk_count(a + b, id) == chunk_count(a, id) + chunk_count(b, id),
        chunk_total(a + b, id) == chunk_total(a, id) + chunk_total(b, id),
    decreases b.len(),
{
    if b.len() == 0 {
        assert(a + b =~= a);
    } else {
        assert((a + b).drop_last() =~= a + b.drop_last());
        assert((a + b).last() == b.last());
        law_chunks_add_up(a, b.drop_last(), id);
    }
}

/// A file counts as one chunk of the game in its name, and of no other.
pub proof fn law_one_chunk(
    crc: Seq<char>,
    id: Seq<char>,
    part: Seq<char>,
    size: u64,
    other: Seq<char>,
)
    requires
        crc.len() > 0,
        !crc.contains('.'),
        id.len() > 0,
        !part.contains('.'),
    ensures
        ({
            let file = DirFileView { name: "ul."@ + crc + "."@ + id + "."@ + part, size };
            &&& chunk_count(seq![file], id) == 1
            &&& chunk_total(seq![file], id) == size
            &&& other != id ==> chunk_count(seq![file], other) == 0
            &&& other != id ==> chunk_total(seq![file], other) == 0
        }),
{
    let file = DirFileView { name: "ul."@ + crc + "."@ + id + "."@ + part, size };
    law_chunk_parts(crc, id, part);
    reveal_with_fuel(chunk_count, 2);
    reveal_with_fuel(chunk_total, 2);
    assert(seq![file].drop_last() =~= Seq::<DirFileView>::empty());
    assert(seq![file].last() == file);
}

/// A file of another form counts as no chunk of any game.
pub proof fn law_no_chunk(file: DirFileView, id: Seq<char>)
    requires
        forall|crc: Seq<char>, owner: Seq<char>, part: Seq<char>|
            file.name != #[trigger] named_chunk(crc, owner, part),
    ensures
        chunk_count(seq![file], id) == 0,
        chunk_total(seq![file], id) == 0,
        chunk_count(Seq::empty(), id) == 0,
        chunk_total(Seq::empty(), id) == 0,
{
    law_only_chunk_names(file.name);
    if chunk_parts(file.name) is Some {
        let p = chunk_parts(file.name)->0;
        assert(file.name == named_chunk(p.0, p.1, p.2));
    }
    reveal_with_fuel(chunk_count, 2);
    reveal_with_fuel(chunk_total, 2);
    assert(seq![file].drop_last() =~= Seq::<DirFileView>::empty());
    assert(seq![file].last() == file);
}

/// A group of chunks has the checksum of the first of them.
pub proof fn law_first_crc(
    a: Seq<DirFileView>,
    file: DirFileView,
    b: Seq<DirFileView>,
    crc: Seq<char>,
    id: Seq<char>,
    part: Seq<char>,
)
    requires
        chunk_count(a, id) == 0,
        file.name == "ul."@ + crc + "."@ + id + "."@ + part,
        crc.len() > 0,
        !crc.contains('.'),
        id.len() > 0,
        !part.contains('.'),
    ensures
        first_crc(a.push(file) + b, id) == crc,
    decreases b.len(),
{
    law_chunk_parts(crc, id, part);
    let start = a.push(file);
    assert(start.drop_last() =~= a);
    assert(start.last() == file);
    if b.len() == 0 {
        assert(start + b =~= start);
    } else {
        law_first_crc(a, file, b.drop_last(), crc, id, part);
        assert((start + b).drop_last() =~= start + b.drop_last());
        law_chunks_add_up(start, b.drop_last(), id);
        assert(chunk_count(start, id) == 1);
    }
}

/// There is one group for each game that has chunks and is not known, with the number of its
/// chunks, the sum of their sizes and a checksum that one of them has; and no two groups are of
/// one game.
pub proof fn law_groups(files: Seq<DirFileView>, known: Seq<Seq<char>>)
    requires
        countable(files, known),
    ensures
        forall|i: int|
            0 <= i < grouped(files, known).len() ==> {
                let g = #[trigger] grouped(files, known)[i];
                &&& !known.contains(g.game_id)
                &&& g.parts > 0
                &&& g.parts == chunk_count(files, g.game_id)
                &&& g.total == chunk_total(files, g.game_id)
                &&& g.crc == first_crc(files, g.game_id)
            },
        forall|id: Seq<char>|
            !known.contains(id) && #[trigger] chunk_count(files, id) > 0 ==> exists|i: int|
                0 <= i < grouped(files, known).len() && (#[trigger] grouped(
                    files,
                    known,
                )[i]).game_id == id,
        forall|i: int, j: int|
            0 <= i < j < grouped(files, known).len() ==> (#[trigger] grouped(
                files,
                known,
            )[i]).game_id != (#[trigger] grouped(files, known)[j]).game_id,
{
    let ids = chunk_ids(files, known);
    let groups = grouped(files, known);
    assert forall|i: int| 0 <= i < groups.len() implies {
        let g = #[trigger] groups[i];
        &&& !known.contains(g.game_id)
        &&& g.parts > 0
        &&& g.parts == chunk_count(files, g.game_id)
        &&& g.total == chunk_total(files, g.game_id)
        &&& g.crc == first_crc(files, g.game_id)
    } by {
        assert(ids.contains(ids[i]));
        law_listed_ids(files, known, ids[i]);
        assert(groups[i] == group_of(files, ids[i]));
    }
    assert forall|id: Seq<char>|
        !known.contains(id) && #[trigger] chunk_count(files, id) > 0 implies exists|i: int|
        0 <= i < groups.len() && (#[trigger] groups[i]).game_id == id by {
        law_listed_ids(files, known, id);
        let i = choose|i: int| 0 <= i < ids.len() && ids[i] == id;
        assert(groups[i].game_id == id);
    }
    law_listed_in_order(files, known);
    assert forall|i: int, j: int| 0 <= i < j < groups.len() implies (
    #[trigger] groups[i]).game_id != (#[trigger] groups[j]).game_id by {
        assert(text_less(ids[i], ids[j]));
        law_text_order(ids[i], ids[j], ids[i]);
    }
}

/// The model of a [`DirFile`] has all that it holds, and that of a list has every item at its
/// place.
pub proof fn law_model_of_dir_file(file: DirFile, list: Seq<DirFile>, i: int)
    ensures
        file@.name == file.name@,
        file@.size == file.size,
        file_views(list).len() == list.len(),
        0 <= i < list.len() ==> file_views(list)[i] == list[i]@,
{
}

/// The model of a [`ChunkGroup`] has all that it holds, and that of a list has every item at its
/// place.
pub proof fn law_model_of_chunk_group(group: ChunkGroup, list: Seq<ChunkGroup>, i: int)
    ensures
        group@.game_id == group.game_id@,
        group@.crc == group.crc@,
        group@.parts == group.parts,
        group@.total == group.total,
        group_views(list).len() == list.len(),
        0 <= i < list.len() ==> group_views(list)[i] == list[i]@,
{
}

/// The chunks of some files can be counted where each game that is not known has at most 65535 of
/// them, and their sizes together fit 64 bits.
pub proof fn law_countable(files: Seq<DirFileView>, known: Seq<Seq<char>>)
    ensures
        (forall|id: Seq<char>|
            !known.contains(id) ==> #[trigger] chunk_count(files, id) <= 65535 && chunk_total(
                files,
                id,
            ) <= 0xFFFF_FFFF_FFFF_FFFF) ==> countable(files, known),
        files.len() == 0 ==> countable(files, known),
{
}

/// The texts of the parts of a chunk name are all three.
pub proof fn law_parts_view(crc: String, id: String, part: String)
    ensures
        parts_view(Some((crc, id, part))) == Some((crc@, id@, part@)),
        parts_view(None) is None,
{
}

} // verus!
