//! The game list `ul.cfg` of Open PS2 Loader, in the USBExtreme format.
//!
//! Each game is a record of 64 bytes:
//! - `0x00` (32 bytes): display name, null-padded
//! - `0x20` (15 bytes): `ul.` and the game id, null-padded
//! - `0x2F` (1 byte): how many chunk files the game has
//! - `0x30` (1 byte): media type
//! - `0x35` (1 byte): the marker `0x08`
//! - all other bytes are zero
//!
//! The loader finds the chunk files of a game by the checksum of its display name (see
//! [`crate::opl_crc`]), so a name has to read back as it was when the files were named.

use crate::text::{
    contains_text,
    decode_lossy,
    decoded,
    ends_with,
    find,
    find_first,
    find_text,
    first_of,
    from_chars,
    has_prefix,
    has_suffix,
    law_find_text,
    law_prefix_and_suffix,
    law_trim_end_char,
    lemma_find_from,
    lemma_first_of,
    lemma_first_of_unique,
    same_text,
    starts_with,
    to_chars,
    trim_end_char,
    trim_end_matches,
};
use vstd::prelude::*;
use vstd::slice::slice_subrange;
use vstd::string::StringExecFns;
use vstd::utf8::{
    decode_utf8,
    decode_utf8_encode_utf8,
    encode_scalar,
    encode_utf8,
    encode_utf8_decode_utf8,
    encode_utf8_valid_utf8,
    has_width_1_encoding,
    last_continuation_byte,
    leading_byte_width_1,
    leading_byte_width_2,
    leading_byte_width_3,
    leading_byte_width_4,
    second_last_continuation_byte,
    third_last_continuation_byte,
    valid_utf8,
};

verus! {

/// The size of one record.
pub const ENTRY_SIZE: usize = 64;

/// The size of the name field.
pub const NAME_SIZE: usize = 32;

/// Where the image field begins.
pub const IMAGE_OFFSET: usize = 0x20;

/// The size of the image field.
pub const IMAGE_SIZE: usize = 15;

/// Where the chunk count stands.
pub const PARTS_OFFSET: usize = 0x2F;

/// Where the media type stands.
pub const MEDIA_OFFSET: usize = 0x30;

/// Where the marker stands.
pub const MAGIC_OFFSET: usize = 0x35;

/// The marker of the format.
pub const MAGIC: u8 = 0x08;

/// The media type of a CD.
pub const MEDIA_CD: u8 = 0x12;

/// The media type of a DVD.
pub const MEDIA_DVD: u8 = 0x14;

/// What can go wrong with the game list.
#[derive(Debug, Clone)]
pub enum UlCfgError {
    /// The file could not be read or written.
    Io(String),
    /// The file's content makes no sense.
    Parse(String),
}

/// What a [`UlCfgError`] holds.
pub enum UlCfgErrorView {
    Io(Seq<char>),
    Parse(Seq<char>),
}

impl View for UlCfgError {
    type V = UlCfgErrorView;

    open spec fn view(&self) -> UlCfgErrorView {
        match self {
            UlCfgError::Io(s) => UlCfgErrorView::Io(s@),
            UlCfgError::Parse(s) => UlCfgErrorView::Parse(s@),
        }
    }
}

impl UlCfgError {
    /// The error in words.
    pub fn message(&self) -> (m: String)
        ensures
            m@ == (match self@ {
                UlCfgErrorView::Io(s) => "IO error: "@ + s,
                UlCfgErrorView::Parse(s) => "Parse error: "@ + s,
            }),
    {
        match self {
            UlCfgError::Io(s) => "IO error: ".to_owned().concat(s.as_str()),
            UlCfgError::Parse(s) => "Parse error: ".to_owned().concat(s.as_str()),
        }
    }
}

/// One game of the list.
#[derive(Debug, Clone)]
pub struct UlEntry {
    /// The display name.
    pub title: String,
    /// The game id without the prefix `ul.`, such as `SLUS_217.46`.
    pub game_id: String,
    /// How many chunk files the game has.
    pub parts: u16,
    /// The media type.
    pub media: u8,
    /// The device that the entry was made for; not stored in the file.
    pub mount_point: String,
}

/// What an entry holds.
#[verifier::ext_equal]
pub struct EntryView {
    pub title: Seq<char>,
    pub game_id: Seq<char>,
    pub parts: u16,
    pub media: u8,
    pub mount_point: Seq<char>,
}

impl View for UlEntry {
    type V = EntryView;

    open spec fn view(&self) -> EntryView {
        EntryView {
            title: self.title@,
            game_id: self.game_id@,
            parts: self.parts,
            media: self.media,
            mount_point: self.mount_point@,
        }
    }
}

/// What the entries of a list hold.
pub open spec fn entry_views(entries: Seq<UlEntry>) -> Seq<EntryView> {
    Seq::new(entries.len(), |i: int| entries[i]@)
}

impl Default for UlEntry {
    fn default() -> (entry: Self)
        ensures
            entry@ == (EntryView {
                title: Seq::empty(),
                game_id: Seq::empty(),
                parts: 1,
                media: MEDIA_DVD,
                mount_point: Seq::empty(),
            }),
    {
        UlEntry {
            title: String::new(),
            game_id: String::new(),
            parts: 1,
            media: MEDIA_DVD,
            mount_point: String::new(),
        }
    }
}

impl UlEntry {
    /// An entry that holds the same.
    pub fn duplicate(&self) -> (entry: UlEntry)
        ensures
            entry@ == self@,
    {
        UlEntry {
            title: self.title.clone(),
            game_id: self.game_id.clone(),
            parts: self.parts,
            media: self.media,
            mount_point: self.mount_point.clone(),
        }
    }
}

// ---------------------------------------------------------------- writing

/// A text field of `size` bytes: as many of the bytes as fit, then null bytes.
pub open spec fn text_field(bytes: Seq<u8>, size: nat) -> Seq<u8> {
    Seq::new(
        size,
        |i: int|
            if i < bytes.len() {
                bytes[i]
            } else {
                0u8
            },
    )
}

/// The bytes of the image field's text.
pub open spec fn image_bytes(game_id: Seq<char>) -> Seq<u8> {
    encode_utf8("ul."@ + game_id)
}

/// The record of an entry.
pub open spec fn encoded(e: EntryView) -> Seq<u8> {
    text_field(encode_utf8(e.title), NAME_SIZE as nat) + text_field(
        image_bytes(e.game_id),
        IMAGE_SIZE as nat,
    ) + seq![
        if e.parts > 255 {
            255u8
        } else {
            e.parts as u8
        },
        if e.media == MEDIA_CD {
            MEDIA_CD
        } else {
            MEDIA_DVD
        },
        0u8,
        0u8,
        0u8,
        0u8,
        MAGIC,
        0u8,
        0u8,
        0u8,
        0u8,
        0u8,
        0u8,
        0u8,
        0u8,
        0u8,
        0u8,
    ]
}

/// The file that holds these entries.
pub open spec fn serialized(entries: Seq<EntryView>) -> Seq<u8>
    decreases entries.len(),
{
    if entries.len() == 0 {
        seq![]
    } else {
        encoded(entries[0]) + serialized(entries.drop_first())
    }
}

/// Writes at most `size` bytes into `buf` from `at` on.
fn put_field(buf: &mut [u8; ENTRY_SIZE], at: usize, bytes: &[u8], size: usize)
    requires
        at + size <= ENTRY_SIZE,
        forall|i: int| at <= i < at + size ==> old(buf)@[i] == 0,
    ensures
        final(buf)@.len() == ENTRY_SIZE,
        forall|i: int| 0 <= i < at ==> final(buf)@[i] == old(buf)@[i],
        forall|i: int| at + size <= i < ENTRY_SIZE ==> final(buf)@[i] == old(buf)@[i],
        final(buf)@.subrange(at as int, at + size) == text_field(bytes@, size as nat),
{
    let mut i: usize = 0;
    while i < bytes.len() && i < size
        invariant
            i <= bytes.len(),
            i <= size,
            at + size <= ENTRY_SIZE,
            buf@.len() == ENTRY_SIZE,
            forall|k: int| 0 <= k < at ==> buf@[k] == old(buf)@[k],
            forall|k: int| at + i <= k < ENTRY_SIZE ==> buf@[k] == old(buf)@[k],
            forall|k: int| 0 <= k < i ==> buf@[at + k] == bytes@[k],
        decreases bytes.len() - i,
    {
        buf[at + i] = bytes[i];
        i += 1;
    }
    assert(buf@.subrange(at as int, at + size) =~= text_field(bytes@, size as nat));
}

/// The record of one entry.
pub fn encode_entry(entry: &UlEntry) -> (record: [u8; ENTRY_SIZE])
    ensures
        record@ == encoded(entry@),
        record@.len() == ENTRY_SIZE,
        record@[PARTS_OFFSET as int] == (if entry.parts > 255 {
            255
        } else {
            entry.parts
        }),
        record@[MEDIA_OFFSET as int] == (if entry.media == MEDIA_CD {
            MEDIA_CD
        } else {
            MEDIA_DVD
        }),
        record@[MAGIC_OFFSET as int] == MAGIC,
{
    let mut buf: [u8; ENTRY_SIZE] = [0u8;ENTRY_SIZE];
    put_field(&mut buf, 0, entry.title.as_str().as_bytes(), NAME_SIZE);
    let ghost name = buf@;
    let mut image: String = "ul.".to_owned();
    image.append(entry.game_id.as_str());
    put_field(&mut buf, IMAGE_OFFSET, image.as_str().as_bytes(), IMAGE_SIZE);
    let ghost both = buf@;
    buf[PARTS_OFFSET] = if entry.parts > 255 {
        255
    } else {
        entry.parts as u8
    };
    buf[MEDIA_OFFSET] = if entry.media == MEDIA_CD {
        MEDIA_CD
    } else {
        MEDIA_DVD
    };
    buf[MAGIC_OFFSET] = MAGIC;
    proof {
        let e = encoded(entry@);
        assert forall|i: int| 0 <= i < ENTRY_SIZE implies buf@[i] == e[i] by {
            if i < NAME_SIZE {
                assert(name.subrange(0, NAME_SIZE as int)[i] == name[i]);
            } else if i < IMAGE_OFFSET + IMAGE_SIZE {
                assert(both.subrange(IMAGE_OFFSET as int, IMAGE_OFFSET + IMAGE_SIZE)[i
                    - IMAGE_OFFSET] == both[i]);
            }
        }
        assert(buf@ =~= e);
    }
    buf
}

/// The file that holds these entries.
pub fn write_ulcfg(entries: &[UlEntry]) -> (data: Vec<u8>)
    ensures
        data@ == serialized(entry_views(entries@)),
{
    let mut data: Vec<u8> = Vec::new();
    let ghost all = entry_views(entries@);
    let mut i: usize = 0;
    assert(all.skip(0) =~= all);
    assert(data@ + serialized(all) =~= serialized(all));
    while i < entries.len()
        invariant
            i <= entries.len(),
            all == entry_views(entries@),
            serialized(all) == data@ + serialized(all.skip(i as int)),
        decreases entries.len() - i,
    {
        let record = encode_entry(&entries[i]);
        let ghost before = data@;
        data.extend_from_slice(record.as_slice());
        proof {
            let rest = all.skip(i as int);
            assert(rest[0] == entries@[i as int]@);
            assert(rest.drop_first() =~= all.skip(i + 1));
            assert(data@ =~= before + encoded(rest[0]));
            assert(before + (encoded(rest[0]) + serialized(all.skip(i + 1))) =~= (before
                + encoded(rest[0])) + serialized(all.skip(i + 1)));
        }
        i += 1;
    }
    assert(data@ + serialized(all.skip(i as int)) =~= data@);
    data
}

// ---------------------------------------------------------------- reading

/// The text of a field: its bytes before the first null byte, without the spaces at the end.
pub open spec fn field_text(bytes: Seq<u8>) -> Seq<char> {
    trim_end_char(decoded(bytes.take(first_of(bytes, 0u8))), ' ')
}

/// The game id in the text of an image field.
pub open spec fn id_in_image(image: Seq<char>) -> Seq<char> {
    if starts_with(image, "ul."@) {
        image.skip(3)
    } else {
        image
    }
}

/// The entry in a record.
pub open spec fn record_entry(record: Seq<u8>) -> EntryView {
    EntryView {
        title: field_text(record.subrange(0, NAME_SIZE as int)),
        game_id: id_in_image(
            field_text(record.subrange(IMAGE_OFFSET as int, IMAGE_OFFSET + IMAGE_SIZE)),
        ),
        parts: record[PARTS_OFFSET as int] as u16,
        media: record[MEDIA_OFFSET as int],
        mount_point: Seq::empty(),
    }
}

/// The entries in a file: one for each whole record that has a name.
pub open spec fn parsed(data: Seq<u8>) -> Seq<EntryView>
    decreases data.len(),
{
    if data.len() < ENTRY_SIZE {
        seq![]
    } else {
        let entry = record_entry(data.take(ENTRY_SIZE as int));
        let rest = parsed(data.skip(ENTRY_SIZE as int));
        if entry.title.len() == 0 {
            rest
        } else {
            seq![entry] + rest
        }
    }
}

/// Whether a text has no null character, and no space at its end.
pub open spec fn plain_text(s: Seq<char>) -> bool {
    &&& forall|i: int| 0 <= i < s.len() ==> s[i] != '\0'
    &&& s.len() > 0 ==> s.last() != ' '
}

/// Whether an entry has a name, and that and its id are plain texts.
pub open spec fn is_plain(e: EntryView) -> bool {
    e.title.len() > 0 && plain_text(e.title) && plain_text(e.game_id)
}

/// What is left after trimming is a beginning of the text that does not end in what was trimmed.
proof fn lemma_trim_end_char(s: Seq<char>, x: char)
    ensures
        ({
            let t = trim_end_char(s, x);
            &&& t.len() <= s.len()
            &&& t == s.take(t.len() as int)
            &&& t.len() > 0 ==> t.last() != x
        }),
    decreases s.len(),
{
    if s.len() > 0 && s.last() == x {
        lemma_trim_end_char(s.drop_last(), x);
        let t = trim_end_char(s, x);
        assert(s.drop_last().take(t.len() as int) =~= s.take(t.len() as int));
    } else {
        assert(s.take(s.len() as int) =~= s);
    }
}

/// A text without null characters is plain once the spaces at its end are gone.
proof fn lemma_trimmed_is_plain(s: Seq<char>)
    requires
        !s.contains('\0'),
    ensures
        plain_text(trim_end_char(s, ' ')),
{
    let t = trim_end_char(s, ' ');
    lemma_trim_end_char(s, ' ');
    assert forall|i: int| 0 <= i < t.len() implies t[i] != '\0' by {
        assert(t[i] == s[i]);
        assert(s.contains(s[i]));
    }
}

/// The id in a plain text is plain.
proof fn lemma_id_is_plain(image: Seq<char>)
    requires
        plain_text(image),
    ensures
        plain_text(id_in_image(image)),
{
    reveal_strlit("ul.");
    let id = id_in_image(image);
    if starts_with(image, "ul."@) {
        assert forall|i: int| 0 <= i < id.len() implies id[i] != '\0' by {
            assert(id[i] == image[i + 3]);
        }
        if id.len() > 0 {
            assert(id.last() == image.last());
        }
    }
}

/// The bytes before the first null byte.
pub(crate) fn until_null(bytes: &[u8]) -> (t: &[u8])
    ensures
        t@ == bytes@.take(first_of(bytes@, 0u8)),
{
    let mut end: usize = 0;
    while end < bytes.len() && bytes[end] != 0
        invariant
            end <= bytes.len(),
            forall|i: int| 0 <= i < end ==> bytes@[i] != 0,
        decreases bytes.len() - end,
    {
        end += 1;
    }
    proof {
        lemma_first_of_unique(bytes@, 0u8, end as int);
    }
    slice_subrange(bytes, 0, end)
}

/// `s` without the run of spaces at its end.
pub fn without_trailing_spaces(s: &str) -> (t: String)
    ensures
        t@ == trim_end_char(s@, ' '),
{
    let chars = to_chars(s);
    from_chars(trim_end_matches(chars.as_slice(), ' '))
}

/// The text of a field.
pub fn null_terminated_str(bytes: &[u8]) -> (text: String)
    ensures
        text@ == field_text(bytes@),
        plain_text(text@),
{
    let field = until_null(bytes);
    let text = decode_lossy(field);
    proof {
        lemma_first_of(bytes@, 0u8);
        assert(!text@.contains('\0'));
        lemma_trimmed_is_plain(text@);
    }
    without_trailing_spaces(text.as_str())
}

/// The game id in the text of an image field.
pub fn strip_image_prefix(image: &str) -> (id: String)
    ensures
        id@ == id_in_image(image@),
        plain_text(image@) ==> plain_text(id@),
{
    proof {
        if plain_text(image@) {
            lemma_id_is_plain(image@);
        }
    }
    let chars = to_chars(image);
    if has_prefix(chars.as_slice(), "ul.") {
        proof {
            reveal_strlit("ul.");
        }
        from_chars(slice_subrange(chars.as_slice(), 3, chars.len()))
    } else {
        from_chars(chars.as_slice())
    }
}

/// The entries in the bytes of a `ul.cfg`. A file that does not exist has no bytes.
pub fn parse_ulcfg(data: &[u8]) -> (entries: Vec<UlEntry>)
    ensures
        entry_views(entries@) == parsed(data@),
        forall|i: int| 0 <= i < parsed(data@).len() ==> is_plain(#[trigger] parsed(data@)[i]),
{
    let mut entries: Vec<UlEntry> = Vec::new();
    let mut offset: usize = 0;
    assert(data@.skip(0) =~= data@);
    assert(entry_views(entries@) + parsed(data@) =~= parsed(data@));
    while data.len() - offset >= ENTRY_SIZE
        invariant
            offset <= data.len(),
            parsed(data@) == entry_views(entries@) + parsed(data@.skip(offset as int)),
            forall|i: int|
                0 <= i < entries@.len() ==> is_plain(#[trigger] entry_views(entries@)[i]),
        decreases data.len() - offset,
    {
        let record = slice_subrange(data, offset, offset + ENTRY_SIZE);
        let title = null_terminated_str(slice_subrange(record, 0, NAME_SIZE));
        let image = null_terminated_str(
            slice_subrange(record, IMAGE_OFFSET, IMAGE_OFFSET + IMAGE_SIZE),
        );
        let game_id = strip_image_prefix(image.as_str());
        let parts: u16 = record[PARTS_OFFSET] as u16;
        let media: u8 = record[MEDIA_OFFSET];
        let ghost before = entry_views(entries@);
        let ghost rest = data@.skip(offset as int);
        assert(rest.take(ENTRY_SIZE as int) =~= record@);
        assert(rest.skip(ENTRY_SIZE as int) =~= data@.skip(offset + ENTRY_SIZE));
        if !title.as_str().is_empty() {
            let entry = UlEntry { title, game_id, parts, media, mount_point: String::new() };
            entries.push(entry);
            proof {
                let e = record_entry(record@);
                assert(entry@ =~= e);
                assert(entry_views(entries@) =~= before.push(e));
                assert forall|i: int| 0 <= i < entries@.len() implies is_plain(
                    #[trigger] entry_views(entries@)[i],
                ) by {
                    if i < before.len() {
                        assert(entry_views(entries@)[i] == before[i]);
                    }
                }
                assert(before + (seq![e] + parsed(data@.skip(offset + ENTRY_SIZE)))
                    =~= before.push(e) + parsed(data@.skip(offset + ENTRY_SIZE)));
            }
        }
        offset += ENTRY_SIZE;
    }
    assert(entry_views(entries@) + parsed(data@.skip(offset as int)) =~= entry_views(entries@));
    entries
}

/// Whether a file is made of whole records, the first of which carries the marker.
pub open spec fn has_real_format(data: Seq<u8>) -> bool {
    data.len() > 0 && data.len() % ENTRY_SIZE as nat == 0 && data[MAGIC_OFFSET as int] == MAGIC
}

/// Whether these bytes are a list in the 64-byte format.
pub fn is_real_format(data: &[u8]) -> (is_real: bool)
    ensures
        is_real == has_real_format(data@),
{
    data.len() > 0 && data.len() % ENTRY_SIZE == 0 && data[MAGIC_OFFSET] == MAGIC
}

// ---------------------------------------------------------------- changing

/// The index of the first entry with this game id: the number of entries where there is none.
pub open spec fn first_with_id(entries: Seq<EntryView>, game_id: Seq<char>) -> int
    decreases entries.len(),
{
    if entries.len() == 0 || entries[0].game_id == game_id {
        0
    } else {
        1 + first_with_id(entries.drop_first(), game_id)
    }
}

/// What [`first_with_id`] says of the entries.
pub proof fn lemma_first_with_id(entries: Seq<EntryView>, game_id: Seq<char>)
    ensures
        0 <= first_with_id(entries, game_id) <= entries.len(),
        forall|i: int|
            0 <= i < first_with_id(entries, game_id) ==> #[trigger] entries[i].game_id != game_id,
        first_with_id(entries, game_id) < entries.len() ==> entries[first_with_id(
            entries,
            game_id,
        )].game_id == game_id,
    decreases entries.len(),
{
    if entries.len() == 0 || entries[0].game_id == game_id {
    } else {
        let rest = entries.drop_first();
        lemma_first_with_id(rest, game_id);
        assert forall|i: int| 0 <= i < first_with_id(entries, game_id) implies #[trigger] entries[
            i].game_id != game_id by {
            if i > 0 {
                assert(entries[i] == rest[i - 1]);
            }
        }
    }
}

/// The list after adding an entry: the first entry with its game id takes over the name, the
/// chunk count and the media type; where there is none, the entry comes last.
pub open spec fn with_entry(entries: Seq<EntryView>, entry: EntryView) -> Seq<EntryView> {
    let k = first_with_id(entries, entry.game_id);
    if k < entries.len() {
        entries.update(
            k,
            EntryView {
                title: entry.title,
                parts: entry.parts,
                media: entry.media,
                ..entries[k]
            },
        )
    } else {
        entries.push(entry)
    }
}

/// The list without the entries that have this game id.
pub open spec fn without_id(entries: Seq<EntryView>, game_id: Seq<char>) -> Seq<EntryView>
    decreases entries.len(),
{
    if entries.len() == 0 {
        seq![]
    } else {
        let rest = without_id(entries.drop_last(), game_id);
        if entries.last().game_id == game_id {
            rest
        } else {
            rest.push(entries.last())
        }
    }
}

/// Whether some entry has this game id.
pub open spec fn lists_id(entries: Seq<EntryView>, game_id: Seq<char>) -> bool {
    exists|i: int| 0 <= i < entries.len() && #[trigger] entries[i].game_id == game_id
}

/// Adds an entry to a list, or updates the entry that has its game id.
pub fn upsert_entry(entries: &mut Vec<UlEntry>, entry: &UlEntry)
    ensures
        entry_views(final(entries)@) == with_entry(entry_views(old(entries)@), entry@),
{
    let ghost all = entry_views(entries@);
    let mut k: usize = 0;
    assert(all.skip(0) =~= all);
    while k < entries.len() && !same_text(entries[k].game_id.as_str(), entry.game_id.as_str())
        invariant
            k <= entries.len(),
            entries@ == old(entries)@,
            all == entry_views(entries@),
            first_with_id(all, entry@.game_id) == k + first_with_id(
                all.skip(k as int),
                entry@.game_id,
            ),
        decreases entries.len() - k,
    {
        assert(all.skip(k as int)[0] == entries@[k as int]@);
        assert(all.skip(k as int).drop_first() =~= all.skip(k + 1));
        k += 1;
    }
    if k < entries.len() {
        assert(all.skip(k as int)[0] == entries@[k as int]@);
        let updated = UlEntry {
            title: entry.title.clone(),
            game_id: entries[k].game_id.clone(),
            parts: entry.parts,
            media: entry.media,
            mount_point: entries[k].mount_point.clone(),
        };
        entries.set(k, updated);
    } else {
        entries.push(entry.duplicate());
    }
    assert(entry_views(entries@) =~= with_entry(all, entry@));
}

/// The entries that do not have this game id, in their order.
pub fn retain_other_ids(entries: &[UlEntry], game_id: &str) -> (kept: Vec<UlEntry>)
    ensures
        entry_views(kept@) == without_id(entry_views(entries@), game_id@),
{
    let mut kept: Vec<UlEntry> = Vec::new();
    let ghost all = entry_views(entries@);
    let mut i: usize = 0;
    assert(entry_views(kept@) =~= without_id(all.take(0), game_id@));
    while i < entries.len()
        invariant
            i <= entries.len(),
            all == entry_views(entries@),
            entry_views(kept@) == without_id(all.take(i as int), game_id@),
        decreases entries.len() - i,
    {
        let ghost before = kept@;
        assert(all.take(i + 1).drop_last() =~= all.take(i as int));
        assert(all.take(i + 1).last() == entries@[i as int]@);
        if !same_text(entries[i].game_id.as_str(), game_id) {
            kept.push(entries[i].duplicate());
            assert(entry_views(kept@) =~= entry_views(before).push(entries@[i as int]@));
        }
        i += 1;
    }
    assert(all.take(i as int) =~= all);
    kept
}

/// The file after adding an entry to the file `data`, or updating the entry that has its id.
pub fn add_entry(data: &[u8], entry: &UlEntry) -> (updated: Vec<u8>)
    ensures
        updated@ == serialized(with_entry(parsed(data@), entry@)),
        all_within_fields(parsed(data@)) && storable(entry@) ==> parsed(updated@) == all_stored(
            with_entry(parsed(data@), entry@),
        ),
{
    let mut entries = parse_ulcfg(data);
    proof {
        if all_within_fields(parsed(data@)) && storable(entry@) {
            assert forall|i: int| 0 <= i < parsed(data@).len() implies storable(
                #[trigger] parsed(data@)[i],
            ) by {
                assert(within_fields(parsed(data@)[i]));
            }
            lemma_added_is_storable(parsed(data@), entry@);
            law_file_round_trip(with_entry(parsed(data@), entry@));
        }
    }
    upsert_entry(&mut entries, entry);
    write_ulcfg(entries.as_slice())
}

/// Removing never adds entries, and keeps them all only where none has the id.
proof fn lemma_without_id_len(entries: Seq<EntryView>, game_id: Seq<char>)
    ensures
        without_id(entries, game_id).len() <= entries.len(),
        without_id(entries, game_id).len() < entries.len() <==> lists_id(entries, game_id),
    decreases entries.len(),
{
    if entries.len() > 0 {
        let rest = entries.drop_last();
        lemma_without_id_len(rest, game_id);
        if lists_id(rest, game_id) {
            let i = choose|i: int| 0 <= i < rest.len() && #[trigger] rest[i].game_id == game_id;
            assert(entries[i].game_id == game_id);
        }
        if lists_id(entries, game_id) && entries.last().game_id != game_id {
            let i = choose|i: int|
                0 <= i < entries.len() && #[trigger] entries[i].game_id == game_id;
            assert(rest[i].game_id == game_id);
        }
    }
}

/// The file after removing the entries with this game id from the file `data`; nothing where
/// there are none, and the file stays as it is.
pub fn remove_entry(data: &[u8], game_id: &str) -> (updated: Option<Vec<u8>>)
    ensures
        match updated {
            Some(bytes) => lists_id(parsed(data@), game_id@) && bytes@ == serialized(
                without_id(parsed(data@), game_id@),
            ) && (all_within_fields(parsed(data@)) ==> parsed(bytes@) == all_stored(
                without_id(parsed(data@), game_id@),
            )),
            None => !lists_id(parsed(data@), game_id@),
        },
{
    let entries = parse_ulcfg(data);
    proof {
        if all_within_fields(parsed(data@)) {
            let list = without_id(parsed(data@), game_id@);
            law_remove(parsed(data@), game_id@);
            assert forall|i: int| 0 <= i < list.len() implies storable(#[trigger] list[i]) by {
                let k = choose|k: int| 0 <= k < parsed(data@).len() && parsed(data@)[k] == list[i];
                assert(parsed(data@).contains(list[i]));
                assert(is_plain(parsed(data@)[k]) && within_fields(parsed(data@)[k]));
            }
            law_file_round_trip(list);
        }
    }
    let kept = retain_other_ids(entries.as_slice(), game_id);
    proof {
        lemma_without_id_len(entry_views(entries@), game_id@);
    }
    if kept.len() < entries.len() {
        Some(write_ulcfg(kept.as_slice()))
    } else {
        None
    }
}

// ---------------------------------------------------------------- where the list is

/// The ways in which operating systems write paths.
#[derive(Debug, Clone, Copy)]
pub enum PathStyle {
    Unix,
    Windows,
}

/// Whether a character separates the parts of a path.
pub open spec fn is_separator(style: PathStyle, c: char) -> bool {
    c == '/' || (style is Windows && c == '\\')
}

/// Whether a path is only a drive on Windows, such as `E:`.
pub open spec fn is_bare_drive(path: Seq<char>) -> bool {
    path.len() == 2 && ('a' <= path[0] <= 'z' || 'A' <= path[0] <= 'Z') && path[1] == ':'
}

/// Whether a Windows path is in the verbatim form, which begins with `\\?\`.
pub open spec fn is_verbatim(path: Seq<char>) -> bool {
    starts_with(path, "\\\\?\\"@)
}

/// A text with each run of backslashes made one.
pub open spec fn squeezed(s: Seq<char>) -> Seq<char>
    decreases s.len(),
{
    if s.len() == 0 {
        s
    } else if s.len() > 1 && s.last() == '\\' && s[s.len() - 2] == '\\' {
        squeezed(s.drop_last())
    } else {
        squeezed(s.drop_last()).push(s.last())
    }
}

/// Whether a verbatim path names something, with backslashes alone between its parts: a name
/// comes first, and after `UNC` that of a server.
pub open spec fn is_named_verbatim(path: Seq<char>) -> bool {
    let rest = path.skip(4);
    &&& !path.contains('/')
    &&& rest.len() > 0
    &&& rest[0] != '\\'
    &&& starts_with(rest, "UNC\\"@) ==> rest.len() > 4 && rest[4] != '\\'
}

/// Whether a file name can be put behind a path: any but a verbatim one that names nothing.
pub open spec fn is_joinable(path: Seq<char>, style: PathStyle) -> bool {
    style is Windows && is_verbatim(path) ==> is_named_verbatim(path)
}

/// The path of a file in a directory: with a separator between them, unless the directory ends in
/// one, is empty, or is only a drive. A verbatim path is brought into its plain form: one
/// backslash between each two parts.
pub open spec fn path_in(dir: Seq<char>, name: Seq<char>, style: PathStyle) -> Seq<char> {
    if style is Windows && is_verbatim(dir) {
        dir.take(4) + squeezed(trim_end_char(dir.skip(4), '\\')) + "\\"@ + name
    } else if dir.len() == 0 || is_separator(style, dir.last()) || (style is Windows
        && is_bare_drive(dir)) {
        dir + name
    } else if style is Windows {
        dir + "\\"@ + name
    } else {
        dir + "/"@ + name
    }
}

/// A text with each run of backslashes made one.
fn squeeze(s: &[char]) -> (t: Vec<char>)
    ensures
        t@ == squeezed(s@),
{
    let mut t: Vec<char> = Vec::new();
    let mut i: usize = 0;
    while i < s.len()
        invariant
            i <= s.len(),
            t@ == squeezed(s@.take(i as int)),
        decreases s.len() - i,
    {
        assert(s@.take(i + 1).drop_last() =~= s@.take(i as int));
        if !(i > 0 && s[i] == '\\' && s[i - 1] == '\\') {
            t.push(s[i]);
        }
        i += 1;
    }
    assert(s@.take(i as int) =~= s@);
    t
}

/// Whether a file name can be put behind a path.
pub fn can_join(path: &str, style: PathStyle) -> (b: bool)
    ensures
        b == is_joinable(path@, style),
{
    if matches!(style, PathStyle::Unix) {
        return true;
    }
    proof {
        reveal_strlit("\\\\?\\");
    }
    let chars = to_chars(path);
    if !has_prefix(chars.as_slice(), "\\\\?\\") {
        return true;
    }
    let at: usize = find_first(chars.as_slice(), '/');
    proof {
        lemma_first_of(path@, '/');
    }
    let rest = slice_subrange(chars.as_slice(), 4, chars.len());
    assert(rest@ =~= path@.skip(4));
    assert(path@.contains('/') <==> at < path@.len());
    at == chars.len() && rest.len() > 0 && rest[0] != '\\' && (!has_prefix(rest, "UNC\\") || (
    rest.len() > 4 && rest[4] != '\\'))
}

/// The path of the game list of the device at a mount point.
pub fn ulcfg_path(mount_point: &str, style: PathStyle) -> (path: String)
    requires
        is_joinable(mount_point@, style),
    ensures
        path@ == path_in(mount_point@, "ul.cfg"@, style),
{
    let chars = to_chars(mount_point);
    let n: usize = chars.len();
    let windows = match style {
        PathStyle::Windows => true,
        PathStyle::Unix => false,
    };
    if windows && has_prefix(chars.as_slice(), "\\\\?\\") {
        proof {
            reveal_strlit("\\\\?\\");
        }
        let rest = slice_subrange(chars.as_slice(), 4, n);
        let plain = from_chars(squeeze(trim_end_matches(rest, '\\')).as_slice());
        let head = from_chars(slice_subrange(chars.as_slice(), 0, 4));
        assert(rest@ =~= mount_point@.skip(4));
        assert(head@ =~= mount_point@.take(4));
        return head.concat(plain.as_str()).concat("\\").concat("ul.cfg");
    }
    let bare = windows && n == 2 && (('a' <= chars[0] && chars[0] <= 'z') || ('A' <= chars[0]
        && chars[0] <= 'Z')) && chars[1] == ':';
    if n == 0 || chars[n - 1] == '/' || (windows && chars[n - 1] == '\\') || bare {
        mount_point.to_owned().concat("ul.cfg")
    } else if windows {
        mount_point.to_owned().concat("\\").concat("ul.cfg")
    } else {
        mount_point.to_owned().concat("/").concat("ul.cfg")
    }
}

// ---------------------------------------------------------------- titles

/// A file name without a final `.iso`, or else without a final `.bin`.
pub open spec fn file_stem(filename: Seq<char>) -> Seq<char> {
    if ends_with(filename, ".iso"@) || ends_with(filename, ".bin"@) {
        filename.take(filename.len() - 4)
    } else {
        filename
    }
}

/// The game title in an image's file name: what follows the first ` - ` of the stem, or the
/// whole stem.
pub open spec fn title_in_filename(filename: Seq<char>) -> Seq<char> {
    let stem = file_stem(filename);
    match find_text(stem, " - "@) {
        Some(at) => stem.skip(at + 3),
        None => stem,
    }
}

/// The game title in an image's file name: `SLUS_200.00 - God of War.iso` names `God of War`.
pub fn extract_title(filename: &str) -> (title: String)
    ensures
        title@ == title_in_filename(filename@),
{
    proof {
        reveal_strlit(".iso");
        reveal_strlit(".bin");
        reveal_strlit(" - ");
    }
    let chars = to_chars(filename);
    let all = chars.as_slice();
    let stem: &[char] = if has_suffix(all, ".iso") || has_suffix(all, ".bin") {
        slice_subrange(all, 0, all.len() - 4)
    } else {
        all
    };
    let separator = to_chars(" - ");
    match find(stem, separator.as_slice()) {
        Some(at) => from_chars(slice_subrange(stem, at + 3, stem.len())),
        None => from_chars(stem),
    }
}

/// How many characters at the beginning of a text fit into `room` bytes.
pub open spec fn fitting(s: Seq<char>, room: nat) -> int
    decreases s.len(),
{
    if s.len() == 0 || encode_scalar(s[0] as u32).len() > room {
        0
    } else {
        1 + fitting(s.drop_first(), (room - encode_scalar(s[0] as u32).len()) as nat)
    }
}

/// A name cut to what the game list gives back of it: what stands before the first null
/// character, as many whole characters of that as fit the name field, without the spaces at the
/// end.
pub open spec fn shortened(title: Seq<char>) -> Seq<char> {
    let name = title.take(first_of(title, '\0'));
    trim_end_char(name.take(fitting(name, NAME_SIZE as nat)), ' ')
}

/// How many bytes a character takes.
fn char_width(c: char) -> (n: usize)
    ensures
        n == encode_scalar(c as u32).len(),
        1 <= n <= 4,
{
    let code: u32 = c as u32;
    if code < 0x80 {
        1
    } else if code < 0x800 {
        2
    } else if code < 0x10000 {
        3
    } else {
        4
    }
}

/// How many characters at the beginning of a text fit into `room` bytes.
fn count_fitting(s: &[char], room: usize) -> (n: usize)
    ensures
        n == fitting(s@, room as nat),
        n <= s@.len(),
{
    let mut left: usize = room;
    let mut n: usize = 0;
    assert(s@.skip(0) =~= s@);
    while n < s.len() && char_width(s[n]) <= left
        invariant
            n <= s@.len(),
            fitting(s@, room as nat) == n + fitting(s@.skip(n as int), left as nat),
        decreases s.len() - n,
    {
        assert(s@.skip(n as int).drop_first() =~= s@.skip(n + 1));
        left = left - char_width(s[n]);
        n += 1;
    }
    n
}

/// A name cut to what the game list gives back of it.
pub fn shorten_title(title: &str) -> (short: String)
    ensures
        short@ == shortened(title@),
{
    let chars = to_chars(title);
    let end = find_first(chars.as_slice(), '\0');
    proof {
        lemma_first_of(title@, '\0');
    }
    let name = slice_subrange(chars.as_slice(), 0, end);
    let cut = slice_subrange(name, 0, count_fitting(name, NAME_SIZE));
    assert(name@ =~= title@.take(first_of(title@, '\0')));
    assert(cut@ =~= name@.take(fitting(name@, NAME_SIZE as nat)));
    from_chars(trim_end_matches(cut, ' '))
}

// ---------------------------------------------------------------- laws

/// Whether a record can hold the whole of a name.
pub open spec fn name_fits(title: Seq<char>) -> bool {
    plain_text(title) && encode_utf8(title).len() <= NAME_SIZE
}

/// Whether a record can hold the whole of a game id.
pub open spec fn id_fits(game_id: Seq<char>) -> bool {
    plain_text(game_id) && image_bytes(game_id).len() <= IMAGE_SIZE
}

/// Whether the name and the id of an entry take no more bytes than their fields have.
pub open spec fn within_fields(e: EntryView) -> bool {
    encode_utf8(e.title).len() <= NAME_SIZE && image_bytes(e.game_id).len() <= IMAGE_SIZE
}

/// Whether the names and ids of all entries take no more bytes than their fields have.
pub open spec fn all_within_fields(entries: Seq<EntryView>) -> bool {
    forall|i: int| 0 <= i < entries.len() ==> within_fields(#[trigger] entries[i])
}

/// Whether a record can hold the whole name and id of an entry, and the entry has a name.
pub open spec fn storable(e: EntryView) -> bool {
    e.title.len() > 0 && name_fits(e.title) && id_fits(e.game_id)
}

/// The entry as the file gives it back: the number of chunks is kept up to 255, the media type is
/// that of a CD or of a DVD, and the mount point is not stored.
pub open spec fn as_stored(e: EntryView) -> EntryView {
    EntryView {
        parts: if e.parts > 255 {
            255
        } else {
            e.parts
        },
        media: if e.media == MEDIA_CD {
            MEDIA_CD
        } else {
            MEDIA_DVD
        },
        mount_point: Seq::empty(),
        ..e
    }
}

/// The entries as the file gives them back.
pub open spec fn all_stored(entries: Seq<EntryView>) -> Seq<EntryView> {
    Seq::new(entries.len(), |i: int| as_stored(entries[i]))
}

/// The encoding of a character other than the null character has no null byte.
proof fn lemma_scalar_no_null(ch: char)
    requires
        ch != '\0',
    ensures
        ({
            let bytes = encode_scalar(ch as u32);
            forall|i: int| 0 <= i < bytes.len() ==> bytes[i] != 0
        }),
{
    let c = ch as u32;
    if has_width_1_encoding(c) {
        assert(leading_byte_width_1(c) != 0) by (bit_vector)
            requires
                0 < c <= 0x7F,
        ;
    } else {
        assert(leading_byte_width_2(c) != 0 && leading_byte_width_3(c) != 0
            && leading_byte_width_4(c) != 0 && last_continuation_byte(c) != 0
            && second_last_continuation_byte(c) != 0 && third_last_continuation_byte(c) != 0)
            by (bit_vector);
    }
}

/// The encoding of a text without null characters has no null byte.
pub(crate) proof fn lemma_text_no_null(s: Seq<char>)
    requires
        forall|i: int| 0 <= i < s.len() ==> s[i] != '\0',
    ensures
        forall|i: int| 0 <= i < encode_utf8(s).len() ==> encode_utf8(s)[i] != 0,
    decreases s.len(),
{
    if s.len() > 0 {
        let c = s[0];
        let head = encode_scalar(c as u32);
        let tail = encode_utf8(s.drop_first());
        lemma_scalar_no_null(c);
        assert forall|i: int| 0 <= i < s.drop_first().len() implies s.drop_first()[i] != '\0' by {
            assert(s.drop_first()[i] == s[i + 1]);
        }
        lemma_text_no_null(s.drop_first());
        assert forall|i: int| 0 <= i < encode_utf8(s).len() implies encode_utf8(s)[i] != 0 by {
            if i < head.len() {
                assert(encode_utf8(s)[i] == head[i]);
            } else {
                assert(encode_utf8(s)[i] == tail[i - head.len()]);
            }
        }
    }
}

/// A text that fits a field reads back from it.
proof fn lemma_field_round_trip(s: Seq<char>, size: nat)
    requires
        plain_text(s),
        encode_utf8(s).len() <= size,
    ensures
        field_text(text_field(encode_utf8(s), size)) == s,
{
    let bytes = encode_utf8(s);
    let field = text_field(bytes, size);
    lemma_text_no_null(s);
    lemma_first_of_unique(field, 0u8, bytes.len() as int);
    assert(field.take(bytes.len() as int) =~= bytes);
    encode_utf8_valid_utf8(s);
    encode_utf8_decode_utf8(s);
}

/// A name that a record can hold reads back from the record of its entry.
pub proof fn law_name_reads_back(e: EntryView)
    requires
        name_fits(e.title),
    ensures
        record_entry(encoded(e)).title == e.title,
{
    assert(encoded(e).subrange(0, NAME_SIZE as int) =~= text_field(
        encode_utf8(e.title),
        NAME_SIZE as nat,
    ));
    lemma_field_round_trip(e.title, NAME_SIZE as nat);
}

/// An entry whose name and id a record can hold reads back from its record.
pub proof fn law_record_round_trip(e: EntryView)
    requires
        name_fits(e.title),
        id_fits(e.game_id),
    ensures
        record_entry(encoded(e)) == as_stored(e),
{
    reveal_strlit("ul.");
    let record = encoded(e);
    let image = "ul."@ + e.game_id;
    law_name_reads_back(e);
    assert(record.subrange(IMAGE_OFFSET as int, IMAGE_OFFSET + IMAGE_SIZE) =~= text_field(
        image_bytes(e.game_id),
        IMAGE_SIZE as nat,
    ));
    assert(plain_text(image)) by {
        if e.game_id.len() > 0 {
            assert(image.last() == e.game_id.last());
        }
        assert forall|i: int| 0 <= i < image.len() implies image[i] != '\0' by {
            if i >= 3 {
                assert(image[i] == e.game_id[i - 3]);
            }
        }
    }
    lemma_field_round_trip(image, IMAGE_SIZE as nat);
    assert(image.subrange(0, 3) =~= "ul."@);
    assert(image.skip(3) =~= e.game_id);
}

/// A beginning of a text takes no more bytes than the text.
proof fn lemma_prefix_bytes(s: Seq<char>, k: int)
    requires
        0 <= k <= s.len(),
    ensures
        encode_utf8(s.take(k)).len() <= encode_utf8(s).len(),
    decreases k,
{
    if k > 0 {
        lemma_prefix_bytes(s.drop_first(), k - 1);
        assert(s.take(k).drop_first() =~= s.drop_first().take(k - 1));
    }
}

/// As many whole characters are taken as there is room for: they fit, and with one more they
/// would not.
pub proof fn law_cut_is_longest(s: Seq<char>, room: nat)
    ensures
        0 <= fitting(s, room) <= s.len(),
        encode_utf8(s.take(fitting(s, room))).len() <= room,
        fitting(s, room) < s.len() ==> encode_utf8(s.take(fitting(s, room) + 1)).len() > room,
    decreases s.len(),
{
    let n = fitting(s, room);
    if s.len() > 0 {
        let width = encode_scalar(s[0] as u32).len();
        if width > room {
            assert(encode_utf8(s.take(1)).len() >= width);
        } else {
            let rest = s.drop_first();
            law_cut_is_longest(rest, (room - width) as nat);
            assert(s.take(n).drop_first() =~= rest.take(n - 1));
            if n < s.len() {
                assert(s.take(n + 1).drop_first() =~= rest.take(n));
            }
        }
    }
}

/// A record can hold the whole of any name that has been cut to fit, and no other name is
/// changed by cutting it.
pub proof fn law_shortened_name_fits(title: Seq<char>)
    ensures
        name_fits(shortened(title)),
        name_fits(title) ==> shortened(title) == title,
{
    let end = first_of(title, '\0');
    let name = title.take(end);
    let n = fitting(name, NAME_SIZE as nat);
    let cut = name.take(n);
    let t = shortened(title);
    lemma_first_of(title, '\0');
    law_cut_is_longest(name, NAME_SIZE as nat);
    lemma_trim_end_char(cut, ' ');
    lemma_prefix_bytes(cut, t.len() as int);
    assert forall|i: int| 0 <= i < t.len() implies t[i] != '\0' by {
        assert(t[i] == title[i]);
    }
    if name_fits(title) {
        lemma_first_of_unique(title, '\0', title.len() as int);
        assert(name =~= title);
        if n < title.len() {
            lemma_prefix_bytes(title, n + 1);
        }
        assert(cut =~= title);
    }
}

/// A name that has been cut to fit reads back from the record of its entry.
pub proof fn law_shortened_name_reads_back(e: EntryView, title: Seq<char>)
    requires
        e.title == shortened(title),
    ensures
        record_entry(encoded(e)).title == shortened(title),
{
    law_shortened_name_fits(title);
    law_name_reads_back(e);
}

/// Reading a file gives back the entries that were written to it, in order, where records can
/// hold them.
pub proof fn law_file_round_trip(entries: Seq<EntryView>)
    requires
        forall|i: int| 0 <= i < entries.len() ==> storable(#[trigger] entries[i]),
    ensures
        parsed(serialized(entries)) == all_stored(entries),
    decreases entries.len(),
{
    if entries.len() > 0 {
        let first = encoded(entries[0]);
        let rest = entries.drop_first();
        let data = serialized(entries);
        law_record_round_trip(entries[0]);
        assert(data.take(ENTRY_SIZE as int) =~= first);
        assert(data.skip(ENTRY_SIZE as int) =~= serialized(rest));
        assert forall|i: int| 0 <= i < rest.len() implies storable(#[trigger] rest[i]) by {
            assert(rest[i] == entries[i + 1]);
        }
        law_file_round_trip(rest);
        assert(all_stored(entries) =~= seq![as_stored(entries[0])] + all_stored(rest));
    }
}

/// Every entry that is written to a file is read back from it as its record gives it, unless it
/// then has no name.
pub proof fn law_written_entry_is_read(entries: Seq<EntryView>, k: int)
    requires
        0 <= k < entries.len(),
        record_entry(encoded(entries[k])).title.len() > 0,
    ensures
        parsed(serialized(entries)).contains(record_entry(encoded(entries[k]))),
    decreases entries.len(),
{
    let rest = entries.drop_first();
    let data = serialized(entries);
    let all = parsed(data);
    let read = record_entry(encoded(entries[k]));
    assert(data.take(ENTRY_SIZE as int) =~= encoded(entries[0]));
    assert(data.skip(ENTRY_SIZE as int) =~= serialized(rest));
    if k == 0 {
        assert(all[0] == read);
    } else {
        assert(rest[k - 1] == entries[k]);
        law_written_entry_is_read(rest, k - 1);
        let later = parsed(serialized(rest));
        let i = choose|i: int| 0 <= i < later.len() && later[i] == read;
        assert(all[i + (all.len() - later.len())] == read);
    }
}

/// The name and image fields of a record hold well-formed UTF-8 before their first null bytes.
pub open spec fn is_text_record(record: Seq<u8>) -> bool {
    let name = record.subrange(0, NAME_SIZE as int);
    let image = record.subrange(IMAGE_OFFSET as int, IMAGE_OFFSET + IMAGE_SIZE);
    &&& valid_utf8(name.take(first_of(name, 0u8)))
    &&& valid_utf8(image.take(first_of(image, 0u8)))
}

/// The name and image fields of all records of a file hold well-formed UTF-8.
pub open spec fn is_text_list(data: Seq<u8>) -> bool
    decreases data.len(),
{
    data.len() < ENTRY_SIZE || (is_text_record(data.take(ENTRY_SIZE as int)) && is_text_list(
        data.skip(ENTRY_SIZE as int),
    ))
}

/// The encoding of a text with a null character has a null byte.
proof fn lemma_null_char_has_null_byte(s: Seq<char>)
    requires
        s.contains('\0'),
    ensures
        encode_utf8(s).contains(0u8),
    decreases s.len(),
{
    let k = choose|k: int| 0 <= k < s.len() && s[k] == '\0';
    let head = encode_scalar(s[0] as u32);
    let tail = encode_utf8(s.drop_first());
    let all = encode_utf8(s);
    if k == 0 {
        assert(leading_byte_width_1(0) == 0) by (bit_vector);
        assert(all[0] == 0);
    } else {
        assert(s.drop_first()[k - 1] == '\0');
        lemma_null_char_has_null_byte(s.drop_first());
        let i = choose|i: int| 0 <= i < tail.len() && tail[i] == 0u8;
        assert(all[head.len() + i] == 0);
    }
}

/// The text of a field that holds well-formed UTF-8 is plain, and takes no more bytes than the
/// field has.
proof fn lemma_text_field_is_plain(field: Seq<u8>)
    requires
        valid_utf8(field.take(first_of(field, 0u8))),
    ensures
        plain_text(field_text(field)),
        encode_utf8(field_text(field)).len() <= field.len(),
{
    let bytes = field.take(first_of(field, 0u8));
    let text = decode_utf8(bytes);
    lemma_first_of(field, 0u8);
    decode_utf8_encode_utf8(bytes);
    if text.contains('\0') {
        lemma_null_char_has_null_byte(text);
        let i = choose|i: int| 0 <= i < bytes.len() && bytes[i] == 0u8;
        assert(field[i] == 0u8);
    }
    lemma_trimmed_is_plain(text);
    lemma_trim_end_char(text, ' ');
    lemma_prefix_bytes(text, field_text(field).len() as int);
}

/// The text of an image field takes three bytes more than the id in it.
pub proof fn law_image_bytes(game_id: Seq<char>)
    ensures
        image_bytes(game_id).len() == encode_utf8(game_id).len() + 3,
{
    reveal_strlit("ul.");
    let image = "ul."@ + game_id;
    let (a, b) = (image.drop_first(), image.drop_first().drop_first());
    assert(b.drop_first() =~= game_id);
    assert(image[0] == 'u' && a[0] == 'l' && b[0] == '.');
    assert(encode_utf8(image) == encode_scalar('u' as u32) + encode_utf8(a));
    assert(encode_utf8(a) == encode_scalar('l' as u32) + encode_utf8(b));
    assert(encode_utf8(b) == encode_scalar('.' as u32) + encode_utf8(game_id));
}

/// In a file whose fields hold UTF-8 every entry has a name and an id that are plain texts; the
/// name fits its field, and a record can hold the entry where the id has at most twelve bytes.
pub proof fn law_text_list_reads_plain(data: Seq<u8>)
    requires
        is_text_list(data),
    ensures
        forall|i: int|
            0 <= i < parsed(data).len() ==> is_plain(#[trigger] parsed(data)[i]) && name_fits(
                parsed(data)[i].title,
            ) && (encode_utf8(parsed(data)[i].game_id).len() <= 12 ==> storable(parsed(data)[i])),
    decreases data.len(),
{
    if data.len() >= ENTRY_SIZE {
        let record = data.take(ENTRY_SIZE as int);
        let image = record.subrange(IMAGE_OFFSET as int, IMAGE_OFFSET + IMAGE_SIZE);
        let e = record_entry(record);
        let all = parsed(data);
        let rest = parsed(data.skip(ENTRY_SIZE as int));
        lemma_text_field_is_plain(record.subrange(0, NAME_SIZE as int));
        lemma_text_field_is_plain(image);
        lemma_id_is_plain(field_text(image));
        law_image_bytes(e.game_id);
        law_text_list_reads_plain(data.skip(ENTRY_SIZE as int));
        assert forall|i: int| 0 <= i < all.len() implies is_plain(#[trigger] all[i]) && name_fits(
            all[i].title,
        ) && (encode_utf8(all[i].game_id).len() <= 12 ==> storable(all[i])) by {
            if e.title.len() == 0 {
                assert(all[i] == rest[i]);
            } else if i > 0 {
                assert(all[i] == rest[i - 1]);
            } else {
                assert(all[0] == e);
            }
        }
    }
}

/// A written file is a whole number of records, one for each entry.
pub proof fn law_file_size(entries: Seq<EntryView>)
    ensures
        serialized(entries).len() == entries.len() * ENTRY_SIZE,
    decreases entries.len(),
{
    if entries.len() > 0 {
        law_file_size(entries.drop_first());
    }
}

/// A written file that has entries is recognised as being in the 64-byte format.
pub proof fn law_written_format(entries: Seq<EntryView>)
    requires
        entries.len() > 0,
    ensures
        has_real_format(serialized(entries)),
{
    law_file_size(entries);
    assert(serialized(entries)[MAGIC_OFFSET as int] == encoded(entries[0])[MAGIC_OFFSET as int]);
}

/// After adding an entry, the first entry with its game id has its name, chunk count and media
/// type, and no other entry has changed.
pub proof fn law_add(entries: Seq<EntryView>, entry: EntryView)
    ensures
        ({
            let after = with_entry(entries, entry);
            let k = first_with_id(after, entry.game_id);
            &&& k == first_with_id(entries, entry.game_id)
            &&& k < after.len()
            &&& after[k].game_id == entry.game_id
            &&& after[k].title == entry.title
            &&& after[k].parts == entry.parts
            &&& after[k].media == entry.media
            &&& after.len() == (if lists_id(entries, entry.game_id) {
                entries.len()
            } else {
                entries.len() + 1
            })
            &&& forall|i: int|
                0 <= i < entries.len() && i != k ==> #[trigger] after[i] == entries[i]
        }),
{
    let after = with_entry(entries, entry);
    let k = first_with_id(entries, entry.game_id);
    lemma_first_with_id(entries, entry.game_id);
    lemma_first_with_id(after, entry.game_id);
    let m = first_with_id(after, entry.game_id);
    assert(after[k].game_id == entry.game_id);
    if m < k {
        assert(after[m] == entries[m]);
    }
    if lists_id(entries, entry.game_id) {
        let i = choose|i: int|
            0 <= i < entries.len() && #[trigger] entries[i].game_id == entry.game_id;
        assert(i >= k);
    } else if k < entries.len() {
        assert(entries[k].game_id == entry.game_id);
    }
}

/// After removing a game id, no entry has it, and every entry that had another is kept.
pub proof fn law_remove(entries: Seq<EntryView>, game_id: Seq<char>)
    ensures
        !lists_id(without_id(entries, game_id), game_id),
        forall|i: int|
            0 <= i < entries.len() && (#[trigger] entries[i]).game_id != game_id ==> without_id(
                entries,
                game_id,
            ).contains(entries[i]),
        forall|j: int|
            0 <= j < without_id(entries, game_id).len() ==> entries.contains(
                #[trigger] without_id(entries, game_id)[j],
            ),
    decreases entries.len(),
{
    if entries.len() > 0 {
        let rest = entries.drop_last();
        let kept = without_id(rest, game_id);
        let after = without_id(entries, game_id);
        law_remove(rest, game_id);
        assert forall|j: int| 0 <= j < after.len() implies (#[trigger] after[j]).game_id != game_id
            && entries.contains(after[j]) by {
            if j < kept.len() {
                assert(after[j] == kept[j]);
                assert(rest.contains(kept[j]));
                let i = choose|i: int| 0 <= i < rest.len() && rest[i] == kept[j];
                assert(entries[i] == kept[j]);
            } else {
                assert(entries[entries.len() - 1] == after[j]);
            }
        }
        assert forall|i: int|
            0 <= i < entries.len() && (#[trigger] entries[i]).game_id != game_id implies
            after.contains(entries[i]) by {
            if i < rest.len() {
                assert(rest[i] == entries[i]);
                let j = choose|j: int| 0 <= j < kept.len() && kept[j] == rest[i];
                assert(after[j] == entries[i]);
            } else {
                assert(after[after.len() - 1] == entries[i]);
            }
        }
    }
}

/// Adding an entry to a list and then removing its game id gives what removing it from the list
/// gives.
pub proof fn law_add_then_remove(entries: Seq<EntryView>, entry: EntryView)
    ensures
        without_id(with_entry(entries, entry), entry.game_id) == without_id(entries, entry.game_id),
{
    let k = first_with_id(entries, entry.game_id);
    let after = with_entry(entries, entry);
    lemma_first_with_id(entries, entry.game_id);
    if k < entries.len() {
        lemma_remove_same(entries, after, entry.game_id);
    } else {
        assert(after.drop_last() =~= entries);
    }
}

/// An entry that a record can hold leaves a list such when it is added.
proof fn lemma_added_is_storable(entries: Seq<EntryView>, entry: EntryView)
    requires
        storable(entry),
        forall|i: int| 0 <= i < entries.len() ==> storable(#[trigger] entries[i]),
    ensures
        forall|i: int|
            0 <= i < with_entry(entries, entry).len() ==> storable(
                #[trigger] with_entry(entries, entry)[i],
            ),
{
    let list = with_entry(entries, entry);
    let k = first_with_id(entries, entry.game_id);
    law_add(entries, entry);
    lemma_first_with_id(entries, entry.game_id);
    assert forall|i: int| 0 <= i < list.len() implies storable(#[trigger] list[i]) by {
        if i != k {
            assert(list[i] == entries[i]);
        }
    }
}

/// A game that has been added to a file is read back from it, where records can hold the names
/// and ids of all its entries.
pub proof fn law_added_game_reads_back(data: Seq<u8>, entry: EntryView)
    requires
        storable(entry),
        forall|i: int| 0 <= i < parsed(data).len() ==> storable(#[trigger] parsed(data)[i]),
    ensures
        ({
            let before = parsed(data);
            let after = parsed(serialized(with_entry(before, entry)));
            let k = first_with_id(before, entry.game_id);
            &&& k < after.len()
            &&& after[k] == as_stored(entry)
            &&& forall|i: int|
                0 <= i < before.len() && i != k ==> #[trigger] after[i] == as_stored(before[i])
        }),
{
    let before = parsed(data);
    let list = with_entry(before, entry);
    let k = first_with_id(before, entry.game_id);
    law_add(before, entry);
    lemma_first_with_id(before, entry.game_id);
    lemma_added_is_storable(before, entry);
    law_file_round_trip(list);
    let after = all_stored(list);
    assert(after[k] =~= as_stored(entry));
    assert forall|i: int| 0 <= i < before.len() && i != k implies #[trigger] after[i] == as_stored(
        before[i],
    ) by {
        assert(list[i] == before[i]);
    }
}

/// A game that has been removed from a file is not read back from it, where records can hold the
/// names and ids of all its entries.
pub proof fn law_removed_game_is_gone(data: Seq<u8>, game_id: Seq<char>)
    requires
        forall|i: int| 0 <= i < parsed(data).len() ==> storable(#[trigger] parsed(data)[i]),
    ensures
        !lists_id(parsed(serialized(without_id(parsed(data), game_id))), game_id),
{
    let before = parsed(data);
    let list = without_id(before, game_id);
    law_remove(before, game_id);
    assert forall|i: int| 0 <= i < list.len() implies storable(#[trigger] list[i]) by {
        assert(before.contains(list[i]));
    }
    law_file_round_trip(list);
    let after = all_stored(list);
    if lists_id(after, game_id) {
        let i = choose|i: int| 0 <= i < after.len() && #[trigger] after[i].game_id == game_id;
        assert(list[i].game_id == game_id);
    }
}

/// Entries that are to be removed do not matter.
proof fn lemma_remove_same(a: Seq<EntryView>, b: Seq<EntryView>, game_id: Seq<char>)
    requires
        a.len() == b.len(),
        forall|i: int|
            0 <= i < a.len() ==> #[trigger] a[i] == b[i] || (a[i].game_id == game_id
                && b[i].game_id == game_id),
    ensures
        without_id(a, game_id) == without_id(b, game_id),
    decreases a.len(),
{
    if a.len() > 0 {
        assert(a.last() == a[a.len() - 1]);
        lemma_remove_same(a.drop_last(), b.drop_last(), game_id);
    }
}

/// The number of parts of an entry that was read is that of a byte.
pub(crate) proof fn lemma_parts_fit_a_byte(data: Seq<u8>, i: int)
    requires
        0 <= i < parsed(data).len(),
    ensures
        parsed(data)[i].parts <= 255,
    decreases data.len(),
{
    let entry = record_entry(data.take(ENTRY_SIZE as int));
    let rest = data.skip(ENTRY_SIZE as int);
    if entry.title.len() == 0 {
        lemma_parts_fit_a_byte(rest, i);
    } else if i > 0 {
        lemma_parts_fit_a_byte(rest, i - 1);
    }
}

/// A record has the name in its first 32 bytes, `ul.` and the game id in the next 15, then the
/// number of parts and the media type; the marker stands in byte 53, and every other byte is zero.
pub proof fn law_record_layout(e: EntryView, i: int)
    requires
        0 <= i < 64,
    ensures
        encoded(e).len() == 64,
        i < 32 && i < encode_utf8(e.title).len() ==> encoded(e)[i] == encode_utf8(e.title)[i],
        encode_utf8(e.title).len() <= i < 32 ==> encoded(e)[i] == 0,
        i < 15 && i < encode_utf8("ul."@ + e.game_id).len() ==> encoded(e)[32 + i] == encode_utf8(
            "ul."@ + e.game_id,
        )[i],
        encode_utf8("ul."@ + e.game_id).len() <= i < 15 ==> encoded(e)[32 + i] == 0,
        e.parts <= 255 ==> encoded(e)[47] == e.parts,
        e.parts > 255 ==> encoded(e)[47] == 255,
        e.media == 0x12 ==> encoded(e)[48] == 0x12,
        e.media != 0x12 ==> encoded(e)[48] == 0x14,
        encoded(e)[53] == 0x08,
        48 < i && i != 53 ==> encoded(e)[i] == 0,
{
    let (name, image) = (
        text_field(encode_utf8(e.title), NAME_SIZE as nat),
        text_field(image_bytes(e.game_id), IMAGE_SIZE as nat),
    );
    if i < 32 {
        assert(encoded(e)[i] == name[i]);
    }
    if i < 15 {
        assert(encoded(e)[32 + i] == image[i]);
    }
}

/// The text of a field ends before the first null byte, and spaces at its end do not belong to it.
pub proof fn law_field_text(text: Seq<char>, spaces: Seq<char>, rest: Seq<u8>)
    requires
        forall|i: int| 0 <= i < text.len() ==> #[trigger] text[i] != '\0',
        text.len() > 0 ==> text.last() != ' ',
        forall|i: int| 0 <= i < spaces.len() ==> #[trigger] spaces[i] == ' ',
        rest.len() > 0 ==> rest[0] == 0,
    ensures
        field_text(encode_utf8(text + spaces) + rest) == text,
{
    let whole = text + spaces;
    let bytes = encode_utf8(whole);
    let n = bytes.len() as int;
    assert forall|i: int| 0 <= i < whole.len() implies whole[i] != '\0' by {
        if i < text.len() {
            assert(whole[i] == text[i]);
        } else {
            assert(whole[i] == spaces[i - text.len()]);
        }
    }
    lemma_text_no_null(whole);
    let field = bytes + rest;
    assert forall|i: int| 0 <= i < n implies field[i] != 0 by {
        assert(field[i] == bytes[i]);
    }
    lemma_first_of_unique(field, 0u8, n);
    assert(field.take(n) =~= bytes);
    encode_utf8_valid_utf8(whole);
    encode_utf8_decode_utf8(whole);
    law_trim_end_char(text, spaces, ' ');
}

/// A record is read from the same places: the name, the image, the number of parts and the media
/// type.
pub proof fn law_record_reading(record: Seq<u8>)
    requires
        record.len() == 64,
    ensures
        record_entry(record).title == field_text(record.subrange(0, 32)),
        record_entry(record).game_id == id_in_image(field_text(record.subrange(32, 47))),
        record_entry(record).parts == record[47],
        record_entry(record).media == record[48],
        record_entry(record).mount_point.len() == 0,
{
}

/// The game id in an image field is what follows `ul.`, or all of it.
pub proof fn law_id_in_image(id: Seq<char>)
    ensures
        id_in_image("ul."@ + id) == id,
        id.len() < 3 || id[0] != 'u' || id[1] != 'l' || id[2] != '.' ==> id_in_image(id) == id,
{
    reveal_strlit("ul.");
    law_prefix_and_suffix(id, "ul."@, id);
    assert(("ul."@ + id).skip(3) =~= id);
    if starts_with(id, "ul."@) {
        let rest = id.skip(3);
        assert(id == "ul."@ + rest);
    }
}

/// A list is read record by record: one that has a name is an entry, one that has none is passed
/// over, and what is left at the end is no record.
pub proof fn law_list_reading(record: Seq<u8>, rest: Seq<u8>)
    ensures
        record.len() == 64 && record_entry(record).title.len() > 0 ==> parsed(record + rest)
            == seq![record_entry(record)] + parsed(rest),
        record.len() == 64 && record_entry(record).title.len() == 0 ==> parsed(record + rest)
            == parsed(rest),
        rest.len() < 64 ==> parsed(rest).len() == 0,
{
    if record.len() == 64 {
        assert((record + rest).take(64) =~= record);
        assert((record + rest).skip(64) =~= rest);
    }
}

/// A list is written entry by entry, in its order.
pub proof fn law_list_writing(a: Seq<EntryView>, b: Seq<EntryView>, entry: EntryView)
    ensures
        serialized(a + b) == serialized(a) + serialized(b),
        serialized(seq![entry]) == encoded(entry),
        serialized(Seq::empty()).len() == 0,
    decreases a.len(),
{
    if a.len() == 0 {
        assert(a + b =~= b);
        assert(serialized(a) + serialized(b) =~= serialized(b));
        reveal_with_fuel(serialized, 2);
        assert(seq![entry].drop_first() =~= Seq::empty());
        assert(serialized(seq![entry]) =~= encoded(entry));
    } else {
        assert((a + b).drop_first() =~= a.drop_first() + b);
        law_list_writing(a.drop_first(), b, entry);
        assert(serialized(a + b) =~= serialized(a) + serialized(b));
    }
}

/// Removing a game takes its entries out of each part of the list, and leaves every other where it
/// is.
pub proof fn law_without_id(
    a: Seq<EntryView>,
    b: Seq<EntryView>,
    entry: EntryView,
    game_id: Seq<char>,
)
    ensures
        without_id(a + b, game_id) == without_id(a, game_id) + without_id(b, game_id),
        entry.game_id == game_id ==> without_id(seq![entry], game_id).len() == 0,
        entry.game_id != game_id ==> without_id(seq![entry], game_id) == seq![entry],
        without_id(Seq::empty(), game_id).len() == 0,
    decreases b.len(),
{
    if b.len() == 0 {
        assert(a + b =~= a);
        assert(without_id(a, game_id) + without_id(b, game_id) =~= without_id(a, game_id));
        reveal_with_fuel(without_id, 2);
        assert(seq![entry].drop_last() =~= Seq::empty() && seq![entry].last() == entry);
        if entry.game_id != game_id {
            assert(without_id(seq![entry], game_id) =~= seq![entry]);
        }
    } else {
        assert((a + b).drop_last() =~= a + b.drop_last());
        assert((a + b).last() == b.last());
        law_without_id(a, b.drop_last(), entry, game_id);
        assert(without_id(a + b, game_id) =~= without_id(a, game_id) + without_id(b, game_id));
    }
}

/// An added entry takes the place of the first entry of its game, and keeps the mount point of
/// that; where there is none it comes last, as it is.
pub proof fn law_place_of_added(
    a: Seq<EntryView>,
    there: EntryView,
    b: Seq<EntryView>,
    entry: EntryView,
)
    requires
        forall|i: int| 0 <= i < a.len() ==> (#[trigger] a[i]).game_id != entry.game_id,
    ensures
        with_entry(a, entry) == a.push(entry),
        there.game_id == entry.game_id ==> with_entry(a.push(there) + b, entry) == a.push(
            (EntryView { mount_point: there.mount_point, ..entry }),
        ) + b,
{
    let list = a.push(there) + b;
    lemma_first_with_id(a, entry.game_id);
    lemma_first_with_id(list, entry.game_id);
    let n = a.len() as int;
    if there.game_id == entry.game_id {
        assert(list[n] == there);
        let k = first_with_id(list, entry.game_id);
        if k < n {
            assert(list[k] == a[k]);
        }
        let new = EntryView { mount_point: there.mount_point, ..entry };
        assert(with_entry(list, entry) =~= a.push(new) + b);
    }
}

/// The name of a game in the name of its file: what follows the first ` - `, or all of it, without
/// `.iso` or `.bin` at its end.
pub proof fn law_title_in_filename(id: Seq<char>, title: Seq<char>, stem: Seq<char>)
    requires
        forall|x: Seq<char>, y: Seq<char>|
            id + " - "@ + title == #[trigger] (x + " - "@ + y) ==> id.len() <= x.len(),
        !contains_text(stem, " - "@),
    ensures
        title_in_filename(id + " - "@ + title + ".iso"@) == title,
        title_in_filename(id + " - "@ + title + ".bin"@) == title,
        title_in_filename(stem + ".iso"@) == stem,
        title_in_filename(stem + ".bin"@) == stem,
        !ends_with(stem, ".iso"@) && !ends_with(stem, ".bin"@) ==> title_in_filename(stem) == stem,
        ({
            let whole = id + " - "@ + title;
            !ends_with(whole, ".iso"@) && !ends_with(whole, ".bin"@) ==> title_in_filename(whole)
                == title
        }),
{
    let whole = id + " - "@ + title;
    reveal_strlit(".iso");
    reveal_strlit(".bin");
    reveal_strlit(" - ");
    lemma_stem(whole);
    lemma_stem(stem);
    law_find_text(whole, " - "@, id, title);
    let at = find_text(whole, " - "@)->0;
    assert(whole == whole.take(at) + " - "@ + whole.skip(at + " - "@.len()));
    assert(at == id.len());
    assert(whole.skip(at + 3) =~= title);
    lemma_find_from(stem, " - "@, 0);
    if find_text(stem, " - "@) is Some {
        let i = find_text(stem, " - "@)->0;
        assert(crate::text::occurs_at(stem, " - "@, i));
    }
}

/// The two endings are taken off.
proof fn lemma_stem(stem: Seq<char>)
    ensures
        file_stem(stem + ".iso"@) == stem,
        file_stem(stem + ".bin"@) == stem,
{
    reveal_strlit(".iso");
    reveal_strlit(".bin");
    law_prefix_and_suffix(stem, ".iso"@, stem);
    law_prefix_and_suffix(stem, ".bin"@, stem);
    let (a, b) = (stem + ".iso"@, stem + ".bin"@);
    assert(a.take(a.len() - 4) =~= stem);
    assert(b.take(b.len() - 4) =~= stem);
}

/// What trimming takes off is all of one kind.
proof fn lemma_trimmed_tail(s: Seq<char>, x: char, i: int)
    requires
        trim_end_char(s, x).len() <= i < s.len(),
    ensures
        s[i] == x,
    decreases s.len(),
{
    if s.len() > 0 && s.last() == x && i < s.len() - 1 {
        lemma_trimmed_tail(s.drop_last(), x, i);
    }
}

/// A beginning of what fits is not longer than what [`fitting`] takes.
proof fn lemma_fitting_is_longest(s: Seq<char>, room: nat, m: int)
    requires
        0 <= m <= s.len(),
        encode_utf8(s.take(m)).len() <= room,
    ensures
        m <= fitting(s, room),
{
    law_cut_is_longest(s, room);
    let n = fitting(s, room);
    if m > n {
        lemma_prefix_bytes(s.take(m), n + 1);
        assert(s.take(m).take(n + 1) =~= s.take(n + 1));
    }
}

/// A name that is too long for a record is cut to its longest beginning that a record gives back:
/// one of at most 32 bytes, without a null character, that does not end in a space.
pub proof fn law_shortened_is_longest(title: Seq<char>, m: int)
    ensures
        shortened(title).len() <= title.len(),
        shortened(title) == title.take(shortened(title).len() as int),
        encode_utf8(shortened(title)).len() <= 32,
        !shortened(title).contains('\0'),
        shortened(title).len() > 0 ==> shortened(title).last() != ' ',
        0 <= m <= title.len() && encode_utf8(title.take(m)).len() <= 32 && !title.take(m).contains(
            '\0',
        ) && (m > 0 ==> title[m - 1] != ' ') ==> m <= shortened(title).len(),
{
    let end = first_of(title, '\0');
    let name = title.take(end);
    let n = fitting(name, NAME_SIZE as nat);
    let cut = name.take(n);
    let t = shortened(title);
    law_shortened_name_fits(title);
    lemma_first_of(title, '\0');
    law_cut_is_longest(name, NAME_SIZE as nat);
    lemma_trim_end_char(cut, ' ');
    assert(t =~= title.take(t.len() as int));
    if 0 <= m <= title.len() && encode_utf8(title.take(m)).len() <= 32 && !title.take(m).contains(
        '\0',
    ) && (m > 0 ==> title[m - 1] != ' ') {
        if m > end {
            assert(title.take(m)[end] == '\0');
        }
        assert(name.take(m) =~= title.take(m));
        lemma_fitting_is_longest(name, NAME_SIZE as nat, m);
        if m > t.len() {
            lemma_trimmed_tail(cut, ' ', m - 1);
            assert(cut[m - 1] == title[m - 1]);
        }
    }
}

/// What a record gives back of an entry: its name and id, at most 255 parts, the media type of a
/// CD where it is one and of a DVD otherwise, and no mount point.
pub proof fn law_as_stored(e: EntryView)
    ensures
        as_stored(e).title == e.title,
        as_stored(e).game_id == e.game_id,
        e.parts <= 255 ==> as_stored(e).parts == e.parts,
        e.parts > 255 ==> as_stored(e).parts == 255,
        e.media == 0x12 ==> as_stored(e).media == 0x12,
        e.media != 0x12 ==> as_stored(e).media == 0x14,
        as_stored(e).mount_point.len() == 0,
{
}

/// A file is in the 64-byte format where it has whole records, at least one, and the marker in the
/// first.
pub proof fn law_real_format(data: Seq<u8>)
    ensures
        has_real_format(data) <==> data.len() > 0 && data.len() % 64 == 0 && data[53] == 0x08,
{
}

/// A name is put behind a directory with one separator between them, on Windows a backslash; none
/// where the directory ends in one, is empty, or is a bare drive.
pub proof fn law_path_in(dir: Seq<char>, name: Seq<char>, last: char, letter: char)
    ensures
        path_in(Seq::empty(), name, PathStyle::Unix) == name,
        path_in(dir.push('/'), name, PathStyle::Unix) == dir + "/"@ + name,
        last != '/' ==> path_in(dir.push(last), name, PathStyle::Unix) == dir.push(last) + "/"@
            + name,
        !starts_with(dir.push('/'), "\\\\?\\"@) ==> path_in(
            dir.push('/'),
            name,
            PathStyle::Windows,
        ) == dir.push('/') + name,
        !starts_with(dir.push('\\'), "\\\\?\\"@) ==> path_in(
            dir.push('\\'),
            name,
            PathStyle::Windows,
        ) == dir.push('\\') + name,
        'a' <= letter <= 'z' || 'A' <= letter <= 'Z' ==> path_in(
            seq![letter, ':'],
            name,
            PathStyle::Windows,
        ) == seq![letter, ':'] + name,
        last != '/' && last != '\\' && dir.len() != 1 && !starts_with(
            dir.push(last),
            "\\\\?\\"@,
        ) ==> path_in(dir.push(last), name, PathStyle::Windows) == dir.push(last) + "\\"@ + name,
{
    reveal_strlit("/");
    reveal_strlit("\\");
    reveal_strlit("\\\\?\\");
    assert(path_in(Seq::empty(), name, PathStyle::Unix) =~= name);
    assert(dir.push('/') + name =~= dir + "/"@ + name);
    let drive = seq![letter, ':'];
    if 'a' <= letter <= 'z' || 'A' <= letter <= 'Z' {
        assert(!starts_with(drive, "\\\\?\\"@));
        assert(is_bare_drive(drive));
    }
}

/// Runs of backslashes become one, and nothing else changes.
pub proof fn law_squeezed(a: Seq<char>, b: Seq<char>, i: int)
    ensures
        squeezed(a + seq!['\\', '\\'] + b) == squeezed(a + seq!['\\'] + b),
        0 <= i < squeezed(a).len() - 1 ==> squeezed(a)[i] != '\\' || squeezed(a)[i + 1] != '\\',
        (forall|k: int| 0 <= k < a.len() - 1 ==> #[trigger] a[k] != '\\' || a[k + 1] != '\\')
            ==> squeezed(a) == a,
{
    lemma_squeezed_run(a, b);
    lemma_squeezed_apart(a, i);
    if forall|k: int| 0 <= k < a.len() - 1 ==> #[trigger] a[k] != '\\' || a[k + 1] != '\\' {
        lemma_squeezed_same(a);
    }
}

/// A doubled backslash counts as one.
proof fn lemma_squeezed_run(a: Seq<char>, b: Seq<char>)
    ensures
        squeezed(a + seq!['\\', '\\'] + b) == squeezed(a + seq!['\\'] + b),
    decreases b.len(),
{
    let (two, one) = (a + seq!['\\', '\\'] + b, a + seq!['\\'] + b);
    if b.len() == 0 {
        assert(two.drop_last() =~= one);
    } else {
        lemma_squeezed_run(a, b.drop_last());
        assert(two.drop_last() =~= a + seq!['\\', '\\'] + b.drop_last());
        assert(one.drop_last() =~= a + seq!['\\'] + b.drop_last());
        assert(two.last() == one.last());
        assert(two[two.len() - 2] == one[one.len() - 2]);
    }
}

/// No two backslashes are left side by side.
proof fn lemma_squeezed_apart(s: Seq<char>, i: int)
    ensures
        0 <= i < squeezed(s).len() - 1 ==> squeezed(s)[i] != '\\' || squeezed(s)[i + 1] != '\\',
        s.len() > 0 ==> squeezed(s).len() > 0 && squeezed(s).last() == s.last(),
    decreases s.len(),
{
    if s.len() > 0 {
        lemma_squeezed_apart(s.drop_last(), i);
    }
}

/// A text without doubled backslashes stays as it is.
proof fn lemma_squeezed_same(s: Seq<char>)
    requires
        forall|k: int| 0 <= k < s.len() - 1 ==> #[trigger] s[k] != '\\' || s[k + 1] != '\\',
    ensures
        squeezed(s) == s,
    decreases s.len(),
{
    if s.len() > 0 {
        let rest = s.drop_last();
        assert forall|k: int| 0 <= k < rest.len() - 1 implies #[trigger] rest[k] != '\\' || rest[k
            + 1] != '\\' by {
            assert(rest[k] == s[k] && rest[k + 1] == s[k + 1]);
        }
        lemma_squeezed_same(rest);
        if s.len() > 1 {
            assert(s[s.len() - 2] != '\\' || s[s.len() - 2 + 1] != '\\');
        }
        assert(rest.push(s.last()) =~= s);
    }
}

/// A verbatim path on Windows is taken apart at its backslashes and put together again with one
/// between its parts and one before the name.
pub proof fn law_verbatim_path(rest: Seq<char>, run: Seq<char>, name: Seq<char>)
    requires
        rest.len() > 0 ==> rest.last() != '\\',
        forall|i: int| 0 <= i < run.len() ==> #[trigger] run[i] == '\\',
    ensures
        path_in("\\\\?\\"@ + rest + run, name, PathStyle::Windows) == "\\\\?\\"@
            + squeezed(rest) + "\\"@ + name,
{
    reveal_strlit("\\\\?\\");
    let dir = "\\\\?\\"@ + rest + run;
    law_prefix_and_suffix(dir, "\\\\?\\"@, rest + run);
    assert(dir =~= "\\\\?\\"@ + (rest + run));
    assert(dir.take(4) =~= "\\\\?\\"@);
    assert(dir.skip(4) =~= rest + run);
    law_trim_end_char(rest, run, '\\');
}

/// The model of a [`UlEntry`] has all that it holds, and that of a list has every item at its
/// place.
pub proof fn law_model_of_ul_entry(entry: UlEntry, list: Seq<UlEntry>, i: int)
    ensures
        entry@.title == entry.title@,
        entry@.game_id == entry.game_id@,
        entry@.parts == entry.parts,
        entry@.media == entry.media,
        entry@.mount_point == entry.mount_point@,
        entry_views(list).len() == list.len(),
        0 <= i < list.len() ==> entry_views(list)[i] == list[i]@,
{
}

/// Every path can be joined with a name but a verbatim one on Windows that has a slash in it or
/// names nothing.
pub proof fn law_joinable(path: Seq<char>, rest: Seq<char>)
    ensures
        is_joinable(path, PathStyle::Unix),
        !starts_with(path, "\\\\?\\"@) ==> is_joinable(path, PathStyle::Windows),
        !is_joinable("\\\\?\\"@, PathStyle::Windows),
        rest.contains('/') ==> !is_joinable("\\\\?\\"@ + rest, PathStyle::Windows),
        rest.len() > 0 && rest[0] == '\\' ==> !is_joinable(
            "\\\\?\\"@ + rest,
            PathStyle::Windows,
        ),
        !rest.contains('/') && rest.len() > 0 && rest[0] != '\\' && !starts_with(rest, "UNC\\"@)
            ==> is_joinable("\\\\?\\"@ + rest, PathStyle::Windows),
{
    reveal_strlit("\\\\?\\");
    let none = Seq::<char>::empty();
    let dir = "\\\\?\\"@ + rest;
    law_prefix_and_suffix(dir, "\\\\?\\"@, rest);
    law_prefix_and_suffix(dir, "\\\\?\\"@, none);
    assert("\\\\?\\"@ + none =~= "\\\\?\\"@);
    assert(dir.skip(4) =~= rest);
    assert("\\\\?\\"@.skip(4) =~= none);
    if rest.contains('/') {
        let i = choose|i: int| 0 <= i < rest.len() && rest[i] == '/';
        assert(dir[i + 4] == '/');
    }
    if dir.contains('/') {
        let i = choose|i: int| 0 <= i < dir.len() && dir[i] == '/';
        assert(rest[i - 4] == '/');
    }
}

/// An entry is stored whole where its name is not empty and has at most 32 bytes, its id has at
/// most twelve, and neither has a null character or ends in a space.
pub proof fn law_storable(e: EntryView)
    ensures
        storable(e) <==> e.title.len() > 0 && encode_utf8(e.title).len() <= 32 && !e.title.contains(
            '\0',
        ) && e.title.last() != ' ' && encode_utf8(e.game_id).len() <= 12 && !e.game_id.contains(
            '\0',
        ) && (e.game_id.len() > 0 ==> e.game_id.last() != ' '),
{
    law_image_bytes(e.game_id);
    if plain_text(e.title) && e.title.contains('\0') {
        let i = choose|i: int| 0 <= i < e.title.len() && e.title[i] == '\0';
        assert(e.title[i] != '\0');
    }
    if plain_text(e.game_id) && e.game_id.contains('\0') {
        let i = choose|i: int| 0 <= i < e.game_id.len() && e.game_id[i] == '\0';
        assert(e.game_id[i] != '\0');
    }
    if !e.title.contains('\0') {
        assert forall|i: int| 0 <= i < e.title.len() implies e.title[i] != '\0' by {
            assert(e.title.contains(e.title[i]));
        }
    }
    if !e.game_id.contains('\0') {
        assert forall|i: int| 0 <= i < e.game_id.len() implies e.game_id[i] != '\0' by {
            assert(e.game_id.contains(e.game_id[i]));
        }
    }
}

/// Two characters on Windows are a bare drive only where they are a letter and a colon.
pub proof fn law_no_bare_drive(first: char, last: char, name: Seq<char>)
    ensures
        path_in(Seq::empty(), name, PathStyle::Windows) == name,
        last != '/' && last != '\\' && (last != ':' || !('a' <= first <= 'z' || 'A' <= first
            <= 'Z')) ==> path_in(seq![first, last], name, PathStyle::Windows) == seq![first, last]
            + "\\"@ + name,
{
    reveal_strlit("\\\\?\\");
    let none = Seq::<char>::empty();
    assert(!starts_with(none, "\\\\?\\"@));
    assert(!starts_with(seq![first, last], "\\\\?\\"@));
    assert(none + name =~= name);
}

/// A verbatim path to a share can be joined where it names a server.
pub proof fn law_joinable_share(rest: Seq<char>)
    requires
        !rest.contains('/'),
    ensures
        is_joinable("\\\\?\\UNC\\"@ + rest, PathStyle::Windows) <==> rest.len() > 0 && rest[0]
            != '\\',
{
    reveal_strlit("\\\\?\\");
    reveal_strlit("\\\\?\\UNC\\");
    reveal_strlit("UNC\\");
    let dir = "\\\\?\\UNC\\"@ + rest;
    let share = "UNC\\"@ + rest;
    assert(dir =~= "\\\\?\\"@ + share);
    law_prefix_and_suffix(dir, "\\\\?\\"@, share);
    law_prefix_and_suffix(share, "UNC\\"@, rest);
    assert(dir.skip(4) =~= share);
    if dir.contains('/') {
        let i = choose|i: int| 0 <= i < dir.len() && dir[i] == '/';
        if i >= 8 {
            assert(rest[i - 8] == '/');
        }
    }
    if rest.len() > 0 {
        assert(share[4] == rest[0]);
    }
}

} // verus!
