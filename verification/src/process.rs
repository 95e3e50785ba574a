//! Putting a game on a device: how its image is copied, what it is called, and what may keep it
//! from booting.

use crate::filesystem::{FilesystemType, FilesystemView};
use crate::games::chunk_files;
use crate::iso::{
    detect_media_type,
    extract_startup,
    extract_volume_label,
    first_startup,
    has_path,
    label_in_text,
    law_label,
    law_startup_is_found,
    media_type,
};
use crate::opl_crc::{crc32_hex, name_crc_hex};
use crate::split::{
    chunk_views,
    media_dir,
    media_directory,
    split_name,
    ChunkNaming,
    ChunkResult,
    ChunkView,
    SplitResult,
    SplitResultView,
};
use crate::text::{
    contains_text,
    decimal,
    decimal_padded,
    decoded,
    hex_upper,
    is_white_space,
    law_decoded,
    lines,
    same_text,
    texts,
    to_decimal,
    to_decimal_padded,
    to_hex_upper,
};
use crate::ulcfg::{
    encoded,
    extract_title,
    first_with_id,
    id_fits,
    law_add,
    law_name_reads_back,
    law_record_round_trip,
    law_shortened_name_fits,
    law_written_entry_is_read,
    lemma_first_with_id,
    name_fits,
    parsed,
    record_entry,
    serialized,
    shorten_title,
    shortened,
    title_in_filename,
    with_entry,
    EntryView,
    UlEntry,
    IMAGE_OFFSET,
    IMAGE_SIZE,
    MEDIA_CD,
    MEDIA_DVD,
};
use vstd::prelude::*;
use vstd::string::StringExecFns;
use vstd::utf8::{
    char_is_scalar,
    char_u32_cast,
    encode_scalar,
    encode_utf8,
    encode_utf8_first_scalar,
    has_width_1_encoding,
    is_ascii_chars,
    is_ascii_chars_encode_utf8,
};

verus! {

// ---------------------------------------------------------------- how a game is copied

/// Whether a game is split: as the settings say, or else as the file system of the device needs;
/// also where that cannot be found out.
pub open spec fn splits(split_mode: Seq<char>, filesystem: Option<FilesystemView>) -> bool {
    if split_mode == "split"@ {
        true
    } else if split_mode == "nosplit"@ {
        false
    } else {
        match filesystem {
            Some(fs) => fs is Fat32,
            None => true,
        }
    }
}

/// What a file system holds, where there is one.
pub open spec fn filesystem_view(filesystem: Option<FilesystemType>) -> Option<FilesystemView> {
    match filesystem {
        Some(fs) => Some(fs@),
        None => None,
    }
}

/// Whether a game is split.
pub fn use_split(split_mode: &str, filesystem: &Option<FilesystemType>) -> (b: bool)
    ensures
        b == splits(split_mode@, filesystem_view(*filesystem)),
{
    if same_text(split_mode, "split") {
        return true;
    }
    if same_text(split_mode, "nosplit") {
        return false;
    }
    match filesystem {
        Some(fs) => fs.needs_split(),
        None => true,
    }
}

// ---------------------------------------------------------------- what a game is called

/// Whether bytes are ASCII digits from `from` up to `to`.
pub open spec fn all_digits(bytes: Seq<u8>, from: int, to: int) -> bool {
    forall|i: int| from <= i < to ==> 0x30 <= #[trigger] bytes[i] <= 0x39
}

/// Whether a name is only a game id: four capital letters, `_`, three digits, `.`, and nothing
/// but digits after that.
pub open spec fn is_game_id(name: Seq<char>) -> bool {
    let bytes = encode_utf8(name);
    &&& bytes.len() >= 9
    &&& forall|i: int| 0 <= i < 4 ==> 0x41 <= #[trigger] bytes[i] <= 0x5A
    &&& bytes[4] == 0x5F
    &&& all_digits(bytes, 5, 8)
    &&& bytes[8] == 0x2E
    &&& all_digits(bytes, 9, bytes.len() as int)
}

/// Whether bytes are ASCII digits from `from` up to `to`.
fn are_digits(bytes: &[u8], from: usize, to: usize) -> (b: bool)
    requires
        from <= to <= bytes@.len(),
    ensures
        b == all_digits(bytes@, from as int, to as int),
{
    let mut i: usize = from;
    while i < to
        invariant
            from <= i <= to <= bytes@.len(),
            all_digits(bytes@, from as int, i as int),
        decreases to - i,
    {
        if bytes[i] < 0x30 || bytes[i] > 0x39 {
            assert(!(0x30 <= bytes@[i as int] <= 0x39));
            return false;
        }
        i += 1;
    }
    true
}

/// Whether a name is only a game id.
pub fn looks_like_game_id(name: &str) -> (b: bool)
    ensures
        b == is_game_id(name@),
{
    let bytes = name.as_bytes();
    if bytes.len() < 9 {
        return false;
    }
    let mut i: usize = 0;
    while i < 4
        invariant
            i <= 4,
            bytes@ == encode_utf8(name@),
            bytes@.len() >= 9,
            forall|k: int| 0 <= k < i ==> 0x41 <= #[trigger] bytes@[k] <= 0x5A,
        decreases 4 - i,
    {
        if bytes[i] < 0x41 || bytes[i] > 0x5A {
            assert(!(0x41 <= bytes@[i as int] <= 0x5A));
            return false;
        }
        i += 1;
    }
    bytes[4] == 0x5F && are_digits(bytes, 5, 8) && bytes[8] == 0x2E && are_digits(
        bytes,
        9,
        bytes.len(),
    )
}

/// The name of a game: the one in the name of its file, or where that is only a game id, the
/// volume label, unless that is a game id too; cut to fit the game list.
pub open spec fn title_for(file_name: Seq<char>, label: Option<Seq<char>>) -> Seq<char> {
    let title = title_in_filename(file_name);
    shortened(
        if is_game_id(title) {
            match label {
                Some(l) => if l.len() > 0 && !is_game_id(l) {
                    l
                } else {
                    title
                },
                None => title,
            }
        } else {
            title
        },
    )
}

/// The name of a game.
pub fn choose_title(file_name: &str, label: Option<String>) -> (title: String)
    ensures
        title@ == title_for(file_name@, crate::text::optional_text(label)),
{
    let title = extract_title(file_name);
    if looks_like_game_id(title.as_str()) {
        if let Some(l) = label {
            if !l.as_str().is_empty() && !looks_like_game_id(l.as_str()) {
                return shorten_title(l.as_str());
            }
        }
    }
    shorten_title(title.as_str())
}

// ---------------------------------------------------------------- the plan

/// What is known of an image and of where it goes.
pub struct ImageFacts {
    /// The name of its file; empty where it has none.
    pub file_name: String,
    /// Its first bytes, as many as [`crate::iso::search_len`] says, where they can be read.
    pub head: Option<Vec<u8>>,
    /// The bytes of its label field, where they can be read.
    pub label: Option<Vec<u8>>,
    /// Its size, where it can be opened.
    pub size: Option<u64>,
    /// The bytes where a DVD has its UDF mark, where they can be read.
    pub udf: Option<Vec<u8>>,
    /// The file system of the device, where that can be found out.
    pub filesystem: Option<FilesystemType>,
}

/// How a game is put on a device.
#[derive(Debug, Clone)]
pub struct ProcessPlan {
    pub use_split: bool,
    pub game_id: String,
    pub title: String,
    /// The checksum of the name, for the names of the chunks.
    pub crc_hex: String,
    pub media: u8,
}

/// What a [`ProcessPlan`] holds.
#[verifier::ext_equal]
pub struct PlanView {
    pub use_split: bool,
    pub game_id: Seq<char>,
    pub title: Seq<char>,
    pub crc_hex: Seq<char>,
    pub media: u8,
}

impl View for ProcessPlan {
    type V = PlanView;

    open spec fn view(&self) -> PlanView {
        PlanView {
            use_split: self.use_split,
            game_id: self.game_id@,
            title: self.title@,
            crc_hex: self.crc_hex@,
            media: self.media,
        }
    }
}

/// The bytes of a vector, where there is one.
pub open spec fn optional_bytes(bytes: Option<Vec<u8>>) -> Option<Seq<u8>> {
    match bytes {
        Some(b) => Some(b@),
        None => None,
    }
}

/// The startup id in the head of an image, where there is one; else the id given.
pub open spec fn id_for(head: Option<Seq<u8>>, game_id: Seq<char>) -> Seq<char> {
    match head {
        Some(bytes) => match first_startup(lines(decoded(bytes))) {
            Some(id) => id,
            None => game_id,
        },
        None => game_id,
    }
}

/// The volume label in the bytes of the label field.
pub open spec fn label_of(field: Option<Seq<u8>>) -> Option<Seq<char>> {
    match field {
        Some(bytes) => label_in_text(decoded(bytes)),
        None => None,
    }
}

/// How a game is put on a device.
pub open spec fn plan_for(facts: ImageFacts, game_id: Seq<char>, split_mode: Seq<char>) -> PlanView {
    let title = title_for(facts.file_name@, label_of(optional_bytes(facts.label)));
    PlanView {
        use_split: splits(split_mode, filesystem_view(facts.filesystem)),
        game_id: id_for(optional_bytes(facts.head), game_id),
        title,
        crc_hex: name_crc_hex(title),
        media: media_type(facts.size, optional_bytes(facts.udf)),
    }
}

/// How a game is put on a device. `game_id` is taken where the image names no startup id.
pub fn process_iso(facts: &ImageFacts, game_id: &str, split_mode: &str) -> (plan: ProcessPlan)
    ensures
        plan@ == plan_for(*facts, game_id@, split_mode@),
{
    let startup = match &facts.head {
        Some(bytes) => extract_startup(bytes.as_slice()),
        None => None,
    };
    let game_id = match startup {
        Some(id) => id,
        None => game_id.to_owned(),
    };
    let label = match &facts.label {
        Some(bytes) => extract_volume_label(bytes.as_slice()),
        None => None,
    };
    let title = choose_title(facts.file_name.as_str(), label);
    let crc_hex = crc32_hex(title.as_str());
    let media: u8 = match &facts.udf {
        Some(bytes) => detect_media_type(facts.size, Some(bytes.as_slice())),
        None => detect_media_type(facts.size, None),
    };
    ProcessPlan {
        use_split: use_split(split_mode, &facts.filesystem),
        game_id,
        title,
        crc_hex,
        media,
    }
}

/// The entry that a split game gets in the game list.
pub open spec fn entry_of(plan: PlanView, chunks: u16, dest_dir: Seq<char>) -> EntryView {
    EntryView {
        title: plan.title,
        game_id: plan.game_id,
        parts: chunks,
        media: plan.media,
        mount_point: dest_dir,
    }
}

/// The entry that a split game gets in the game list.
pub fn entry_for(plan: &ProcessPlan, chunks: usize, dest_dir: &str) -> (entry: UlEntry)
    requires
        chunks <= u16::MAX,
    ensures
        entry@ == entry_of(plan@, chunks as u16, dest_dir@),
{
    UlEntry {
        title: plan.title.clone(),
        game_id: plan.game_id.clone(),
        parts: chunks as u16,
        media: plan.media,
        mount_point: dest_dir.to_owned(),
    }
}

// ---------------------------------------------------------------- warnings

/// The longest game id that is not warned of.
pub const MAX_GAME_ID: usize = 12;

/// The size below which a last chunk is taken for cut short.
pub const MIN_LAST_CHUNK: u64 = 512;

/// The warning of a game id that is too long for the game list.
pub open spec fn id_warnings(game_id: Seq<char>) -> Seq<Seq<char>> {
    let n = encode_utf8(game_id).len();
    if n > MAX_GAME_ID {
        seq![
            "Game ID \""@ + game_id + "\" is "@ + decimal(n)
                + " chars; only 12 fit in ul.cfg's image field. OPL may not locate chunk files."@,
        ]
    } else {
        seq![]
    }
}

/// The warning of a media type that is neither of a CD nor of a DVD.
pub open spec fn media_warnings(media: u8) -> Seq<Seq<char>> {
    if media != MEDIA_CD && media != MEDIA_DVD {
        seq![
            "Unrecognised media type 0x"@ + hex_upper(media as nat, 2)
                + " (expected 0x12=CD or 0x14=DVD). Game may boot with wrong sector addressing."@,
        ]
    } else {
        seq![]
    }
}

/// The warnings of one chunk: that it did not verify, and that it is empty.
pub open spec fn warnings_of_chunk(chunk: ChunkView) -> Seq<Seq<char>> {
    let index = decimal_padded(chunk.index as nat, 2);
    (if chunk.verified {
        seq![]
    } else {
        seq![
            "Chunk "@ + index
                + " failed checksum verification — copy may be corrupt. Delete and re-copy the game."@,
        ]
    }) + (if chunk.size == 0 {
        seq!["Chunk "@ + index + " has zero size — source ISO may be truncated."@]
    } else {
        seq![]
    })
}

/// The warnings of all chunks.
pub open spec fn chunk_warnings(chunks: Seq<ChunkView>) -> Seq<Seq<char>>
    decreases chunks.len(),
{
    if chunks.len() == 0 {
        seq![]
    } else {
        chunk_warnings(chunks.drop_last()) + warnings_of_chunk(chunks.last())
    }
}

/// The warning of a last chunk that is very small.
pub open spec fn last_warnings(chunks: Seq<ChunkView>) -> Seq<Seq<char>> {
    if chunks.len() > 0 && 0 < chunks.last().size < MIN_LAST_CHUNK {
        seq![
            "Last chunk is only "@ + decimal(chunks.last().size as nat)
                + " bytes — ISO appears truncated. Obtain a complete ISO and re-copy."@,
        ]
    } else {
        seq![]
    }
}

/// The warning of a whole image that is not where the loader looks for it.
pub open spec fn image_warnings(plan: PlanView, image_found: bool) -> Seq<Seq<char>> {
    if !plan.use_split && !image_found {
        seq![
            "Expected ISO at "@ + media_directory(plan.media) + "/"@ + plan.game_id
                + ".iso but the file was not found. OPL will not see this game."@,
        ]
    } else {
        seq![]
    }
}

/// What may keep a game from booting, although it was copied.
pub open spec fn all_warnings(
    plan: PlanView,
    chunks: Seq<ChunkView>,
    image_found: bool,
) -> Seq<Seq<char>> {
    id_warnings(plan.game_id) + media_warnings(plan.media) + chunk_warnings(chunks)
        + last_warnings(chunks) + image_warnings(plan, image_found)
}

/// Appends a text to a list.
fn push_text(list: &mut Vec<String>, s: String)
    ensures
        texts(final(list)@) == texts(old(list)@) + seq![s@],
{
    list.push(s);
    assert(texts(list@) =~= texts(old(list)@) + seq![s@]);
}

/// Appends the warnings of one chunk.
fn push_chunk_warnings(list: &mut Vec<String>, chunk: &ChunkResult)
    ensures
        texts(final(list)@) == texts(old(list)@) + warnings_of_chunk(chunk@),
{
    let ghost start = texts(list@);
    assert(start + Seq::<Seq<char>>::empty() =~= start);
    let index = to_decimal_padded(chunk.index as u64, 2);
    if !chunk.verified {
        let w = "Chunk ".to_owned().concat(index.as_str()).concat(
            " failed checksum verification — copy may be corrupt. Delete and re-copy the game.",
        );
        push_text(list, w);
    }
    let ghost mid = texts(list@);
    assert(mid + Seq::<Seq<char>>::empty() =~= mid);
    if chunk.size == 0 {
        let w = "Chunk ".to_owned().concat(index.as_str()).concat(
            " has zero size — source ISO may be truncated.",
        );
        push_text(list, w);
    }
    assert(texts(list@) =~= start + warnings_of_chunk(chunk@));
}

/// What may keep a game from booting, although it was copied. `image_found` says of a game that
/// is not split whether its image is where the loader looks for it.
pub fn health_warnings(plan: &ProcessPlan, chunks: &[ChunkResult], image_found: bool) -> (w: Vec<
    String,
>)
    ensures
        texts(w@) == all_warnings(plan@, chunk_views(chunks@), image_found),
{
    let mut w: Vec<String> = Vec::new();
    let ghost all = chunk_views(chunks@);
    assert(texts(w@) =~= seq![]);
    let n: usize = plan.game_id.as_str().as_bytes().len();
    if n > MAX_GAME_ID {
        let text = "Game ID \"".to_owned().concat(plan.game_id.as_str()).concat("\" is ").concat(
            to_decimal(n as u64).as_str(),
        ).concat(
            " chars; only 12 fit in ul.cfg's image field. OPL may not locate chunk files.",
        );
        push_text(&mut w, text);
    }
    assert(texts(w@) =~= id_warnings(plan@.game_id));
    if plan.media != MEDIA_CD && plan.media != MEDIA_DVD {
        let text = "Unrecognised media type 0x".to_owned().concat(
            to_hex_upper(plan.media as u64, 2).as_str(),
        ).concat(
            " (expected 0x12=CD or 0x14=DVD). Game may boot with wrong sector addressing.",
        );
        push_text(&mut w, text);
    }
    let ghost head = id_warnings(plan@.game_id) + media_warnings(plan@.media);
    assert(texts(w@) =~= head);
    let mut i: usize = 0;
    assert(head + chunk_warnings(all.take(0)) =~= head);
    while i < chunks.len()
        invariant
            i <= chunks.len(),
            all == chunk_views(chunks@),
            texts(w@) == head + chunk_warnings(all.take(i as int)),
        decreases chunks.len() - i,
    {
        assert(all.take(i + 1).drop_last() =~= all.take(i as int));
        assert(all.take(i + 1).last() == chunks@[i as int]@);
        push_chunk_warnings(&mut w, &chunks[i]);
        assert(texts(w@) =~= head + chunk_warnings(all.take(i + 1)));
        i += 1;
    }
    assert(all.take(i as int) =~= all);
    if chunks.len() > 0 {
        let last = &chunks[chunks.len() - 1];
        assert(all.last() == last@);
        if last.size > 0 && last.size < MIN_LAST_CHUNK {
            let text = "Last chunk is only ".to_owned().concat(
                to_decimal(last.size).as_str(),
            ).concat(" bytes — ISO appears truncated. Obtain a complete ISO and re-copy.");
            push_text(&mut w, text);
        }
    }
    let ghost body = head + chunk_warnings(all) + last_warnings(all);
    assert(texts(w@) =~= body);
    if !plan.use_split && !image_found {
        let text = "Expected ISO at ".to_owned().concat(media_dir(plan.media)).concat("/").concat(
            plan.game_id.as_str(),
        ).concat(".iso but the file was not found. OPL will not see this game.");
        push_text(&mut w, text);
    }
    assert(texts(w@) =~= body + image_warnings(plan@, image_found));
    w
}

/// The outcome of copying a game, with what may keep it from booting.
pub fn finish_result(result: SplitResult, plan: &ProcessPlan, image_found: bool) -> (r: SplitResult)
    ensures
        r@ == (SplitResultView {
            warnings: all_warnings(plan@, result@.chunks, image_found),
            ..result@
        }),
{
    let warnings = health_warnings(plan, result.chunks.as_slice(), image_found);
    SplitResult {
        success: result.success,
        chunks: result.chunks,
        total_size: result.total_size,
        error: result.error,
        warnings,
    }
}

// ---------------------------------------------------------------- laws

/// A plan has a name that the game list holds whole, and names the chunks after that name.
pub proof fn law_plan_name(facts: ImageFacts, game_id: Seq<char>, split_mode: Seq<char>)
    ensures
        ({
            let plan = plan_for(facts, game_id, split_mode);
            name_fits(plan.title) && plan.crc_hex == name_crc_hex(plan.title)
        }),
{
    let title = title_in_filename(facts.file_name@);
    law_shortened_name_fits(title);
    if let Some(label) = label_of(optional_bytes(facts.label)) {
        law_shortened_name_fits(label);
    }
}

/// Whatever the image, the name that the loader reads in the game list hashes to the checksum
/// that the chunks are named by.
pub proof fn law_listed_name_hashes_to_chunks(
    facts: ImageFacts,
    game_id: Seq<char>,
    split_mode: Seq<char>,
    chunks: u16,
    dest_dir: Seq<char>,
)
    ensures
        ({
            let plan = plan_for(facts, game_id, split_mode);
            let read = record_entry(encoded(entry_of(plan, chunks, dest_dir)));
            name_crc_hex(read.title) == plan.crc_hex
        }),
{
    law_plan_name(facts, game_id, split_mode);
    law_name_reads_back(entry_of(plan_for(facts, game_id, split_mode), chunks, dest_dir));
}

/// Whatever the game list held before, a game that is added to it is listed there under the name
/// that hashes to the checksum of its chunks, unless it has no name.
pub proof fn law_added_game_is_listed(
    facts: ImageFacts,
    game_id: Seq<char>,
    split_mode: Seq<char>,
    chunks: u16,
    dest_dir: Seq<char>,
    data: Seq<u8>,
)
    requires
        plan_for(facts, game_id, split_mode).title.len() > 0,
    ensures
        ({
            let plan = plan_for(facts, game_id, split_mode);
            let entry = entry_of(plan, chunks, dest_dir);
            let after = parsed(serialized(with_entry(parsed(data), entry)));
            exists|i: int|
                0 <= i < after.len() && (#[trigger] after[i]).title == plan.title && name_crc_hex(
                    after[i].title,
                ) == plan.crc_hex && after[i].game_id == record_entry(encoded(entry)).game_id
        }),
{
    let plan = plan_for(facts, game_id, split_mode);
    let entry = entry_of(plan, chunks, dest_dir);
    let list = with_entry(parsed(data), entry);
    let k = first_with_id(list, entry.game_id);
    law_plan_name(facts, game_id, split_mode);
    law_add(parsed(data), entry);
    lemma_first_with_id(list, entry.game_id);
    law_name_reads_back(list[k]);
    let read = record_entry(encoded(list[k]));
    assert(read.game_id == record_entry(encoded(entry)).game_id) by {
        let (a, b) = (encoded(list[k]), encoded(entry));
        assert(a.subrange(IMAGE_OFFSET as int, IMAGE_OFFSET + IMAGE_SIZE) =~= b.subrange(
            IMAGE_OFFSET as int,
            IMAGE_OFFSET + IMAGE_SIZE,
        ));
    }
    law_written_entry_is_read(list, k);
    let after = parsed(serialized(list));
    let i = choose|i: int| 0 <= i < after.len() && after[i] == read;
    assert(after[i].title == plan.title);
}

/// The loader finds the chunks of a game: the names that it makes of the entry as it reads it in
/// the game list are those that the chunks were written under, as long as the name and the id
/// fit the entry.
pub proof fn law_loader_finds_chunks(e: EntryView, idx: int, naming: ChunkNaming)
    requires
        name_fits(e.title),
        id_fits(e.game_id),
        naming matches ChunkNaming::Checksum(crc_hex) && crc_hex@ == name_crc_hex(e.title),
        0 <= idx < e.parts,
        idx < 255,
    ensures
        ({
            let read = record_entry(encoded(e));
            chunk_files(read.title, read.game_id, read.parts)[idx] == split_name(
                naming,
                e.game_id,
                e.parts as u32,
                idx as u32,
            )
        }),
{
    law_record_round_trip(e);
}

/// The loader finds the chunks of every game that is split as planned into at most 255 chunks and
/// whose id fits the entry.
pub proof fn law_loader_finds_planned_chunks(
    facts: ImageFacts,
    game_id: Seq<char>,
    split_mode: Seq<char>,
    chunks: u16,
    dest_dir: Seq<char>,
    naming: ChunkNaming,
    idx: int,
)
    requires
        id_fits(plan_for(facts, game_id, split_mode).game_id),
        naming matches ChunkNaming::Checksum(crc_hex) && crc_hex@ == plan_for(
            facts,
            game_id,
            split_mode,
        ).crc_hex,
        0 <= idx < chunks <= 255,
    ensures
        ({
            let plan = plan_for(facts, game_id, split_mode);
            let read = record_entry(encoded(entry_of(plan, chunks, dest_dir)));
            read.parts == chunks && chunk_files(read.title, read.game_id, read.parts)[idx]
                == split_name(naming, plan.game_id, chunks as u32, idx as u32)
        }),
{
    let plan = plan_for(facts, game_id, split_mode);
    let entry = entry_of(plan, chunks, dest_dir);
    law_plan_name(facts, game_id, split_mode);
    law_record_round_trip(entry);
    law_loader_finds_chunks(entry, idx, naming);
}

/// A game is not warned of where its id fits, its media type is known, every chunk verified and
/// is not empty, the last is not very small, and a whole image is in its place.
pub proof fn law_no_false_warnings(plan: PlanView, chunks: Seq<ChunkView>)
    requires
        encode_utf8(plan.game_id).len() <= MAX_GAME_ID,
        plan.media == MEDIA_CD || plan.media == MEDIA_DVD,
        forall|i: int|
            0 <= i < chunks.len() ==> (#[trigger] chunks[i]).verified && chunks[i].size > 0,
        chunks.len() > 0 ==> chunks.last().size >= MIN_LAST_CHUNK,
    ensures
        all_warnings(plan, chunks, true) == Seq::<Seq<char>>::empty(),
{
    lemma_no_chunk_warnings(chunks);
    if chunks.len() > 0 {
        assert(chunks.last() == chunks[chunks.len() - 1]);
    }
    assert(all_warnings(plan, chunks, true) =~= Seq::empty());
}

/// Chunks that verified and are not empty are not warned of.
proof fn lemma_no_chunk_warnings(chunks: Seq<ChunkView>)
    requires
        forall|i: int|
            0 <= i < chunks.len() ==> (#[trigger] chunks[i]).verified && chunks[i].size > 0,
    ensures
        chunk_warnings(chunks) =~= Seq::<Seq<char>>::empty(),
    decreases chunks.len(),
{
    if chunks.len() > 0 {
        let rest = chunks.drop_last();
        assert forall|i: int| 0 <= i < rest.len() implies (#[trigger] rest[i]).verified
            && rest[i].size > 0 by {
            assert(rest[i] == chunks[i]);
        }
        lemma_no_chunk_warnings(rest);
        assert(chunks.last() == chunks[chunks.len() - 1]);
    }
}

/// A game is split where the settings say `split`, not where they say `nosplit`, and for any other
/// word where the device has FAT32 or its file system is not known.
pub proof fn law_splits(mode: Seq<char>, filesystem: FilesystemView)
    ensures
        splits("split"@, Some(filesystem)),
        splits("split"@, None),
        !splits("nosplit"@, Some(filesystem)),
        !splits("nosplit"@, None),
        mode != "split"@ && mode != "nosplit"@ ==> (splits(mode, Some(filesystem))
            <==> filesystem is Fat32),
        mode != "nosplit"@ ==> splits(mode, None),
{
    reveal_strlit("split");
    reveal_strlit("nosplit");
    assert("split"@.len() == 5 && "nosplit"@.len() == 7);
}

/// Bytes below 128 encode characters below 128.
proof fn lemma_ascii_bytes(s: Seq<char>)
    requires
        forall|i: int| 0 <= i < encode_utf8(s).len() ==> #[trigger] encode_utf8(s)[i] < 0x80,
    ensures
        is_ascii_chars(s),
    decreases s.len(),
{
    if s.len() > 0 {
        let bytes = encode_utf8(s);
        let (head, rest) = (encode_scalar(s[0] as u32), encode_utf8(s.drop_first()));
        encode_utf8_first_scalar(s);
        assert(bytes[0] < 0x80);
        char_is_scalar(s[0]);
        assert(head.len() == 1);
        assert(has_width_1_encoding(s[0] as u32));
        assert forall|i: int| 0 <= i < rest.len() implies #[trigger] rest[i] < 0x80 by {
            assert(bytes[i + 1] == rest[i]);
        }
        lemma_ascii_bytes(s.drop_first());
        let first: char = s[0];
        char_u32_cast(first, first as u32);
        assert('\0' <= first <= '\u{7f}');
        assert forall|i: int| 0 <= i < s.len() implies '\0' <= #[trigger] s[i] <= '\u{7f}' by {
            if i > 0 {
                assert(s.drop_first()[i - 1] == s[i]);
            } else {
                assert(s[i] == first);
            }
        }
    }
}

/// Whether a text consists of digits.
pub open spec fn is_number(s: Seq<char>) -> bool {
    forall|i: int| 0 <= i < s.len() ==> '0' <= #[trigger] s[i] <= '9'
}

/// A name is a game id where it is four capital letters, an underscore, three digits, a dot and
/// any number of digits: `SLUS_217.46`.
pub proof fn law_game_id(letters: Seq<char>, number: Seq<char>, rest: Seq<char>)
    requires
        letters.len() == 4,
        forall|i: int| 0 <= i < 4 ==> 'A' <= #[trigger] letters[i] <= 'Z',
        number.len() == 3,
        is_number(number),
        is_number(rest),
    ensures
        is_game_id(letters + seq!['_'] + number + seq!['.'] + rest),
{
    let name = letters + seq!['_'] + number + seq!['.'] + rest;
    assert forall|i: int| 0 <= i < name.len() implies '\0' <= #[trigger] name[i] <= '\u{7f}' by {
        if i < 4 {
            assert(name[i] == letters[i]);
        } else if 5 <= i < 8 {
            assert(name[i] == number[i - 5]);
        } else if i >= 9 {
            assert(name[i] == rest[i - 9]);
        }
    }
    is_ascii_chars_encode_utf8(name);
    let bytes = encode_utf8(name);
    assert forall|i: int| 0 <= i < 4 implies 0x41 <= #[trigger] bytes[i] <= 0x5A by {
        assert(name[i] == letters[i]);
        assert(name[i] as u8 == bytes[i]);
    }
    assert(name[4] == '_' && name[8] == '.');
    assert(name[4] as u8 == bytes[4] && name[8] as u8 == bytes[8]);
    assert forall|i: int| 5 <= i < 8 implies 0x30 <= #[trigger] bytes[i] <= 0x39 by {
        assert(name[i] == number[i - 5]);
        assert(name[i] as u8 == bytes[i]);
    }
    assert forall|i: int| 9 <= i < bytes.len() implies 0x30 <= #[trigger] bytes[i] <= 0x39 by {
        assert(name[i] == rest[i - 9]);
        assert(name[i] as u8 == bytes[i]);
    }
}

/// Only such a name is a game id.
pub proof fn law_only_game_ids(name: Seq<char>, i: int)
    requires
        is_game_id(name),
    ensures
        name.len() >= 9,
        0 <= i < 4 ==> 'A' <= name[i] <= 'Z',
        name[4] == '_',
        5 <= i < 8 ==> '0' <= name[i] <= '9',
        name[8] == '.',
        9 <= i < name.len() ==> '0' <= name[i] <= '9',
{
    let bytes = encode_utf8(name);
    assert forall|k: int| 0 <= k < bytes.len() implies #[trigger] bytes[k] < 0x80 by {
        if k >= 9 {
            assert(all_digits(bytes, 9, bytes.len() as int));
        } else if 5 <= k < 8 {
            assert(all_digits(bytes, 5, 8));
        }
    }
    lemma_ascii_bytes(name);
    is_ascii_chars_encode_utf8(name);
    assert(name[4] as u8 == bytes[4] && name[8] as u8 == bytes[8]);
    if 0 <= i < name.len() {
        assert(name[i] as u8 == bytes[i]);
    }
}

/// A game is called as its file is; where that is only a game id, as its label says, unless there
/// is none or that is a game id too.
pub proof fn law_title_for(file_name: Seq<char>, label: Seq<char>)
    ensures
        !is_game_id(title_in_filename(file_name)) ==> title_for(file_name, Some(label))
            == shortened(title_in_filename(file_name)),
        !is_game_id(title_in_filename(file_name)) ==> title_for(file_name, None) == shortened(
            title_in_filename(file_name),
        ),
        is_game_id(title_in_filename(file_name)) && label.len() > 0 && !is_game_id(label)
            ==> title_for(file_name, Some(label)) == shortened(label),
        is_game_id(title_in_filename(file_name)) && (label.len() == 0 || is_game_id(label))
            ==> title_for(file_name, Some(label)) == shortened(title_in_filename(file_name)),
        is_game_id(title_in_filename(file_name)) ==> title_for(file_name, None) == shortened(
            title_in_filename(file_name),
        ),
{
}

/// A game gets the startup id that its image names in the first line with `BOOT2` and `cdrom0:`,
/// wherever in the line these stand.
pub proof fn law_plan_takes_startup_id(
    facts: ImageFacts,
    game_id: Seq<char>,
    split_mode: Seq<char>,
    before: Seq<char>,
    line: Seq<char>,
    rest: Seq<char>,
    a: Seq<char>,
    id: Seq<char>,
    b: Seq<char>,
)
    requires
        facts.head is Some,
        facts.head->0@ == encode_utf8(before + line + rest),
        before.len() > 0 ==> before.last() == '\n',
        !contains_text(before, "BOOT2"@) || !contains_text(before, "cdrom0:"@),
        !line.contains('\n'),
        rest.len() > 0 ==> rest[0] == '\n',
        contains_text(line, "BOOT2"@),
        contains_text(line, "cdrom0:"@),
        has_path(line, a, id, b),
        id.len() > 0,
        !is_white_space(id[0]),
        !is_white_space(id.last()),
    ensures
        plan_for(facts, game_id, split_mode).game_id == id,
{
    law_decoded(before + line + rest);
    law_startup_is_found(before, line, rest, a, id, b);
}

/// A game whose image cannot be read, or names no startup id, keeps the id that it was given.
pub proof fn law_plan_keeps_given_id(
    facts: ImageFacts,
    game_id: Seq<char>,
    split_mode: Seq<char>,
)
    requires
        facts.head is Some ==> !contains_text(decoded(facts.head->0@), "BOOT2"@) || !contains_text(
            decoded(facts.head->0@),
            "cdrom0:"@,
        ),
    ensures
        plan_for(facts, game_id, split_mode).game_id == game_id,
{
    if facts.head is Some {
        crate::iso::law_no_startup(decoded(facts.head->0@));
    }
}

/// The label of an image is its text without the padding; an image without one has none.
pub proof fn law_label_of(label: Seq<char>, nulls: Seq<char>, spaces: Seq<char>)
    requires
        forall|i: int| 0 <= i < nulls.len() ==> #[trigger] nulls[i] == '\0',
        forall|i: int| 0 <= i < spaces.len() ==> #[trigger] spaces[i] == ' ',
        label.len() > 0,
        label.last() != '\0',
        label.last() != ' ' || nulls.len() > 0,
    ensures
        label_of(Some(encode_utf8(label + nulls + spaces))) == Some(label),
        label_of(Some(encode_utf8(nulls + spaces))) is None,
        label_of(None) is None,
{
    law_decoded(label + nulls + spaces);
    law_decoded(nulls + spaces);
    law_label(label, nulls, spaces);
    let none = Seq::<char>::empty();
    assert(none + nulls + spaces =~= nulls + spaces);
    law_label(none, nulls, spaces);
}

/// What a plan takes from where: the name from the file and the label, the checksum from that
/// name, the media type from the size and the mark, and whether to split from the settings and the
/// file system.
pub proof fn law_plan(facts: ImageFacts, game_id: Seq<char>, split_mode: Seq<char>)
    ensures
        ({
            let plan = plan_for(facts, game_id, split_mode);
            &&& facts.label is Some ==> plan.title == title_for(
                facts.file_name@,
                label_of(Some(facts.label->0@)),
            )
            &&& facts.label is None ==> plan.title == title_for(facts.file_name@, None)
            &&& plan.crc_hex == name_crc_hex(plan.title)
            &&& facts.udf is Some ==> plan.media == media_type(facts.size, Some(facts.udf->0@))
            &&& facts.udf is None ==> plan.media == media_type(facts.size, None)
            &&& facts.filesystem is Some ==> plan.use_split == splits(
                split_mode,
                Some(facts.filesystem->0@),
            )
            &&& facts.filesystem is None ==> plan.use_split == splits(split_mode, None)
        }),
{
}

/// The entry of a game has the name, the id and the media type of its plan, and as many parts as
/// there are chunks.
pub proof fn law_entry_of(plan: PlanView, chunks: u16, dest_dir: Seq<char>)
    ensures
        entry_of(plan, chunks, dest_dir).title == plan.title,
        entry_of(plan, chunks, dest_dir).game_id == plan.game_id,
        entry_of(plan, chunks, dest_dir).parts == chunks,
        entry_of(plan, chunks, dest_dir).media == plan.media,
        entry_of(plan, chunks, dest_dir).mount_point == dest_dir,
{
}

/// Chunks are warned of one by one, in their order.
pub proof fn law_chunk_warnings_add_up(a: Seq<ChunkView>, b: Seq<ChunkView>)
    ensures
        chunk_warnings(a + b) == chunk_warnings(a) + chunk_warnings(b),
        chunk_warnings(Seq::empty()).len() == 0,
    decreases b.len(),
{
    if b.len() == 0 {
        assert(a + b =~= a);
        assert(chunk_warnings(a) + chunk_warnings(b) =~= chunk_warnings(a));
    } else {
        assert((a + b).drop_last() =~= a + b.drop_last());
        assert((a + b).last() == b.last());
        law_chunk_warnings_add_up(a, b.drop_last());
        assert(chunk_warnings(a + b) =~= chunk_warnings(a) + chunk_warnings(b));
    }
}

/// A chunk that was not verified is warned of, and so is one that is empty; no other is.
pub proof fn law_chunk_warning(chunk: ChunkView)
    ensures
        ({
            let index = decimal_padded(chunk.index as nat, 2);
            let bad = "Chunk "@ + index
                + " failed checksum verification — copy may be corrupt. Delete and re-copy the game."@;
            let empty = "Chunk "@ + index + " has zero size — source ISO may be truncated."@;
            chunk_warnings(seq![chunk]) == (if !chunk.verified && chunk.size == 0 {
                seq![bad, empty]
            } else if !chunk.verified {
                seq![bad]
            } else if chunk.size == 0 {
                seq![empty]
            } else {
                seq![]
            })
        }),
{
    reveal_with_fuel(chunk_warnings, 2);
    let none = Seq::<ChunkView>::empty();
    assert(seq![chunk].drop_last() =~= none && seq![chunk].last() == chunk);
    assert(chunk_warnings(seq![chunk]) =~= warnings_of_chunk(chunk));
    let index = decimal_padded(chunk.index as nat, 2);
    let bad = "Chunk "@ + index
        + " failed checksum verification — copy may be corrupt. Delete and re-copy the game."@;
    let empty = "Chunk "@ + index + " has zero size — source ISO may be truncated."@;
    if !chunk.verified && chunk.size == 0 {
        assert(warnings_of_chunk(chunk) =~= seq![bad, empty]);
    } else if !chunk.verified {
        assert(warnings_of_chunk(chunk) =~= seq![bad]);
    } else if chunk.size == 0 {
        assert(warnings_of_chunk(chunk) =~= seq![empty]);
    } else {
        assert(warnings_of_chunk(chunk) =~= seq![]);
    }
}

/// The warnings of a game: of an id that has more than twelve bytes, of a media type that is
/// neither that of a CD nor that of a DVD, then of its chunks, of a last chunk that has less than
/// 512 bytes and is not empty, and of a whole image that is not in its place.
pub proof fn law_warnings(plan: PlanView, chunks: Seq<ChunkView>, image_found: bool)
    ensures
        ({
            let n = encode_utf8(plan.game_id).len();
            let last = chunks.last().size;
            let of_id = seq![
                "Game ID \""@ + plan.game_id + "\" is "@ + decimal(n)
                    + " chars; only 12 fit in ul.cfg's image field. OPL may not locate chunk files."@,
            ];
            let of_media = seq![
                "Unrecognised media type 0x"@ + hex_upper(plan.media as nat, 2)
                    + " (expected 0x12=CD or 0x14=DVD). Game may boot with wrong sector addressing."@,
            ];
            let of_last = seq![
                "Last chunk is only "@ + decimal(last as nat)
                    + " bytes — ISO appears truncated. Obtain a complete ISO and re-copy."@,
            ];
            let of_image = seq![
                "Expected ISO at "@ + (if plan.media == 0x12 {
                    "CD"@
                } else {
                    "DVD"@
                }) + "/"@ + plan.game_id
                    + ".iso but the file was not found. OPL will not see this game."@,
            ];
            let none = Seq::<Seq<char>>::empty();
            all_warnings(plan, chunks, image_found) == (if n > 12 {
                of_id
            } else {
                none
            }) + (if plan.media != 0x12 && plan.media != 0x14 {
                of_media
            } else {
                none
            }) + chunk_warnings(chunks) + (if chunks.len() > 0 && 0 < last < 512 {
                of_last
            } else {
                none
            }) + (if !plan.use_split && !image_found {
                of_image
            } else {
                none
            })
        }),
{
}

/// The model of a [`ProcessPlan`] has all that it holds.
pub proof fn law_model_of_process_plan(plan: ProcessPlan)
    ensures
        plan@.use_split == plan.use_split,
        plan@.game_id == plan.game_id@,
        plan@.title == plan.title@,
        plan@.crc_hex == plan.crc_hex@,
        plan@.media == plan.media,
{
}

} // verus!
