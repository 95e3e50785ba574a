//! Copying an image to a device: in chunks that a FAT32 file system can hold, or whole.

use crate::checksum::{can_count, checksum_of, joined, ChecksumAlgo, ChunkHasher};
use crate::text::{
    decimal,
    decimal_padded,
    hex_upper,
    law_decimal_tells_apart,
    optional_text,
    same_text,
    texts,
    to_decimal,
    to_decimal_padded,
    to_hex_upper,
};
use crate::ulcfg::MEDIA_CD;
use vstd::prelude::*;
use vstd::string::StringExecFns;

verus! {

/// What can go wrong when an image is copied.
#[derive(Debug, Clone)]
pub enum SplitError {
    /// A file could not be read or written.
    Io(String),
    /// A chunk read back with another checksum.
    ChecksumMismatch { chunk: u32, expected: String, actual: String },
    /// A chunk did not verify in this many attempts: the limit and the chunk's index.
    MaxRetriesExceeded(u32, u32),
    /// The image cannot be split this way.
    InvalidParams(String),
}

/// What a [`SplitError`] holds.
pub enum SplitErrorView {
    Io(Seq<char>),
    ChecksumMismatch { chunk: u32, expected: Seq<char>, actual: Seq<char> },
    MaxRetriesExceeded(u32, u32),
    InvalidParams(Seq<char>),
}

impl View for SplitError {
    type V = SplitErrorView;

    open spec fn view(&self) -> SplitErrorView {
        match self {
            SplitError::Io(s) => SplitErrorView::Io(s@),
            SplitError::ChecksumMismatch { chunk, expected, actual } => {
                SplitErrorView::ChecksumMismatch {
                    chunk: *chunk,
                    expected: expected@,
                    actual: actual@,
                }
            },
            SplitError::MaxRetriesExceeded(max, chunk) => SplitErrorView::MaxRetriesExceeded(
                *max,
                *chunk,
            ),
            SplitError::InvalidParams(s) => SplitErrorView::InvalidParams(s@),
        }
    }
}

impl SplitError {
    /// The error in words.
    pub fn message(&self) -> (m: String)
        ensures
            m@ == (match self@ {
                SplitErrorView::Io(s) => "IO error: "@ + s,
                SplitErrorView::ChecksumMismatch { chunk, expected, actual } => {
                    "Checksum mismatch for chunk "@ + decimal(chunk as nat) + ": expected "@
                        + expected + ", got "@ + actual
                },
                SplitErrorView::MaxRetriesExceeded(max, chunk) => "Max retries ("@ + decimal(
                    max as nat,
                ) + ") exceeded for chunk "@ + decimal(chunk as nat),
                SplitErrorView::InvalidParams(s) => "Invalid split parameters: "@ + s,
            }),
    {
        match self {
            SplitError::Io(s) => "IO error: ".to_owned().concat(s.as_str()),
            SplitError::ChecksumMismatch { chunk, expected, actual } => {
                "Checksum mismatch for chunk ".to_owned().concat(
                    to_decimal(*chunk as u64).as_str(),
                ).concat(": expected ").concat(expected.as_str()).concat(", got ").concat(
                    actual.as_str(),
                )
            },
            SplitError::MaxRetriesExceeded(max, chunk) => "Max retries (".to_owned().concat(
                to_decimal(*max as u64).as_str(),
            ).concat(") exceeded for chunk ").concat(to_decimal(*chunk as u64).as_str()),
            SplitError::InvalidParams(s) => "Invalid split parameters: ".to_owned().concat(
                s.as_str(),
            ),
        }
    }
}

/// The size of a chunk unless another is set: the largest even size that FAT32 can hold.
pub const DEFAULT_CHUNK_SIZE: u64 = 4_294_967_294;

/// How an image is copied.
#[derive(Debug, Clone)]
pub struct SplitConfig {
    pub chunk_size: u64,
    pub buffer_size: usize,
    pub checksum_algo: ChecksumAlgo,
    pub max_retries: u32,
}

impl Default for SplitConfig {
    fn default() -> (config: Self)
        ensures
            config == (SplitConfig {
                chunk_size: DEFAULT_CHUNK_SIZE,
                buffer_size: 8_388_608,
                checksum_algo: ChecksumAlgo::Crc32,
                max_retries: 3,
            }),
    {
        SplitConfig {
            chunk_size: DEFAULT_CHUNK_SIZE,
            buffer_size: 8_388_608,
            checksum_algo: ChecksumAlgo::Crc32,
            max_retries: 3,
        }
    }
}

/// One chunk that has been written.
#[derive(Debug, Clone)]
pub struct ChunkResult {
    pub index: u32,
    pub path: String,
    pub size: u64,
    pub checksum: String,
    pub verified: bool,
}

/// What a [`ChunkResult`] holds.
#[verifier::ext_equal]
pub struct ChunkView {
    pub index: u32,
    pub path: Seq<char>,
    pub size: u64,
    pub checksum: Seq<char>,
    pub verified: bool,
}

impl View for ChunkResult {
    type V = ChunkView;

    open spec fn view(&self) -> ChunkView {
        ChunkView {
            index: self.index,
            path: self.path@,
            size: self.size,
            checksum: self.checksum@,
            verified: self.verified,
        }
    }
}

/// What some chunks hold.
pub open spec fn chunk_views(chunks: Seq<ChunkResult>) -> Seq<ChunkView> {
    Seq::new(chunks.len(), |i: int| chunks[i]@)
}

/// What copying an image came to.
#[derive(Debug, Clone)]
pub struct SplitResult {
    pub success: bool,
    pub chunks: Vec<ChunkResult>,
    pub total_size: u64,
    pub error: Option<String>,
    /// What may keep the game from booting, although it was copied.
    pub warnings: Vec<String>,
}

/// What a [`SplitResult`] holds.
#[verifier::ext_equal]
pub struct SplitResultView {
    pub success: bool,
    pub chunks: Seq<ChunkView>,
    pub total_size: u64,
    pub error: Option<Seq<char>>,
    pub warnings: Seq<Seq<char>>,
}

impl View for SplitResult {
    type V = SplitResultView;

    open spec fn view(&self) -> SplitResultView {
        SplitResultView {
            success: self.success,
            chunks: chunk_views(self.chunks@),
            total_size: self.total_size,
            error: optional_text(self.error),
            warnings: texts(self.warnings@),
        }
    }
}

/// How far copying an image has come.
#[derive(Debug, Clone)]
pub struct ProgressInfo {
    pub phase: String,
    pub chunk: u32,
    pub total_chunks: u32,
    pub pct: u8,
    pub speed: String,
}

/// What a [`ProgressInfo`] holds.
#[verifier::ext_equal]
pub struct ProgressView {
    pub phase: Seq<char>,
    pub chunk: u32,
    pub total_chunks: u32,
    pub pct: u8,
    pub speed: Seq<char>,
}

impl View for ProgressInfo {
    type V = ProgressView;

    open spec fn view(&self) -> ProgressView {
        ProgressView {
            phase: self.phase@,
            chunk: self.chunk,
            total_chunks: self.total_chunks,
            pct: self.pct,
            speed: self.speed@,
        }
    }
}

// ---------------------------------------------------------------- file names

/// The name of a chunk file: `ul.<checksum>.<game id>.<part>`, the part in two hexadecimal
/// digits or more.
pub open spec fn chunk_name(crc_hex: Seq<char>, game_id: Seq<char>, part: u32) -> Seq<char> {
    "ul."@ + crc_hex + "."@ + game_id + "."@ + hex_upper(part as nat, 2)
}

/// The name of a chunk file.
pub fn chunk_file_name(crc_hex: &str, game_id: &str, part: u32) -> (name: String)
    ensures
        name@ == chunk_name(crc_hex@, game_id@, part),
{
    "ul.".to_owned().concat(crc_hex).concat(".").concat(game_id).concat(".").concat(
        to_hex_upper(part as u64, 2).as_str(),
    )
}

/// How the chunks of a game are named.
#[derive(Debug, Clone)]
pub enum ChunkNaming {
    /// By the game id alone: `ul.<game id>`, or `ul.<game id>.<part>` where there are several
    /// chunks, the part in two decimal digits or more.
    Plain,
    /// By the checksum of the game's display name too, as the loader looks for them.
    Checksum(String),
}

/// The name of chunk `idx` of `total`.
pub open spec fn split_name(
    naming: ChunkNaming,
    game_id: Seq<char>,
    total: u32,
    idx: u32,
) -> Seq<char> {
    match naming {
        ChunkNaming::Plain => if total == 1 {
            "ul."@ + game_id
        } else {
            "ul."@ + game_id + "."@ + decimal_padded(idx as nat, 2)
        },
        ChunkNaming::Checksum(crc_hex) => chunk_name(crc_hex@, game_id, idx),
    }
}

/// The name of chunk `idx` of `total`.
pub fn split_file_name(naming: &ChunkNaming, game_id: &str, total: u32, idx: u32) -> (name: String)
    ensures
        name@ == split_name(*naming, game_id@, total, idx),
{
    match naming {
        ChunkNaming::Plain => {
            let name = "ul.".to_owned().concat(game_id);
            if total == 1 {
                name
            } else {
                name.concat(".").concat(to_decimal_padded(idx as u64, 2).as_str())
            }
        },
        ChunkNaming::Checksum(crc_hex) => chunk_file_name(crc_hex.as_str(), game_id, idx),
    }
}

/// The directory that the loader looks for a whole image of this media type in.
pub open spec fn media_directory(media: u8) -> Seq<char> {
    if media == MEDIA_CD {
        "CD"@
    } else {
        "DVD"@
    }
}

/// The directory that the loader looks for a whole image of this media type in.
pub fn media_dir(media: u8) -> (dir: &'static str)
    ensures
        dir@ == media_directory(media),
{
    if media == MEDIA_CD {
        "CD"
    } else {
        "DVD"
    }
}

/// The name of the file of a whole image.
pub fn iso_file_name(game_id: &str) -> (name: String)
    ensures
        name@ == game_id@ + ".iso"@,
{
    game_id.to_owned().concat(".iso")
}

// ---------------------------------------------------------------- the chunks of an image

/// How many chunks of `chunk_size` bytes hold `file_size` bytes.
pub open spec fn chunks_needed(file_size: int, chunk_size: int) -> int {
    (file_size + chunk_size - 1) / chunk_size
}

/// Where chunk `idx` begins in the image.
pub open spec fn chunk_start(chunk_size: int, idx: int) -> int {
    idx * chunk_size
}

/// Where chunk `idx` ends in the image.
pub open spec fn chunk_end(file_size: int, chunk_size: int, idx: int) -> int {
    if chunk_start(chunk_size, idx) + chunk_size < file_size {
        chunk_start(chunk_size, idx) + chunk_size
    } else {
        file_size
    }
}

/// There are no negative numbers of chunks.
proof fn lemma_chunks_needed(file_size: int, chunk_size: int)
    requires
        0 <= file_size,
        0 < chunk_size,
    ensures
        0 <= chunks_needed(file_size, chunk_size),
{
    let n = chunks_needed(file_size, chunk_size);
    assert(0 <= n) by (nonlinear_arith)
        requires
            n == (file_size + chunk_size - 1) / chunk_size,
            0 < chunk_size,
            0 <= file_size,
    ;
}

/// How many chunks an image is split into, where 32 bits can count them.
pub fn count_chunks(file_size: u64, config: &SplitConfig) -> (r: Result<u32, SplitError>)
    requires
        config.chunk_size > 0,
        file_size + config.chunk_size - 1 <= u64::MAX,
        chunks_needed(file_size as int, config.chunk_size as int) <= u32::MAX,
    ensures
        match r {
            Ok(n) => file_size > 0 && n == chunks_needed(
                file_size as int,
                config.chunk_size as int,
            ),
            Err(e) => file_size == 0 && e@ == SplitErrorView::InvalidParams(
                "Source file is empty"@,
            ),
        },
{
    if file_size == 0 {
        return Err(SplitError::InvalidParams("Source file is empty".to_owned()));
    }
    let n: u64 = (file_size + (config.chunk_size - 1)) / config.chunk_size;
    Ok(n as u32)
}

/// Where chunk `idx` begins, and its size.
pub fn chunk_span(file_size: u64, chunk_size: u64, idx: u32) -> (span: (u64, u64))
    requires
        idx * chunk_size + chunk_size <= u64::MAX,
        idx * chunk_size <= file_size,
    ensures
        span.0 == chunk_start(chunk_size as int, idx as int),
        span.0 + span.1 == chunk_end(file_size as int, chunk_size as int, idx as int),
{
    assert(0 <= idx * chunk_size) by (nonlinear_arith);
    let start: u64 = (idx as u64) * chunk_size;
    let end: u64 = if start + chunk_size < file_size {
        start + chunk_size
    } else {
        file_size
    };
    (start, end - start)
}

/// The progress after chunk `idx`.
pub fn chunk_progress(idx: u32, total_chunks: u32) -> (p: ProgressInfo)
    requires
        idx < total_chunks,
        (idx + 1) * 100 <= u32::MAX,
    ensures
        p@ == (ProgressView {
            phase: "copy"@,
            chunk: (idx + 1) as u32,
            total_chunks,
            pct: ((idx + 1) * 100 / total_chunks as int) as u8,
            speed: Seq::empty(),
        }),
{
    let pct: u32 = (idx + 1) * 100 / total_chunks;
    assert(pct <= 100) by (nonlinear_arith)
        requires
            idx < total_chunks,
            pct == (idx + 1) * 100 / total_chunks as int,
    ;
    ProgressInfo {
        phase: "copy".to_owned(),
        chunk: idx + 1,
        total_chunks,
        pct: pct as u8,
        speed: String::new(),
    }
}

// ---------------------------------------------------------------- attempts

/// What to do after an attempt to write a chunk.
#[derive(Debug)]
pub enum AfterAttempt {
    /// The chunk is there.
    Done,
    /// The chunk is given up.
    GiveUp(SplitError),
    /// The chunk is written again, after this progress and from this place in the image.
    Retry { progress: ProgressInfo, seek: u64 },
}

/// What an [`AfterAttempt`] holds.
pub enum AfterAttemptView {
    Done,
    GiveUp(SplitErrorView),
    Retry { progress: ProgressView, seek: u64 },
}

impl View for AfterAttempt {
    type V = AfterAttemptView;

    open spec fn view(&self) -> AfterAttemptView {
        match self {
            AfterAttempt::Done => AfterAttemptView::Done,
            AfterAttempt::GiveUp(e) => AfterAttemptView::GiveUp(e@),
            AfterAttempt::Retry { progress, seek } => AfterAttemptView::Retry {
                progress: progress@,
                seek: *seek,
            },
        }
    }
}

/// What to do after attempt number `attempt`, counted from one, to write chunk `idx`.
pub open spec fn after_attempt(
    attempt: u32,
    verified: bool,
    idx: u32,
    total_chunks: u32,
    config: SplitConfig,
) -> AfterAttemptView {
    if verified {
        AfterAttemptView::Done
    } else if attempt >= config.max_retries {
        AfterAttemptView::GiveUp(SplitErrorView::MaxRetriesExceeded(config.max_retries, idx))
    } else {
        AfterAttemptView::Retry {
            progress: ProgressView {
                phase: "retry"@,
                chunk: idx,
                total_chunks,
                pct: 0,
                speed: "Retry "@ + decimal(attempt as nat) + "/"@ + decimal(
                    config.max_retries as nat,
                ),
            },
            seek: chunk_start(config.chunk_size as int, idx as int) as u64,
        }
    }
}

/// What to do after attempt number `attempt`, counted from one, to write chunk `idx`.
pub fn decide_after_attempt(
    attempt: u32,
    verified: bool,
    idx: u32,
    total_chunks: u32,
    config: &SplitConfig,
) -> (next: AfterAttempt)
    requires
        idx * config.chunk_size <= u64::MAX,
    ensures
        next@ == after_attempt(attempt, verified, idx, total_chunks, *config),
{
    if verified {
        return AfterAttempt::Done;
    }
    if attempt >= config.max_retries {
        return AfterAttempt::GiveUp(SplitError::MaxRetriesExceeded(config.max_retries, idx));
    }
    let speed = "Retry ".to_owned().concat(to_decimal(attempt as u64).as_str()).concat("/").concat(
        to_decimal(config.max_retries as u64).as_str(),
    );
    let progress = ProgressInfo {
        phase: "retry".to_owned(),
        chunk: idx,
        total_chunks,
        pct: 0,
        speed,
    };
    assert(0 <= idx * config.chunk_size) by (nonlinear_arith);
    AfterAttempt::Retry { progress, seek: (idx as u64) * config.chunk_size }
}

// ---------------------------------------------------------------- copying a chunk

/// A chunk on its way: how much of it is still to come, and its checksum so far.
pub struct ChunkCopy {
    remaining: u64,
    hasher: ChunkHasher,
}

impl ChunkCopy {
    /// How many bytes are still to come.
    pub closed spec fn left(self) -> nat {
        self.remaining as nat
    }

    /// The blocks that have come.
    pub closed spec fn blocks(self) -> Seq<Seq<u8>> {
        self.hasher.blocks()
    }

    /// The algorithm of the checksum.
    pub closed spec fn algo(self) -> ChecksumAlgo {
        self.hasher.algo()
    }

    /// The checksum can be carried on to the end of the chunk.
    pub closed spec fn wf(self) -> bool {
        self.hasher.wf() && can_count(
            self.algo(),
            joined(self.blocks()).len() + self.remaining as nat,
        )
    }

    /// A chunk of which nothing has come.
    pub fn start(chunk_size: u64, algo: ChecksumAlgo) -> (copy: ChunkCopy)
        requires
            can_count(algo, chunk_size as nat),
        ensures
            copy.wf(),
            copy.algo() == algo,
            copy.left() == chunk_size,
            copy.blocks() == Seq::<Seq<u8>>::empty(),
    {
        ChunkCopy { remaining: chunk_size, hasher: ChunkHasher::new(algo) }
    }

    /// Whether anything is still to come.
    pub fn is_complete(&self) -> (done: bool)
        ensures
            done == (self.left() == 0),
    {
        self.remaining == 0
    }

    /// How many bytes to read next into a buffer of `buffer_len` bytes.
    pub fn next_read(&self, buffer_len: usize) -> (n: usize)
        ensures
            n == (if self.left() <= buffer_len {
                self.left()
            } else {
                buffer_len as nat
            }),
    {
        if self.remaining <= buffer_len as u64 {
            self.remaining as usize
        } else {
            buffer_len
        }
    }

    /// Takes in a block that has been read and written.
    pub fn accept(&mut self, data: &[u8])
        requires
            old(self).wf(),
            data@.len() <= old(self).left(),
        ensures
            final(self).wf(),
            final(self).algo() == old(self).algo(),
            final(self).left() == old(self).left() - data@.len(),
            final(self).blocks() == old(self).blocks().push(data@),
    {
        let ghost before = self.blocks();
        self.hasher.update(data);
        self.remaining = self.remaining - data.len() as u64;
        assert(self.blocks().drop_last() =~= before);
    }

    /// The checksum of what has come.
    pub fn finish(self) -> (checksum: String)
        requires
            self.wf(),
        ensures
            checksum@ == checksum_of(self.algo(), self.blocks()),
    {
        self.hasher.finalize()
    }
}

/// Whether a chunk that was read back has the checksum that it was written with.
pub fn chunk_verified(computed: &str, expected: &str) -> (verified: bool)
    ensures
        verified == (computed@ == expected@),
{
    same_text(computed, expected)
}

// ---------------------------------------------------------------- splitting an image

/// The chunk that comes next.
#[derive(Debug)]
pub struct ChunkPlan {
    pub index: u32,
    /// The name of its file.
    pub name: String,
    /// Where it begins in the image.
    pub start: u64,
    pub size: u64,
}

/// An image on its way to a device in chunks.
pub struct SplitRun {
    file_size: u64,
    total: u32,
    naming: ChunkNaming,
    game_id: String,
    config: SplitConfig,
    chunks: Vec<ChunkResult>,
    attempts: u32,
    written: bool,
}

/// What a [`SplitRun`] holds.
#[verifier::ext_equal]
pub struct SplitRunView {
    /// The size of the image.
    pub file_size: u64,
    /// How many chunks there are to write.
    pub total: u32,
    pub naming: ChunkNaming,
    pub game_id: Seq<char>,
    pub config: SplitConfig,
    /// The chunks that are there.
    pub chunks: Seq<ChunkView>,
    /// The attempts at the next chunk that have failed.
    pub attempts: u32,
    /// Whether an attempt at the next chunk has verified.
    pub written: bool,
}

impl SplitRunView {
    /// The chunks that are there are the first ones, each of its size, and the next one has not
    /// been given up.
    pub open spec fn wf(self) -> bool {
        let size = self.config.chunk_size as int;
        &&& size > 0
        &&& self.file_size > 0
        &&& self.file_size + size - 1 <= u64::MAX
        &&& self.total == chunks_needed(self.file_size as int, size)
        &&& self.total * 100 <= u32::MAX
        &&& self.chunks.len() <= self.total
        &&& self.attempts == 0 || self.attempts < self.config.max_retries
        &&& forall|i: int|
            0 <= i < self.chunks.len() ==> (#[trigger] self.chunks[i]).index == i
                && self.chunks[i].size == chunk_end(self.file_size as int, size, i) - chunk_start(
                size,
                i,
            )
    }
}

impl View for SplitRun {
    type V = SplitRunView;

    closed spec fn view(&self) -> SplitRunView {
        SplitRunView {
            file_size: self.file_size,
            total: self.total,
            naming: self.naming,
            game_id: self.game_id@,
            config: self.config,
            chunks: chunk_views(self.chunks@),
            attempts: self.attempts,
            written: self.written,
        }
    }
}

/// Every chunk begins within the image.
proof fn lemma_below_total(file_size: int, chunk_size: int, idx: int)
    requires
        0 < chunk_size,
        0 < file_size,
        0 <= idx < chunks_needed(file_size, chunk_size),
    ensures
        0 <= chunk_start(chunk_size, idx) < file_size,
{
    law_chunks_cover(file_size, chunk_size, idx);
    assert(0 <= idx * chunk_size) by (nonlinear_arith)
        requires
            0 <= idx,
            0 < chunk_size,
    ;
}

/// Whether an image of this size can be split into chunks of this size: chunks hold something,
/// and their number and the progress through them can be counted.
pub open spec fn splittable(file_size: u64, chunk_size: u64) -> bool {
    &&& chunk_size > 0
    &&& file_size + chunk_size - 1 <= u64::MAX
    &&& chunks_needed(file_size as int, chunk_size as int) * 100 <= u32::MAX
}

/// Whether an image of this size can be split into chunks of this size.
pub fn can_split(file_size: u64, chunk_size: u64) -> (b: bool)
    ensures
        b == splittable(file_size, chunk_size),
{
    if chunk_size == 0 || file_size > u64::MAX - (chunk_size - 1) {
        return false;
    }
    let n: u64 = (file_size + (chunk_size - 1)) / chunk_size;
    n <= 42_949_672
}

/// Begins to split an image of `file_size` bytes.
pub fn split_iso(
    file_size: u64,
    naming: ChunkNaming,
    game_id: String,
    config: SplitConfig,
) -> (r: Result<SplitRun, SplitError>)
    requires
        splittable(file_size, config.chunk_size),
    ensures
        match r {
            Ok(run) => file_size > 0 && run@.wf() && run@ == (SplitRunView {
                file_size,
                total: chunks_needed(file_size as int, config.chunk_size as int) as u32,
                naming,
                game_id: game_id@,
                config,
                chunks: Seq::empty(),
                attempts: 0,
                written: false,
            }),
            Err(e) => file_size == 0 && e@ == SplitErrorView::InvalidParams(
                "Source file is empty"@,
            ),
        },
{
    proof {
        lemma_chunks_needed(file_size as int, config.chunk_size as int);
    }
    match count_chunks(file_size, &config) {
        Ok(total) => {
            let run = SplitRun {
                file_size,
                total,
                naming,
                game_id,
                config,
                chunks: Vec::new(),
                attempts: 0,
                written: false,
            };
            assert(run@.chunks =~= Seq::empty());
            Ok(run)
        },
        Err(e) => Err(e),
    }
}

impl SplitRun {
    /// The chunk that comes next; nothing once all are there.
    pub fn next_chunk(&self) -> (plan: Option<ChunkPlan>)
        requires
            self@.wf(),
        ensures
            match plan {
                Some(p) => self@.chunks.len() < self@.total && p.index == self@.chunks.len()
                    && p.name@ == split_name(
                    self@.naming,
                    self@.game_id,
                    self@.total,
                    p.index,
                ) && p.start == chunk_start(self@.config.chunk_size as int, p.index as int)
                    && p.start + p.size == chunk_end(
                    self@.file_size as int,
                    self@.config.chunk_size as int,
                    p.index as int,
                ),
                None => self@.chunks.len() == self@.total,
            },
    {
        if self.chunks.len() >= self.total as usize {
            return None;
        }
        let index: u32 = self.chunks.len() as u32;
        proof {
            lemma_below_total(
                self.file_size as int,
                self.config.chunk_size as int,
                index as int,
            );
        }
        let (start, size) = chunk_span(self.file_size, self.config.chunk_size, index);
        let name = split_file_name(&self.naming, self.game_id.as_str(), self.total, index);
        Some(ChunkPlan { index, name, start, size })
    }

    /// What to do after one more attempt at the next chunk.
    pub fn attempted(&mut self, verified: bool) -> (next: AfterAttempt)
        requires
            old(self)@.wf(),
            old(self)@.chunks.len() < old(self)@.total,
            !old(self)@.written,
        ensures
            final(self)@.wf(),
            next@ == after_attempt(
                (old(self)@.attempts + 1) as u32,
                verified,
                old(self)@.chunks.len() as u32,
                old(self)@.total,
                old(self)@.config,
            ),
            final(self)@ == (SplitRunView {
                attempts: if next@ is Retry {
                    (old(self)@.attempts + 1) as u32
                } else {
                    old(self)@.attempts
                },
                written: next@ is Done,
                ..old(self)@
            }),
    {
        let index: u32 = self.chunks.len() as u32;
        proof {
            lemma_below_total(
                self.file_size as int,
                self.config.chunk_size as int,
                index as int,
            );
        }
        let attempt: u32 = self.attempts + 1;
        let next = decide_after_attempt(attempt, verified, index, self.total, &self.config);
        match next {
            AfterAttempt::Done => {
                self.written = true;
            },
            AfterAttempt::Retry { .. } => {
                self.attempts = attempt;
            },
            AfterAttempt::GiveUp(_) => {},
        }
        next
    }

    /// Records the next chunk, an attempt at which has verified and which has been read back once
    /// more, and gives the progress.
    pub fn completed(&mut self, path: String, checksum: String, verified: bool) -> (p: ProgressInfo)
        requires
            old(self)@.wf(),
            old(self)@.chunks.len() < old(self)@.total,
            old(self)@.written,
        ensures
            final(self)@.wf(),
            final(self)@ == (SplitRunView {
                chunks: old(self)@.chunks.push(
                    ChunkView {
                        index: old(self)@.chunks.len() as u32,
                        path: path@,
                        size: (chunk_end(
                            old(self)@.file_size as int,
                            old(self)@.config.chunk_size as int,
                            old(self)@.chunks.len() as int,
                        ) - chunk_start(
                            old(self)@.config.chunk_size as int,
                            old(self)@.chunks.len() as int,
                        )) as u64,
                        checksum: checksum@,
                        verified,
                    },
                ),
                attempts: 0,
                written: false,
                ..old(self)@
            }),
            p@ == (ProgressView {
                phase: "copy"@,
                chunk: (old(self)@.chunks.len() + 1) as u32,
                total_chunks: old(self)@.total,
                pct: ((old(self)@.chunks.len() + 1) * 100 / old(self)@.total as nat) as u8,
                speed: Seq::empty(),
            }),
    {
        let index: u32 = self.chunks.len() as u32;
        proof {
            lemma_below_total(
                self.file_size as int,
                self.config.chunk_size as int,
                index as int,
            );
        }
        let (_start, size) = chunk_span(self.file_size, self.config.chunk_size, index);
        let ghost before = self@.chunks;
        self.chunks.push(ChunkResult { index, path, size, checksum, verified });
        self.attempts = 0;
        self.written = false;
        assert(self@.chunks =~= before.push(self.chunks@[index as int]@));
        chunk_progress(index, self.total)
    }

    /// The outcome once all chunks are there.
    pub fn finish(self) -> (result: SplitResult)
        requires
            self@.wf(),
            self@.chunks.len() == self@.total,
        ensures
            result@ == (SplitResultView {
                success: true,
                chunks: self@.chunks,
                total_size: self@.file_size,
                error: None,
                warnings: Seq::empty(),
            }),
    {
        let result = SplitResult {
            success: true,
            chunks: self.chunks,
            total_size: self.file_size,
            error: None,
            warnings: Vec::new(),
        };
        assert(result@.warnings =~= Seq::empty());
        result
    }
}

/// The progress once an image has been copied whole.
pub fn nosplit_progress() -> (p: ProgressInfo)
    ensures
        p@ == (ProgressView {
            phase: "copy"@,
            chunk: 1,
            total_chunks: 1,
            pct: 100,
            speed: Seq::empty(),
        }),
{
    ProgressInfo {
        phase: "copy".to_owned(),
        chunk: 1,
        total_chunks: 1,
        pct: 100,
        speed: String::new(),
    }
}

/// The outcome of copying an image whole to `path`.
pub fn copy_iso_nosplit(path: String, file_size: u64, checksum: String, verified: bool) -> (r:
    SplitResult)
    ensures
        r@ == (SplitResultView {
            success: true,
            chunks: seq![
                ChunkView {
                    index: 0,
                    path: path@,
                    size: file_size,
                    checksum: checksum@,
                    verified,
                },
            ],
            total_size: file_size,
            error: None,
            warnings: Seq::empty(),
        }),
{
    let mut chunks: Vec<ChunkResult> = Vec::new();
    chunks.push(ChunkResult { index: 0, path, size: file_size, checksum, verified });
    let result = SplitResult {
        success: true,
        chunks,
        total_size: file_size,
        error: None,
        warnings: Vec::new(),
    };
    assert(result@.warnings =~= Seq::empty());
    result
}

// ---------------------------------------------------------------- laws

/// The chunks of an image are as many as needed, follow one another without gap or overlap from
/// its first byte to its last, and each is neither empty nor larger than the chunk size.
pub proof fn law_chunks_cover(file_size: int, chunk_size: int, idx: int)
    requires
        0 < chunk_size,
        0 < file_size,
        0 <= idx < chunks_needed(file_size, chunk_size),
    ensures
        chunk_start(chunk_size, 0) == 0,
        chunk_start(chunk_size, idx) < chunk_end(file_size, chunk_size, idx),
        chunk_end(file_size, chunk_size, idx) - chunk_start(chunk_size, idx) <= chunk_size,
        idx + 1 < chunks_needed(file_size, chunk_size) ==> chunk_end(file_size, chunk_size, idx)
            == chunk_start(chunk_size, idx + 1),
        idx + 1 == chunks_needed(file_size, chunk_size) ==> chunk_end(file_size, chunk_size, idx)
            == file_size,
{
    let n = chunks_needed(file_size, chunk_size);
    let sum = file_size + chunk_size - 1;
    vstd::arithmetic::div_mod::lemma_fundamental_div_mod(sum, chunk_size);
    vstd::arithmetic::div_mod::lemma_mod_bound(sum, chunk_size);
    assert(n * chunk_size <= sum < n * chunk_size + chunk_size) by (nonlinear_arith)
        requires
            sum == chunk_size * n + sum % chunk_size,
            0 <= sum % chunk_size < chunk_size,
    ;
    assert(idx * chunk_size <= (n - 1) * chunk_size) by (nonlinear_arith)
        requires
            0 <= idx <= n - 1,
            0 < chunk_size,
    ;
    assert((n - 1) * chunk_size == n * chunk_size - chunk_size) by (nonlinear_arith);
    assert((idx + 1) * chunk_size == idx * chunk_size + chunk_size) by (nonlinear_arith);
    if idx + 1 < n {
        assert((idx + 1) * chunk_size <= (n - 1) * chunk_size) by (nonlinear_arith)
            requires
                0 <= idx + 1 <= n - 1,
                0 < chunk_size,
        ;
    }
}

/// The sizes of the first `n` chunks.
pub open spec fn sizes_before(file_size: int, chunk_size: int, n: int) -> int
    decreases n,
{
    if n <= 0 {
        0
    } else {
        sizes_before(file_size, chunk_size, n - 1) + chunk_end(file_size, chunk_size, n - 1)
            - chunk_start(chunk_size, n - 1)
    }
}

/// The first chunks together reach as far as the last of them.
proof fn lemma_sizes_before(file_size: int, chunk_size: int, n: int)
    requires
        0 < chunk_size,
        0 < file_size,
        0 < n <= chunks_needed(file_size, chunk_size),
    ensures
        sizes_before(file_size, chunk_size, n) == chunk_end(file_size, chunk_size, n - 1),
    decreases n,
{
    law_chunks_cover(file_size, chunk_size, n - 1);
    if n > 1 {
        lemma_sizes_before(file_size, chunk_size, n - 1);
        law_chunks_cover(file_size, chunk_size, n - 2);
    } else {
        assert(sizes_before(file_size, chunk_size, 0) == 0);
    }
}

/// The chunks of an image together have its size.
pub proof fn law_sizes_add_up(file_size: int, chunk_size: int)
    requires
        0 < chunk_size,
        0 < file_size,
    ensures
        sizes_before(file_size, chunk_size, chunks_needed(file_size, chunk_size)) == file_size,
{
    let n = chunks_needed(file_size, chunk_size);
    assert(n > 0) by (nonlinear_arith)
        requires
            n == (file_size + chunk_size - 1) / chunk_size,
            0 < chunk_size,
            0 < file_size,
    ;
    lemma_sizes_before(file_size, chunk_size, n);
    law_chunks_cover(file_size, chunk_size, n - 1);
}

/// The sizes of some chunks together.
pub open spec fn sum_of_sizes(chunks: Seq<ChunkView>) -> int
    decreases chunks.len(),
{
    if chunks.len() == 0 {
        0
    } else {
        sum_of_sizes(chunks.drop_last()) + chunks.last().size
    }
}

/// The chunks that are there add up to the first chunks of the image.
proof fn lemma_sum_so_far(run: SplitRunView, n: int)
    requires
        run.wf(),
        0 <= n <= run.chunks.len(),
    ensures
        sum_of_sizes(run.chunks.take(n)) == sizes_before(
            run.file_size as int,
            run.config.chunk_size as int,
            n,
        ),
    decreases n,
{
    if n > 0 {
        lemma_sum_so_far(run, n - 1);
        assert(run.chunks.take(n).drop_last() =~= run.chunks.take(n - 1));
        assert(run.chunks.take(n).last() == run.chunks[n - 1]);
    }
}

/// Once the last chunk is there, the chunks hold the whole image.
pub proof fn law_finished_run_holds_image(run: SplitRunView)
    requires
        run.wf(),
        run.chunks.len() == run.total,
    ensures
        sum_of_sizes(run.chunks) == run.file_size,
{
    let size = run.config.chunk_size as int;
    let n = chunks_needed(run.file_size as int, size);
    lemma_sum_so_far(run, n);
    assert(run.chunks.take(n) =~= run.chunks);
    law_sizes_add_up(run.file_size as int, size);
}

/// The progress after the last chunk is complete.
pub proof fn law_progress_ends_at_100(total: u32)
    requires
        total > 0,
    ensures
        total * 100 / total as int == 100,
{
    assert(total * 100 / total as int == 100) by (nonlinear_arith)
        requires
            total > 0,
    ;
}

/// A chunk of the default size fits a FAT32 file.
pub proof fn law_default_fits_fat32(file_size: int, idx: int)
    requires
        0 < file_size,
        0 <= idx < chunks_needed(file_size, DEFAULT_CHUNK_SIZE as int),
    ensures
        chunk_end(file_size, DEFAULT_CHUNK_SIZE as int, idx) - chunk_start(
            DEFAULT_CHUNK_SIZE as int,
            idx,
        ) <= 0xFFFF_FFFF,
{
    law_chunks_cover(file_size, DEFAULT_CHUNK_SIZE as int, idx);
}

/// No chunk is tried more often than the limit allows, and at least once; a chunk that is not
/// given up has been verified.
pub proof fn law_attempts_are_bounded(
    attempt: u32,
    verified: bool,
    idx: u32,
    total_chunks: u32,
    config: SplitConfig,
)
    requires
        attempt >= 1,
    ensures
        after_attempt(attempt, verified, idx, total_chunks, config) is Retry ==> attempt
            < config.max_retries && !verified,
        after_attempt(attempt, verified, idx, total_chunks, config) is Done <==> verified,
{
}

/// Chunks of one game with different indices have different names.
pub proof fn law_part_names_differ(crc_hex: Seq<char>, game_id: Seq<char>, a: u32, b: u32)
    requires
        chunk_name(crc_hex, game_id, a) == chunk_name(crc_hex, game_id, b),
    ensures
        a == b,
{
    let head = "ul."@ + crc_hex + "."@ + game_id + "."@;
    let x = hex_upper(a as nat, 2);
    let y = hex_upper(b as nat, 2);
    assert((head + x).skip(head.len() as int) =~= x);
    assert((head + y).skip(head.len() as int) =~= y);
    crate::text::law_hex_round_trip(a, 2);
    crate::text::law_hex_round_trip(b, 2);
}

/// As many chunks are needed as hold the whole image: one fewer would not.
pub proof fn law_chunks_needed(file_size: int, chunk_size: int)
    requires
        0 < chunk_size,
        0 <= file_size,
    ensures
        chunks_needed(file_size, chunk_size) * chunk_size >= file_size,
        (chunks_needed(file_size, chunk_size) - 1) * chunk_size < file_size,
{
    let n = chunks_needed(file_size, chunk_size);
    let sum = file_size + chunk_size - 1;
    vstd::arithmetic::div_mod::lemma_fundamental_div_mod(sum, chunk_size);
    vstd::arithmetic::div_mod::lemma_mod_bound(sum, chunk_size);
    assert(n * chunk_size <= sum < n * chunk_size + chunk_size) by (nonlinear_arith)
        requires
            sum == chunk_size * n + sum % chunk_size,
            0 <= sum % chunk_size < chunk_size,
    ;
    assert((n - 1) * chunk_size == n * chunk_size - chunk_size) by (nonlinear_arith);
}

/// Every chunk but the last has the chunk size, and each begins where the ones before it end.
pub proof fn law_full_chunks(file_size: int, chunk_size: int, idx: int)
    requires
        0 < chunk_size,
        0 < file_size,
        0 <= idx < chunks_needed(file_size, chunk_size),
    ensures
        chunk_start(chunk_size, idx) == idx * chunk_size,
        idx + 1 < chunks_needed(file_size, chunk_size) ==> chunk_end(file_size, chunk_size, idx)
            - chunk_start(chunk_size, idx) == chunk_size,
{
    law_chunks_cover(file_size, chunk_size, idx);
    assert((idx + 1) * chunk_size == idx * chunk_size + chunk_size) by (nonlinear_arith);
}

/// The sizes of chunks are summed up over all of them.
pub proof fn law_sum_of_sizes(a: Seq<ChunkView>, b: Seq<ChunkView>, chunk: ChunkView)
    ensures
        sum_of_sizes(a + b) == sum_of_sizes(a) + sum_of_sizes(b),
        sum_of_sizes(seq![chunk]) == chunk.size,
        sum_of_sizes(Seq::empty()) == 0,
    decreases b.len(),
{
    if b.len() == 0 {
        assert(a + b =~= a);
        reveal_with_fuel(sum_of_sizes, 2);
        assert(seq![chunk].drop_last() =~= Seq::empty() && seq![chunk].last() == chunk);
    } else {
        assert((a + b).drop_last() =~= a + b.drop_last());
        assert((a + b).last() == b.last());
        law_sum_of_sizes(a, b.drop_last(), chunk);
    }
}

/// A game that is not named by a checksum is one file `ul.<id>` where one chunk is enough, and
/// otherwise files `ul.<id>.<part>`, each with a name of its own.
pub proof fn law_plain_names(game_id: Seq<char>, total: u32, a: u32, b: u32)
    ensures
        split_name(ChunkNaming::Plain, game_id, 1, a) == "ul."@ + game_id,
        total != 1 ==> split_name(ChunkNaming::Plain, game_id, total, a) == "ul."@ + game_id + "."@
            + decimal_padded(a as nat, 2),
        total != 1 && a != b ==> split_name(ChunkNaming::Plain, game_id, total, a) != split_name(
            ChunkNaming::Plain,
            game_id,
            total,
            b,
        ),
{
    if total != 1 && split_name(ChunkNaming::Plain, game_id, total, a) == split_name(
        ChunkNaming::Plain,
        game_id,
        total,
        b,
    ) {
        let start = "ul."@ + game_id + "."@;
        let (x, y) = (decimal_padded(a as nat, 2), decimal_padded(b as nat, 2));
        assert(x =~= (start + x).skip(start.len() as int));
        assert(y =~= (start + y).skip(start.len() as int));
        law_decimal_tells_apart(a as nat, b as nat, 2);
    }
}

/// A game that is named by a checksum is files `ul.<checksum>.<id>.<part>`, also where it is one.
pub proof fn law_checksum_names(crc_hex: String, game_id: Seq<char>, total: u32, idx: u32)
    ensures
        split_name(ChunkNaming::Checksum(crc_hex), game_id, total, idx) == "ul."@ + crc_hex@ + "."@
            + game_id + "."@ + hex_upper(idx as nat, 2),
{
}

/// A whole image goes to `CD` where it is of a CD, and to `DVD` otherwise.
pub proof fn law_media_directory(media: u8)
    ensures
        media_directory(0x12) == "CD"@,
        media != 0x12 ==> media_directory(media) == "DVD"@,
{
}

/// A chunk that is not verified is tried again from its beginning until all attempts are used up,
/// and is then given up with an error that says so.
pub proof fn law_failed_attempt(attempt: u32, idx: u32, total_chunks: u32, config: SplitConfig)
    requires
        idx * config.chunk_size <= u64::MAX,
    ensures
        attempt >= config.max_retries ==> after_attempt(attempt, false, idx, total_chunks, config)
            == AfterAttemptView::GiveUp(
            SplitErrorView::MaxRetriesExceeded(config.max_retries, idx),
        ),
        attempt < config.max_retries ==> (after_attempt(attempt, false, idx, total_chunks, config)
            matches AfterAttemptView::Retry { progress, seek } && seek == idx * config.chunk_size
            && progress.phase == "retry"@ && progress.chunk == idx && progress.total_chunks
            == total_chunks && progress.pct == 0 && progress.speed == "Retry "@ + decimal(
            attempt as nat,
        ) + "/"@ + decimal(config.max_retries as nat)),
        after_attempt(attempt, true, idx, total_chunks, config) is Done,
{
}

/// An image can be split where its chunks can be counted.
pub proof fn law_splittable(file_size: u64, chunk_size: u64)
    ensures
        splittable(file_size, 0) == false,
        chunk_size > 0 && file_size + chunk_size <= u64::MAX && chunks_needed(
            file_size as int,
            chunk_size as int,
        ) <= 42_949_672 ==> splittable(file_size, chunk_size),
{
}

/// The model of a [`ChunkResult`] has all that it holds, and that of a list has every item at its
/// place.
pub proof fn law_model_of_chunk_result(result: ChunkResult, list: Seq<ChunkResult>, i: int)
    ensures
        result@.index == result.index,
        result@.path == result.path@,
        result@.size == result.size,
        result@.checksum == result.checksum@,
        result@.verified == result.verified,
        chunk_views(list).len() == list.len(),
        0 <= i < list.len() ==> chunk_views(list)[i] == list[i]@,
{
}

/// The model of a [`SplitResult`] has all that it holds.
pub proof fn law_model_of_split_result(result: SplitResult)
    ensures
        result@.success == result.success,
        result@.chunks == chunk_views(result.chunks@),
        result@.total_size == result.total_size,
        result@.error == optional_text(result.error),
        result@.warnings == texts(result.warnings@),
{
}

/// The model of a [`ProgressInfo`] has all that it holds.
pub proof fn law_model_of_progress_info(info: ProgressInfo)
    ensures
        info@.phase == info.phase@,
        info@.chunk == info.chunk,
        info@.total_chunks == info.total_chunks,
        info@.pct == info.pct,
        info@.speed == info.speed@,
{
}

} // verus!
