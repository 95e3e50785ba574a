//! Checksums of chunks, taken block by block as a chunk is copied or read back.

use crate::text::{hex_lower, to_hex_lower};
use vstd::prelude::*;

verus! {

/// The ways to take a checksum.
#[derive(Debug, Clone, Copy, PartialEq, Eq)]
pub enum ChecksumAlgo {
    Crc32,
    Xxhash,
    Sha256,
}

// ---------------------------------------------------------------- the hash functions

/// The running CRC-32 of the crate `crc32fast`.
#[verifier::external_type_specification]
#[verifier::external_body]
pub struct ExCrc32Hasher(crc32fast::Hasher);

/// The bytes that a running CRC-32 has taken in.
pub uninterp spec fn crc32_fed(hasher: crc32fast::Hasher) -> Seq<u8>;

/// The generator polynomial of CRC-32 (IEEE), lowest bit first.
pub const CRC32_POLYNOMIAL: u32 = 0xEDB8_8320;

/// One bit of the division: the remainder moves down, and the polynomial is taken off where a bit
/// leaves at the bottom.
pub open spec fn crc32_bit(r: u32) -> u32 {
    if r & 1u32 == 1u32 {
        (r >> 1u32) ^ CRC32_POLYNOMIAL
    } else {
        r >> 1u32
    }
}

/// `n` bits of the division.
pub open spec fn crc32_bits(r: u32, n: nat) -> u32
    decreases n,
{
    if n == 0 {
        r
    } else {
        crc32_bit(crc32_bits(r, (n - 1) as nat))
    }
}

/// The remainder after some bytes: all bits are set before the first byte.
pub open spec fn crc32_remainder(bytes: Seq<u8>) -> u32
    decreases bytes.len(),
{
    if bytes.len() == 0 {
        0xFFFF_FFFF
    } else {
        crc32_bits(crc32_remainder(bytes.drop_last()) ^ (bytes.last() as u32), 8)
    }
}

/// The CRC-32 (IEEE) of some bytes: the remainder with each bit turned over.
pub open spec fn crc32_ieee(bytes: Seq<u8>) -> u32 {
    crc32_remainder(bytes) ^ 0xFFFF_FFFFu32
}

/// `crc32fast::Hasher::new`: a hasher that has taken in nothing.
pub assume_specification[ crc32fast::Hasher::new ]() -> (hasher: crc32fast::Hasher)
    ensures
        crc32_fed(hasher) == Seq::<u8>::empty(),
;

/// `crc32fast::Hasher::update`: takes in more bytes. The crate counts them in 64 bits.
pub assume_specification[ crc32fast::Hasher::update ](hasher: &mut crc32fast::Hasher, buf: &[u8])
    requires
        crc32_fed(*old(hasher)).len() + buf@.len() <= u64::MAX,
    ensures
        crc32_fed(*final(hasher)) == crc32_fed(*old(hasher)) + buf@,
;

/// `crc32fast::Hasher::finalize`: the CRC-32 of all bytes taken in.
pub assume_specification[ crc32fast::Hasher::finalize ](hasher: crc32fast::Hasher) -> (crc: u32)
    ensures
        crc == crc32_ieee(crc32_fed(hasher)),
;

/// The running XXH3 of the crate `xxhash_rust`.
#[verifier::external_type_specification]
#[verifier::external_body]
pub struct ExXxh3(xxhash_rust::xxh3::Xxh3);

/// The bytes that a running XXH3 has taken in.
pub uninterp spec fn xxh3_fed(hasher: xxhash_rust::xxh3::Xxh3) -> Seq<u8>;

/// The 64-bit XXH3 hash of some bytes, with the default seed and secret.
pub uninterp spec fn xxh3(bytes: Seq<u8>) -> u64;

/// `xxhash_rust::xxh3::Xxh3::new`: a hasher with the default seed and secret that has taken in
/// nothing.
pub assume_specification[ xxhash_rust::xxh3::Xxh3::new ]() -> (hasher: xxhash_rust::xxh3::Xxh3)
    ensures
        xxh3_fed(hasher) == Seq::<u8>::empty(),
;

/// `xxhash_rust::xxh3::Xxh3::update`: takes in more bytes. The crate counts them in 64 bits.
pub assume_specification[ xxhash_rust::xxh3::Xxh3::update ](
    hasher: &mut xxhash_rust::xxh3::Xxh3,
    input: &[u8],
)
    requires
        xxh3_fed(*old(hasher)).len() + input@.len() <= u64::MAX,
    ensures
        xxh3_fed(*final(hasher)) == xxh3_fed(*old(hasher)) + input@,
;

/// `xxhash_rust::xxh3::Xxh3::digest`: the 64-bit XXH3 hash of all bytes taken in, however they
/// were parted.
pub assume_specification[ xxhash_rust::xxh3::Xxh3::digest ](
    hasher: &xxhash_rust::xxh3::Xxh3,
) -> (hash: u64)
    ensures
        hash == xxh3(xxh3_fed(*hasher)),
;

/// The running SHA-256 of the crate `sha2`.
#[verifier::external_type_specification]
#[verifier::external_body]
pub struct ExSha256(sha2::Sha256);

/// The bytes that a running SHA-256 has taken in.
pub uninterp spec fn sha256_fed(hasher: sha2::Sha256) -> Seq<u8>;

/// The SHA-256 digest of some bytes.
pub uninterp spec fn sha256(bytes: Seq<u8>) -> Seq<u8>;

/// `sha2::Digest::new` for SHA-256: a hasher that has taken in nothing.
#[verifier::external_body]
fn sha256_new() -> (hasher: sha2::Sha256)
    ensures
        sha256_fed(hasher) == Seq::<u8>::empty(),
{
    <sha2::Sha256 as sha2::Digest>::new()
}

/// `sha2::Digest::update` for SHA-256: takes in more bytes. The crate counts blocks of 64 bytes
/// in 64 bits.
#[verifier::external_body]
fn sha256_update(hasher: &mut sha2::Sha256, data: &[u8])
    requires
        sha256_fed(*old(hasher)).len() + data@.len() < 0x2000_0000_0000_0000,
    ensures
        sha256_fed(*final(hasher)) == sha256_fed(*old(hasher)) + data@,
{
    sha2::Digest::update(hasher, data)
}

/// `sha2::Digest::finalize` for SHA-256: the 32 bytes of the digest of all bytes taken in. The
/// crate writes their number of bits in 64 bits.
#[verifier::external_body]
fn sha256_finalize(hasher: sha2::Sha256) -> (digest: Vec<u8>)
    requires
        sha256_fed(hasher).len() < 0x2000_0000_0000_0000,
    ensures
        digest@ == sha256(sha256_fed(hasher)),
        digest@.len() == 32,
{
    sha2::Digest::finalize(hasher).to_vec()
}

/// Bytes in lower-case hexadecimal, two digits each.
pub open spec fn hex_of(bytes: Seq<u8>) -> Seq<char>
    decreases bytes.len(),
{
    if bytes.len() == 0 {
        seq![]
    } else {
        hex_of(bytes.drop_last()) + hex_lower(bytes.last() as nat, 2)
    }
}

/// `hex::encode`: each byte as two lower-case hexadecimal digits.
#[verifier::external_body]
fn hex_encode(bytes: &[u8]) -> (s: String)
    ensures
        s@ == hex_of(bytes@),
{
    hex::encode(bytes)
}

// ---------------------------------------------------------------- checksums of blocks

/// All bytes of some blocks.
pub open spec fn joined(blocks: Seq<Seq<u8>>) -> Seq<u8>
    decreases blocks.len(),
{
    if blocks.len() == 0 {
        seq![]
    } else {
        joined(blocks.drop_last()) + blocks.last()
    }
}

/// The checksum of data that comes in these blocks: it runs over all their bytes.
pub open spec fn checksum_of(algo: ChecksumAlgo, blocks: Seq<Seq<u8>>) -> Seq<char> {
    match algo {
        ChecksumAlgo::Crc32 => hex_lower(crc32_ieee(joined(blocks)) as nat, 8),
        ChecksumAlgo::Xxhash => hex_lower(xxh3(joined(blocks)) as nat, 16),
        ChecksumAlgo::Sha256 => hex_of(sha256(joined(blocks))),
    }
}

/// Whether an algorithm can count this many bytes.
pub open spec fn can_count(algo: ChecksumAlgo, len: nat) -> bool {
    match algo {
        ChecksumAlgo::Crc32 => len <= u64::MAX,
        ChecksumAlgo::Xxhash => len <= u64::MAX,
        ChecksumAlgo::Sha256 => len < 0x2000_0000_0000_0000,
    }
}

/// The state of the algorithm in use.
enum HashState {
    Crc32(crc32fast::Hasher),
    Xxhash(xxhash_rust::xxh3::Xxh3),
    Sha256(sha2::Sha256),
}

/// A checksum in the making.
pub struct ChunkHasher {
    state: HashState,
    fed: Ghost<Seq<Seq<u8>>>,
}

impl ChunkHasher {
    /// The algorithm in use.
    pub closed spec fn algo(self) -> ChecksumAlgo {
        match self.state {
            HashState::Crc32(_) => ChecksumAlgo::Crc32,
            HashState::Xxhash(_) => ChecksumAlgo::Xxhash,
            HashState::Sha256(_) => ChecksumAlgo::Sha256,
        }
    }

    /// The blocks taken in so far.
    pub closed spec fn blocks(self) -> Seq<Seq<u8>> {
        self.fed@
    }

    /// The state belongs to the blocks, and they can be counted.
    pub closed spec fn wf(self) -> bool {
        &&& can_count(self.algo(), joined(self.blocks()).len())
        &&& match self.state {
            HashState::Crc32(h) => crc32_fed(h) == joined(self.blocks()),
            HashState::Xxhash(h) => xxh3_fed(h) == joined(self.blocks()),
            HashState::Sha256(h) => sha256_fed(h) == joined(self.blocks()),
        }
    }

    /// A checksum of nothing yet.
    pub fn new(algo: ChecksumAlgo) -> (hasher: ChunkHasher)
        ensures
            hasher.wf(),
            hasher.algo() == algo,
            hasher.blocks() == Seq::<Seq<u8>>::empty(),
    {
        let state = match algo {
            ChecksumAlgo::Crc32 => HashState::Crc32(crc32fast::Hasher::new()),
            ChecksumAlgo::Xxhash => HashState::Xxhash(xxhash_rust::xxh3::Xxh3::new()),
            ChecksumAlgo::Sha256 => HashState::Sha256(sha256_new()),
        };
        ChunkHasher { state, fed: Ghost(Seq::empty()) }
    }

    /// Takes in one more block.
    pub fn update(&mut self, data: &[u8])
        requires
            old(self).wf(),
            can_count(old(self).algo(), joined(old(self).blocks()).len() + data@.len()),
        ensures
            final(self).wf(),
            final(self).algo() == old(self).algo(),
            final(self).blocks() == old(self).blocks().push(data@),
    {
        let ghost blocks = self.fed@.push(data@);
        assert(blocks.drop_last() =~= self.fed@);
        match &mut self.state {
            HashState::Crc32(h) => h.update(data),
            HashState::Xxhash(h) => h.update(data),
            HashState::Sha256(h) => sha256_update(h, data),
        }
        self.fed = Ghost(blocks);
    }

    /// The checksum of all blocks taken in.
    pub fn finalize(self) -> (checksum: String)
        requires
            self.wf(),
        ensures
            checksum@ == checksum_of(self.algo(), self.blocks()),
    {
        match self.state {
            HashState::Crc32(h) => to_hex_lower(h.finalize() as u64, 8),
            HashState::Xxhash(h) => to_hex_lower(h.digest(), 16),
            HashState::Sha256(h) => hex_encode(sha256_finalize(h).as_slice()),
        }
    }
}

/// How data is parted into blocks does not change its checksum, so a chunk that reads back the
/// same is found intact whatever the sizes of the reads.
pub proof fn law_blocks_do_not_matter(algo: ChecksumAlgo, a: Seq<Seq<u8>>, b: Seq<Seq<u8>>)
    requires
        joined(a) == joined(b),
    ensures
        checksum_of(algo, a) == checksum_of(algo, b),
{
}

/// Blocks are joined in their order, each of them.
pub proof fn law_joined(a: Seq<Seq<u8>>, b: Seq<Seq<u8>>, block: Seq<u8>)
    ensures
        joined(a + b) == joined(a) + joined(b),
        joined(seq![block]) == block,
        joined(Seq::empty()).len() == 0,
    decreases b.len(),
{
    if b.len() == 0 {
        assert(a + b =~= a);
        assert(joined(a) + joined(b) =~= joined(a));
        reveal_with_fuel(joined, 2);
        assert(seq![block].drop_last() =~= Seq::empty() && seq![block].last() == block);
        assert(joined(seq![block]) =~= block);
    } else {
        assert((a + b).drop_last() =~= a + b.drop_last());
        assert((a + b).last() == b.last());
        law_joined(a, b.drop_last(), block);
        assert(joined(a + b) =~= joined(a) + joined(b));
    }
}

/// Bytes are written in hexadecimal one after the other, two digits each.
pub proof fn law_hex_of(a: Seq<u8>, b: Seq<u8>, byte: u8)
    ensures
        hex_of(a + b) == hex_of(a) + hex_of(b),
        hex_of(seq![byte]) == hex_lower(byte as nat, 2),
        hex_of(Seq::empty()).len() == 0,
    decreases b.len(),
{
    if b.len() == 0 {
        assert(a + b =~= a);
        assert(hex_of(a) + hex_of(b) =~= hex_of(a));
        reveal_with_fuel(hex_of, 2);
        assert(seq![byte].drop_last() =~= Seq::empty() && seq![byte].last() == byte);
        assert(hex_of(seq![byte]) =~= hex_lower(byte as nat, 2));
    } else {
        assert((a + b).drop_last() =~= a + b.drop_last());
        assert((a + b).last() == b.last());
        law_hex_of(a, b.drop_last(), byte);
        assert(hex_of(a + b) =~= hex_of(a) + hex_of(b));
    }
}

/// The checksum of data is that of the algorithm in lower-case hexadecimal: eight digits of a
/// CRC-32, sixteen of an XXH3, two for each byte of a SHA-256; and it is the same where the data
/// comes in two blocks.
pub proof fn law_checksum(algo: ChecksumAlgo, a: Seq<u8>, b: Seq<u8>)
    ensures
        checksum_of(ChecksumAlgo::Crc32, seq![a]) == hex_lower(crc32_ieee(a) as nat, 8),
        checksum_of(ChecksumAlgo::Xxhash, seq![a]) == hex_lower(xxh3(a) as nat, 16),
        checksum_of(ChecksumAlgo::Sha256, seq![a]) == hex_of(sha256(a)),
        checksum_of(algo, seq![a, b]) == checksum_of(algo, seq![a + b]),
{
    law_joined(seq![a], seq![b], a);
    law_joined(seq![a], seq![b], b);
    law_joined(seq![a], seq![b], a + b);
    assert(seq![a, b] =~= seq![a] + seq![b]);
}

/// As many bytes can be taken in as 64 bits count: of bytes for CRC-32 and XXH3, of bits for
/// SHA-256.
pub proof fn law_can_count(len: nat)
    ensures
        can_count(ChecksumAlgo::Crc32, len) <==> len <= 0xFFFF_FFFF_FFFF_FFFF,
        can_count(ChecksumAlgo::Xxhash, len) <==> len <= 0xFFFF_FFFF_FFFF_FFFF,
        can_count(ChecksumAlgo::Sha256, len) <==> len * 8 <= 0xFFFF_FFFF_FFFF_FFFF,
{
}

} // verus!
