//! The checksum that Open PS2 Loader takes of a game's display name.
//!
//! The loader names the chunk files of a split game `ul.<checksum>.<game id>.<part>` and finds
//! them again by taking the checksum of the name in `ul.cfg`, so the two must agree to the bit.
//! It is a CRC with the polynomial `0x04C11DB7`, highest bit first, that starts from zero and
//! runs over the name and the null byte that ends it.

use crate::text::{
    digits,
    first_of,
    hex_upper,
    lemma_digits_chars,
    lemma_digits_len,
    lemma_first_of_unique,
    to_hex_upper,
    zero_padded,
};
use vstd::prelude::*;
use vstd::utf8::encode_utf8;

verus! {

/// The generator polynomial.
pub const POLYNOMIAL: u32 = 0x04C1_1DB7;

/// How many bytes of a name count.
pub const MAX_NAME: usize = 32;

/// One bit of polynomial division: the remainder moves up, and the polynomial is taken off where
/// a bit leaves at the top.
pub open spec fn shift_step(r: u32) -> u32 {
    if r >= 0x8000_0000 {
        (r << 1u32) ^ POLYNOMIAL
    } else {
        r << 1u32
    }
}

/// `n` bits of polynomial division.
pub open spec fn shift_steps(r: u32, n: nat) -> u32
    decreases n,
{
    if n == 0 {
        r
    } else {
        shift_step(shift_steps(r, (n - 1) as nat))
    }
}

/// The remainder of the byte `k` at the top of a word.
pub open spec fn table_entry(k: u32) -> u32 {
    shift_steps(k << 24u32, 8)
}

/// The checksum after one more byte.
pub open spec fn crc_step(crc: u32, b: u8) -> u32 {
    table_entry((b as u32) ^ (crc >> 24u32)) ^ (crc << 8u32)
}

/// The checksum `crc` continued over `bytes`.
pub open spec fn crc_over(crc: u32, bytes: Seq<u8>) -> u32
    decreases bytes.len(),
{
    if bytes.len() == 0 {
        crc
    } else {
        crc_step(crc_over(crc, bytes.drop_last()), bytes.last())
    }
}

/// At most the first 32 bytes of a name.
pub open spec fn name_field(name: Seq<char>) -> Seq<u8> {
    let bytes = encode_utf8(name);
    if bytes.len() > MAX_NAME {
        bytes.take(MAX_NAME as int)
    } else {
        bytes
    }
}

/// The bytes that the checksum runs over: the name field up to its first null byte, and a null
/// byte.
pub open spec fn hashed_bytes(name: Seq<char>) -> Seq<u8> {
    let field = name_field(name);
    field.take(first_of(field, 0u8)).push(0u8)
}

/// The checksum of a display name.
pub open spec fn name_crc(name: Seq<char>) -> u32 {
    crc_over(0, hashed_bytes(name))
}

/// The checksum as it stands in file names: eight upper-case hexadecimal digits.
pub open spec fn name_crc_hex(name: Seq<char>) -> Seq<char> {
    hex_upper(name_crc(name) as nat, 8)
}

/// Dividing a byte by taking the polynomial off where the top bit is clear gives what dividing
/// its complement in the usual way gives: the two remainders differ in the bits that have not
/// been shifted out yet, so one takes the polynomial off exactly when the other does.
proof fn lemma_complement_step(a: u32, b: u32, j: u32, next: u32)
    by (bit_vector)
    requires
        j < 8,
        next == j + 1,
        a ^ b == 0xFF00_0000u32 << j,
    ensures
        (a >= 0x8000_0000) != (b >= 0x8000_0000),
        a >= 0x8000_0000 ==> (a << 1u32) ^ (b << 1u32) == 0xFF00_0000u32 << next,
        b >= 0x8000_0000 ==> ((a << 1u32) ^ 0x04C1_1DB7u32) ^ ((b << 1u32) ^ 0x04C1_1DB7u32)
            == 0xFF00_0000u32 << next,
{
}

/// The remainders of all bytes.
///
/// The loader fills its table from the far end, and takes the polynomial off where the top bit
/// is clear; [`lemma_complement_step`] says why that is the table of the plain division.
fn table() -> (tab: Vec<u32>)
    ensures
        tab.len() == 256,
        forall|k: int| 0 <= k < 256 ==> #[trigger] tab@[k] == table_entry(k as u32),
{
    let mut tab: Vec<u32> = vec![0u32; 256];
    let mut byte: u32 = 0;
    while byte < 256
        invariant
            byte <= 256,
            tab.len() == 256,
            forall|k: int| 256 - byte <= k < 256 ==> #[trigger] tab@[k] == table_entry(k as u32),
        decreases 256 - byte,
    {
        let at: u32 = 255 - byte;
        let mut crc: u32 = byte << 24u32;
        let mut j: u32 = 0;
        assert((byte << 24u32) ^ (at << 24u32) == 0xFF00_0000u32 << 0u32) by (bit_vector)
            requires
                byte < 256,
                at == 255 - byte,
        ;
        while j < 8
            invariant
                j <= 8,
                crc ^ shift_steps(at << 24u32, j as nat) == 0xFF00_0000u32 << j,
            decreases 8 - j,
        {
            proof {
                lemma_complement_step(crc, shift_steps(at << 24u32, j as nat), j, (j + 1) as u32);
            }
            if crc >= 0x8000_0000 {
                crc = crc << 1u32;
            } else {
                crc = (crc << 1u32) ^ POLYNOMIAL;
            }
            j += 1;
        }
        let ghost plain = shift_steps(at << 24u32, 8);
        assert(crc == plain) by (bit_vector)
            requires
                crc ^ plain == 0xFF00_0000u32 << 8u32,
        ;
        tab.set(at as usize, crc);
        byte += 1;
    }
    tab
}

/// The checksum of a game's display name.
pub fn crc32(name: &str) -> (crc: u32)
    ensures
        crc == name_crc(name@),
{
    let tab = table();
    let bytes = name.as_bytes();
    let mut crc: u32 = 0;
    let mut count: usize = 0;
    let ghost field = name_field(name@);
    while count < MAX_NAME && count < bytes.len() && bytes[count] != 0
        invariant
            tab.len() == 256,
            forall|k: int| 0 <= k < 256 ==> #[trigger] tab@[k] == table_entry(k as u32),
            bytes@ == encode_utf8(name@),
            field == name_field(name@),
            count <= MAX_NAME,
            count <= bytes.len(),
            forall|i: int| 0 <= i < count ==> field[i] != 0,
            crc == crc_over(0, field.take(count as int)),
        decreases bytes.len() - count,
    {
        let b: u8 = bytes[count];
        assert((b as u32) ^ (crc >> 24u32) < 256) by (bit_vector);
        assert(field[count as int] == b);
        assert(field.take(count + 1).drop_last() =~= field.take(count as int));
        crc = tab[((b as u32) ^ (crc >> 24u32)) as usize] ^ (crc << 8u32);
        count += 1;
    }
    proof {
        lemma_first_of_unique(field, 0u8, count as int);
        assert(hashed_bytes(name@).drop_last() =~= field.take(count as int));
    }
    assert((0u8 as u32) ^ (crc >> 24u32) < 256 && (0u8 as u32) ^ (crc >> 24u32) == crc >> 24u32)
        by (bit_vector);
    tab[(crc >> 24u32) as usize] ^ (crc << 8u32)
}

/// The checksum of a display name as it stands in chunk file names.
pub fn crc32_hex(name: &str) -> (hex: String)
    ensures
        hex@ == name_crc_hex(name@),
{
    to_hex_upper(crc32(name) as u64, 8)
}

/// The empty name has the checksum zero.
pub proof fn law_empty_name()
    ensures
        name_crc(Seq::empty()) == 0,
{
    let none = Seq::<char>::empty();
    assert(hashed_bytes(none) =~= seq![0u8]);
    assert(hashed_bytes(none).drop_last() =~= Seq::<u8>::empty());
    reveal_with_fuel(crc_over, 2);
    reveal_with_fuel(shift_steps, 9);
    assert((0u8 as u32) ^ (0u32 >> 24u32) == 0) by (bit_vector);
    assert(0u32 << 24u32 == 0 && 0u32 << 1u32 == 0 && 0u32 << 8u32 == 0 && 0u32 ^ 0u32 == 0)
        by (bit_vector);
}

/// The checksum in file names is always eight digits wide, with letters in upper case.
pub proof fn law_hex_form(name: Seq<char>)
    ensures
        name_crc_hex(name).len() == 8,
        forall|i: int|
            0 <= i < 8 ==> {
                let c = #[trigger] name_crc_hex(name)[i];
                '0' <= c <= '9' || 'A' <= c <= 'F'
            },
{
    let n = name_crc(name) as nat;
    assert(vstd::arithmetic::power::pow(16, 8) == 0x1_0000_0000) by {
        reveal(vstd::arithmetic::power::pow);
        reveal_with_fuel(vstd::arithmetic::power::pow, 9);
    }
    lemma_digits_len(n, 8, true);
    lemma_digits_chars(n, true);
    let s = digits(n, 16, true);
    assert(name_crc_hex(name) == zero_padded(s, 8));
    assert forall|i: int| 0 <= i < 8 implies {
        let c = #[trigger] name_crc_hex(name)[i];
        '0' <= c <= '9' || 'A' <= c <= 'F'
    } by {
        if i >= 8 - s.len() {
            assert(name_crc_hex(name)[i] == s[i - (8 - s.len())]);
        }
    }
}

/// Only the name field counts: names that begin with the same 32 bytes have the same checksum.
pub proof fn law_only_name_field(a: Seq<char>, b: Seq<char>)
    requires
        name_field(a) == name_field(b),
    ensures
        name_crc(a) == name_crc(b),
{
}

/// A bit of the division doubles the remainder; where that leaves a word, the polynomial is taken
/// off.
pub proof fn law_shift_step(r: u32)
    ensures
        r < 0x8000_0000 ==> shift_step(r) == 2 * r,
        r >= 0x8000_0000 ==> shift_step(r) == ((2 * r - 0x1_0000_0000) as u32) ^ 0x04C1_1DB7u32,
        shift_steps(r, 0) == r,
        shift_steps(r, 1) == shift_step(r),
{
    reveal_with_fuel(shift_steps, 2);
    let double = r << 1u32;
    assert(r < 0x8000_0000 ==> double == 2 * r) by (bit_vector)
        requires
            double == r << 1u32,
    ;
    assert(r >= 0x8000_0000 ==> double == 2 * r - 0x1_0000_0000) by (bit_vector)
        requires
            double == r << 1u32,
    ;
}

/// A checksum goes on over the parts of data one after the other.
pub proof fn law_crc_over(crc: u32, a: Seq<u8>, b: Seq<u8>)
    ensures
        crc_over(crc, a + b) == crc_over(crc_over(crc, a), b),
        crc_over(crc, Seq::empty()) == crc,
    decreases b.len(),
{
    if b.len() == 0 {
        assert(a + b =~= a);
    } else {
        assert((a + b).drop_last() =~= a + b.drop_last());
        assert((a + b).last() == b.last());
        law_crc_over(crc, a, b.drop_last());
    }
}

/// What is far from the top only moves up.
proof fn lemma_low_bits_move(r: u32, low: u32, n: nat)
    requires
        low < 0x0100_0000,
        n <= 8,
    ensures
        shift_steps(r ^ low, n) == shift_steps(r, n) ^ (low << (n as u32)),
    decreases n,
{
    if n == 0 {
        assert(low << 0u32 == low) by (bit_vector);
    } else {
        let m = (n - 1) as u32;
        let k = n as u32;
        lemma_low_bits_move(r, low, (n - 1) as nat);
        let a = shift_steps(r, (n - 1) as nat);
        assert(a >= 0x8000_0000 <==> (a ^ (low << m)) >= 0x8000_0000) by (bit_vector)
            requires
                low < 0x0100_0000,
                m < 8,
        ;
        assert(((a ^ (low << m)) << 1u32) == (a << 1u32) ^ (low << k)) by (bit_vector)
            requires
                k == m + 1,
                m < 8,
        ;
        assert((((a << 1u32) ^ (low << k)) ^ 0x04C1_1DB7u32) == ((a << 1u32) ^ 0x04C1_1DB7u32) ^ (
        low << k)) by (bit_vector);
    }
}

/// A byte is put on top of the remainder and divided bit by bit.
pub proof fn law_crc_bit_by_bit(crc: u32, b: u8)
    ensures
        crc_over(crc, seq![b]) == shift_steps(crc ^ ((b as u32) << 24u32), 8),
{
    reveal_with_fuel(crc_over, 2);
    assert(seq![b].drop_last() =~= Seq::empty() && seq![b].last() == b);
    let top = ((b as u32) ^ (crc >> 24u32)) << 24u32;
    let low = crc & 0x00FF_FFFFu32;
    let word = b as u32;
    assert(low < 0x0100_0000 && (((word ^ (crc >> 24u32)) << 24u32) ^ low) == crc ^ (word << 24u32)
        && low << 8u32 == crc << 8u32) by (bit_vector)
        requires
            low == crc & 0x00FF_FFFFu32,
    ;
    lemma_low_bits_move(top, low, 8);
}

/// The checksum of a name runs over its bytes, as far as 32 of them and the first null, and the
/// null byte that ends it.
pub proof fn law_name_crc(name: Seq<char>, bytes: Seq<u8>, rest: Seq<u8>)
    requires
        encode_utf8(name) == bytes + rest,
        !bytes.contains(0u8),
        bytes.len() <= 32,
        bytes.len() < 32 ==> rest.len() == 0 || rest[0] == 0,
    ensures
        name_crc(name) == crc_over(0, bytes.push(0u8)),
        name_crc_hex(name) == hex_upper(crc_over(0, bytes.push(0u8)) as nat, 8),
{
    let field = name_field(name);
    let n = bytes.len() as int;
    assert forall|i: int| 0 <= i < n implies field[i] != 0 by {
        assert(field[i] == bytes[i]);
        assert(bytes.contains(bytes[i]));
    }
    if n < field.len() {
        assert(field[n] == rest[0]);
    }
    lemma_first_of_unique(field, 0u8, n);
    assert(field.take(n) =~= bytes);
}

} // verus!
