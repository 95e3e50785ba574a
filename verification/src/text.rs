//! Text as sequences of characters: searching, trimming, splitting into lines, and writing and
//! reading numbers.

use vstd::prelude::*;
use vstd::slice::slice_subrange;
use vstd::utf8::{
    decode_utf8,
    encode_utf8,
    encode_utf8_decode_utf8,
    encode_utf8_valid_utf8,
    valid_utf8,
};

verus! {

/// The text that `String::from_utf8_lossy` gives for bytes that are not well-formed UTF-8.
pub uninterp spec fn lossy_utf8(bytes: Seq<u8>) -> Seq<char>;

/// Bytes read as text: what they encode, where they are well-formed UTF-8.
pub open spec fn decoded(bytes: Seq<u8>) -> Seq<char> {
    if valid_utf8(bytes) {
        decode_utf8(bytes)
    } else {
        lossy_utf8(bytes)
    }
}

/// `String::from_utf8_lossy`: well-formed UTF-8 decodes to exactly the text that it encodes; in
/// other bytes each ill-formed part becomes the replacement character. Of those it is said here
/// only that a null character comes from a null byte alone.
#[verifier::external_body]
pub(crate) fn decode_lossy(bytes: &[u8]) -> (text: String)
    ensures
        text@ == (if valid_utf8(bytes@) {
            decode_utf8(bytes@)
        } else {
            lossy_utf8(bytes@)
        }),
        text@.contains('\0') ==> bytes@.contains(0u8),
{
    String::from_utf8_lossy(bytes).into_owned()
}

/// `String::push`: appends one character.
pub assume_specification[ String::push ](s: &mut String, c: char)
    ensures
        final(s)@ == old(s)@.push(c),
;

/// The characters of `s`.
pub(crate) fn to_chars(s: &str) -> (chars: Vec<char>)
    ensures
        chars@ == s@,
{
    let mut chars: Vec<char> = Vec::new();
    for c in iter: s.chars()
        invariant
            iter.seq() == s@,
            chars@ == s@.take(iter.index() as int),
    {
        chars.push(c);
    }
    chars
}

/// The string with exactly these characters.
pub(crate) fn from_chars(chars: &[char]) -> (s: String)
    ensures
        s@ == chars@,
{
    let mut s = String::new();
    let mut i: usize = 0;
    while i < chars.len()
        invariant
            i <= chars.len(),
            s@ == chars@.take(i as int),
        decreases chars.len() - i,
    {
        s.push(chars[i]);
        i += 1;
    }
    s
}

/// Whether two character slices hold the same text.
pub(crate) fn same_chars(a: &[char], b: &[char]) -> (same: bool)
    ensures
        same == (a@ == b@),
{
    if a.len() != b.len() {
        return false;
    }
    let mut i: usize = 0;
    while i < a.len()
        invariant
            i <= a.len(),
            a.len() == b.len(),
            forall|j: int| 0 <= j < i ==> a@[j] == b@[j],
        decreases a.len() - i,
    {
        if a[i] != b[i] {
            return false;
        }
        i += 1;
    }
    assert(a@ =~= b@);
    true
}

/// Whether two strings hold the same text.
pub(crate) fn same_text(a: &str, b: &str) -> (same: bool)
    ensures
        same == (a@ == b@),
{
    same_chars(to_chars(a).as_slice(), to_chars(b).as_slice())
}

/// The text of an optional string.
pub open spec fn optional_text(s: Option<String>) -> Option<Seq<char>> {
    match s {
        Some(t) => Some(t@),
        None => None,
    }
}

/// The texts of some strings.
pub open spec fn texts(strings: Seq<String>) -> Seq<Seq<char>> {
    Seq::new(strings.len(), |i: int| strings[i]@)
}

/// `s` without each `x` in it.
pub open spec fn without_char(s: Seq<char>, x: char) -> Seq<char>
    decreases s.len(),
{
    if s.len() == 0 {
        s
    } else if s.last() == x {
        without_char(s.drop_last(), x)
    } else {
        without_char(s.drop_last(), x).push(s.last())
    }
}

/// `s` without each `x` in it.
pub(crate) fn remove_char(s: &[char], x: char) -> (t: Vec<char>)
    ensures
        t@ == without_char(s@, x),
{
    let mut t: Vec<char> = Vec::new();
    let mut i: usize = 0;
    while i < s.len()
        invariant
            i <= s.len(),
            t@ == without_char(s@.take(i as int), x),
        decreases s.len() - i,
    {
        assert(s@.take(i + 1).drop_last() =~= s@.take(i as int));
        if s[i] != x {
            t.push(s[i]);
        }
        i += 1;
    }
    assert(s@.take(i as int) =~= s@);
    t
}

/// Whether two byte slices are the same.
pub(crate) fn same_bytes(a: &[u8], b: &[u8]) -> (same: bool)
    ensures
        same == (a@ == b@),
{
    if a.len() != b.len() {
        return false;
    }
    let mut i: usize = 0;
    while i < a.len()
        invariant
            i <= a.len(),
            a.len() == b.len(),
            forall|j: int| 0 <= j < i ==> a@[j] == b@[j],
        decreases a.len() - i,
    {
        if a[i] != b[i] {
            return false;
        }
        i += 1;
    }
    assert(a@ =~= b@);
    true
}

// ---------------------------------------------------------------- searching

/// How many elements of `s` stand before the first `x`: all of them where there is no `x`.
pub open spec fn first_of<T>(s: Seq<T>, x: T) -> int
    decreases s.len(),
{
    if s.len() == 0 || s[0] == x {
        0
    } else {
        1 + first_of(s.drop_first(), x)
    }
}

/// What [`first_of`] says of the elements of `s`.
pub proof fn lemma_first_of<T>(s: Seq<T>, x: T)
    ensures
        0 <= first_of(s, x) <= s.len(),
        forall|i: int| 0 <= i < first_of(s, x) ==> s[i] != x,
        first_of(s, x) < s.len() ==> s[first_of(s, x)] == x,
    decreases s.len(),
{
    if s.len() == 0 || s[0] == x {
    } else {
        let rest = s.drop_first();
        lemma_first_of(rest, x);
        assert forall|i: int| 0 <= i < first_of(s, x) implies s[i] != x by {
            if i > 0 {
                assert(s[i] == rest[i - 1]);
            }
        }
    }
}

/// The index that [`lemma_first_of`] describes is the only such index.
pub proof fn lemma_first_of_unique<T>(s: Seq<T>, x: T, k: int)
    requires
        0 <= k <= s.len(),
        forall|i: int| 0 <= i < k ==> s[i] != x,
        k < s.len() ==> s[k] == x,
    ensures
        first_of(s, x) == k,
{
    lemma_first_of(s, x);
    if first_of(s, x) < k {
        assert(s[first_of(s, x)] != x);
    }
}

/// The index of the last `x` in `s`, or `-1`.
pub open spec fn last_of<T>(s: Seq<T>, x: T) -> int
    decreases s.len(),
{
    if s.len() == 0 {
        -1
    } else if s.last() == x {
        s.len() - 1
    } else {
        last_of(s.drop_last(), x)
    }
}

/// What [`last_of`] says of the elements of `s`.
pub proof fn lemma_last_of<T>(s: Seq<T>, x: T)
    ensures
        -1 <= last_of(s, x) < s.len(),
        forall|i: int| last_of(s, x) < i < s.len() ==> s[i] != x,
        last_of(s, x) >= 0 ==> s[last_of(s, x)] == x,
    decreases s.len(),
{
    if s.len() == 0 || s.last() == x {
    } else {
        let rest = s.drop_last();
        lemma_last_of(rest, x);
        assert forall|i: int| last_of(s, x) < i < s.len() implies s[i] != x by {
            if i < s.len() - 1 {
                assert(s[i] == rest[i]);
            }
        }
    }
}

/// The index that [`lemma_last_of`] describes is the only such index.
pub proof fn lemma_last_of_unique<T>(s: Seq<T>, x: T, k: int)
    requires
        -1 <= k < s.len(),
        forall|i: int| k < i < s.len() ==> s[i] != x,
        k >= 0 ==> s[k] == x,
    ensures
        last_of(s, x) == k,
{
    lemma_last_of(s, x);
    if last_of(s, x) > k {
        assert(s[last_of(s, x)] != x);
    }
}

/// How many characters stand before the first `x`.
pub(crate) fn find_first(s: &[char], x: char) -> (k: usize)
    ensures
        k == first_of(s@, x),
{
    let mut k: usize = 0;
    while k < s.len() && s[k] != x
        invariant
            k <= s.len(),
            forall|i: int| 0 <= i < k ==> s@[i] != x,
        decreases s.len() - k,
    {
        k += 1;
    }
    proof {
        lemma_first_of_unique(s@, x, k as int);
    }
    k
}

/// The index of the last `x`.
pub(crate) fn find_last(s: &[char], x: char) -> (k: Option<usize>)
    ensures
        match k {
            Some(i) => i == last_of(s@, x),
            None => last_of(s@, x) == -1,
        },
{
    let mut k: usize = s.len();
    while k > 0
        invariant
            k <= s.len(),
            forall|i: int| k <= i < s.len() ==> s@[i] != x,
        decreases k,
    {
        if s[k - 1] == x {
            proof {
                lemma_last_of_unique(s@, x, k - 1);
            }
            return Some(k - 1);
        }
        k -= 1;
    }
    proof {
        lemma_last_of_unique(s@, x, -1);
    }
    None
}

/// Whether `p` stands in `s` at index `i`.
pub open spec fn occurs_at(s: Seq<char>, p: Seq<char>, i: int) -> bool {
    0 <= i && i + p.len() <= s.len() && s.subrange(i, i + p.len()) == p
}

/// Whether `s` begins with `p`.
pub open spec fn starts_with(s: Seq<char>, p: Seq<char>) -> bool {
    occurs_at(s, p, 0)
}

/// Whether `s` ends with `p`.
pub open spec fn ends_with(s: Seq<char>, p: Seq<char>) -> bool {
    occurs_at(s, p, s.len() - p.len())
}

/// Whether `p` stands anywhere in `s`.
pub open spec fn contains_text(s: Seq<char>, p: Seq<char>) -> bool {
    exists|i: int| occurs_at(s, p, i)
}

/// The least index from `from` on at which `p` stands in `s`.
pub open spec fn find_from(s: Seq<char>, p: Seq<char>, from: int) -> Option<int>
    decreases s.len() - from + 1,
{
    if from < 0 || from + p.len() > s.len() {
        None
    } else if occurs_at(s, p, from) {
        Some(from)
    } else {
        find_from(s, p, from + 1)
    }
}

/// The least index at which `p` stands in `s`.
pub open spec fn find_text(s: Seq<char>, p: Seq<char>) -> Option<int> {
    find_from(s, p, 0)
}

/// [`find_from`] finds the least occurrence, and finds one whenever there is one.
pub proof fn lemma_find_from(s: Seq<char>, p: Seq<char>, from: int)
    requires
        0 <= from,
    ensures
        match find_from(s, p, from) {
            Some(i) => from <= i && occurs_at(s, p, i) && forall|j: int|
                from <= j < i ==> !occurs_at(s, p, j),
            None => forall|j: int| from <= j ==> !occurs_at(s, p, j),
        },
    decreases s.len() - from + 1,
{
    if from + p.len() > s.len() || occurs_at(s, p, from) {
    } else {
        lemma_find_from(s, p, from + 1);
    }
}

/// Whether `p` stands in `s` at index `i`.
fn matches_at(s: &[char], p: &[char], i: usize) -> (found: bool)
    requires
        i + p.len() <= s.len(),
    ensures
        found == occurs_at(s@, p@, i as int),
{
    let mut j: usize = 0;
    while j < p.len()
        invariant
            j <= p.len(),
            i + p.len() <= s.len(),
            forall|k: int| 0 <= k < j ==> s@[i + k] == p@[k],
        decreases p.len() - j,
    {
        if s[i + j] != p[j] {
            assert(s@.subrange(i as int, i + p.len())[j as int] != p@[j as int]);
            return false;
        }
        j += 1;
    }
    assert(s@.subrange(i as int, i + p.len()) =~= p@);
    true
}

/// The least index at which `p` stands in `s`.
pub(crate) fn find(s: &[char], p: &[char]) -> (at: Option<usize>)
    ensures
        match at {
            Some(i) => find_text(s@, p@) == Some(i as int) && i + p.len() <= s.len(),
            None => find_text(s@, p@) is None,
        },
{
    if p.len() > s.len() {
        return None;
    }
    let last: usize = s.len() - p.len();
    let mut i: usize = 0;
    while i <= last
        invariant
            p.len() <= s.len(),
            last == s.len() - p.len(),
            i <= last + 1,
            find_text(s@, p@) == find_from(s@, p@, i as int),
        decreases last + 1 - i,
    {
        if matches_at(s, p, i) {
            return Some(i);
        }
        if i == last {
            return None;
        }
        i += 1;
    }
    None
}

/// Whether `p` stands anywhere in `s`.
pub(crate) fn contains(s: &[char], p: &str) -> (found: bool)
    ensures
        found == contains_text(s@, p@),
{
    let p = to_chars(p);
    proof {
        lemma_find_from(s@, p@, 0);
    }
    let at = find(s, p.as_slice());
    at.is_some()
}

/// Whether `s` begins with `p`.
pub(crate) fn has_prefix(s: &[char], p: &str) -> (b: bool)
    ensures
        b == starts_with(s@, p@),
{
    let p = to_chars(p);
    p.len() <= s.len() && matches_at(s, p.as_slice(), 0)
}

/// Whether `s` ends with `p`.
pub(crate) fn has_suffix(s: &[char], p: &str) -> (b: bool)
    ensures
        b == ends_with(s@, p@),
{
    let p = to_chars(p);
    p.len() <= s.len() && matches_at(s, p.as_slice(), s.len() - p.len())
}

// ---------------------------------------------------------------- trimming

/// Whether a character has the Unicode property `White_Space`, which 25 characters have.
pub open spec fn is_white_space(c: char) -> bool {
    ||| '\u{9}' <= c <= '\u{D}'
    ||| c == ' '
    ||| c == '\u{85}'
    ||| c == '\u{A0}'
    ||| c == '\u{1680}'
    ||| '\u{2000}' <= c <= '\u{200A}'
    ||| c == '\u{2028}'
    ||| c == '\u{2029}'
    ||| c == '\u{202F}'
    ||| c == '\u{205F}'
    ||| c == '\u{3000}'
}

/// `char::is_whitespace`: whether a character has the Unicode property `White_Space`.
pub assume_specification[ char::is_whitespace ](c: char) -> (b: bool)
    ensures
        b == is_white_space(c),
;

/// `s` without its leading white space.
pub open spec fn trim_start(s: Seq<char>) -> Seq<char>
    decreases s.len(),
{
    if s.len() > 0 && is_white_space(s[0]) {
        trim_start(s.drop_first())
    } else {
        s
    }
}

/// `s` without its trailing white space.
pub open spec fn trim_end(s: Seq<char>) -> Seq<char>
    decreases s.len(),
{
    if s.len() > 0 && is_white_space(s.last()) {
        trim_end(s.drop_last())
    } else {
        s
    }
}

/// `s` without the white space at either end.
pub open spec fn trimmed(s: Seq<char>) -> Seq<char> {
    trim_end(trim_start(s))
}

/// `s` without the run of `x` at its end.
pub open spec fn trim_end_char(s: Seq<char>, x: char) -> Seq<char>
    decreases s.len(),
{
    if s.len() > 0 && s.last() == x {
        trim_end_char(s.drop_last(), x)
    } else {
        s
    }
}

/// How many characters of `s` stand before its first white space.
pub open spec fn word_len(s: Seq<char>) -> int
    decreases s.len(),
{
    if s.len() == 0 || is_white_space(s[0]) {
        0
    } else {
        1 + word_len(s.drop_first())
    }
}

/// The first of the words that white space parts `s` into; empty where there is none.
pub open spec fn first_word(s: Seq<char>) -> Seq<char> {
    let t = trim_start(s);
    t.take(word_len(t))
}

/// `s` without its leading white space.
fn skip_white(s: &[char]) -> (t: &[char])
    ensures
        t@ == trim_start(s@),
{
    let mut i: usize = 0;
    assert(s@.skip(0) =~= s@);
    while i < s.len() && s[i].is_whitespace()
        invariant
            i <= s.len(),
            trim_start(s@) == trim_start(s@.skip(i as int)),
        decreases s.len() - i,
    {
        assert(s@.skip(i as int).drop_first() =~= s@.skip(i + 1));
        i += 1;
    }
    slice_subrange(s, i, s.len())
}

/// `s` without the white space at either end.
pub(crate) fn trim(s: &[char]) -> (t: &[char])
    ensures
        t@ == trimmed(s@),
{
    let s = skip_white(s);
    let mut n: usize = s.len();
    assert(s@.take(n as int) =~= s@);
    while n > 0 && s[n - 1].is_whitespace()
        invariant
            n <= s.len(),
            trim_end(s@) == trim_end(s@.take(n as int)),
        decreases n,
    {
        assert(s@.take(n as int).drop_last() =~= s@.take(n - 1));
        n -= 1;
    }
    slice_subrange(s, 0, n)
}

/// `s` without the run of `x` at its end.
pub(crate) fn trim_end_matches(s: &[char], x: char) -> (t: &[char])
    ensures
        t@ == trim_end_char(s@, x),
{
    let mut n: usize = s.len();
    assert(s@.take(n as int) =~= s@);
    while n > 0 && s[n - 1] == x
        invariant
            n <= s.len(),
            trim_end_char(s@, x) == trim_end_char(s@.take(n as int), x),
        decreases n,
    {
        assert(s@.take(n as int).drop_last() =~= s@.take(n - 1));
        n -= 1;
    }
    slice_subrange(s, 0, n)
}

/// The first of the words that white space parts `s` into; empty where there is none.
pub(crate) fn first_token(s: &[char]) -> (t: &[char])
    ensures
        t@ == first_word(s@),
{
    let s = skip_white(s);
    let mut n: usize = 0;
    assert(s@.skip(0) =~= s@);
    while n < s.len() && !s[n].is_whitespace()
        invariant
            n <= s.len(),
            word_len(s@) == n + word_len(s@.skip(n as int)),
        decreases s.len() - n,
    {
        assert(s@.skip(n as int).drop_first() =~= s@.skip(n + 1));
        n += 1;
    }
    slice_subrange(s, 0, n)
}

// ---------------------------------------------------------------- lines

/// A line without the carriage return that may end it.
pub open spec fn without_cr(line: Seq<char>) -> Seq<char> {
    if line.len() > 0 && line.last() == '\r' {
        line.drop_last()
    } else {
        line
    }
}

/// The lines of `s`, each without its line feed and a carriage return before that. Text after
/// the last line feed is a line of its own, kept whole, unless it is empty.
pub open spec fn lines(s: Seq<char>) -> Seq<Seq<char>>
    decreases s.len(),
{
    let k = first_of(s, '\n');
    if s.len() == 0 {
        seq![]
    } else if k < 0 || k >= s.len() {
        seq![s]
    } else {
        seq![without_cr(s.take(k))] + lines(s.skip(k + 1))
    }
}

/// `line` without the carriage return that may end it.
fn strip_cr(line: &[char]) -> (t: &[char])
    ensures
        t@ == without_cr(line@),
{
    if line.len() > 0 && line[line.len() - 1] == '\r' {
        slice_subrange(line, 0, line.len() - 1)
    } else {
        line
    }
}

/// The first line of a text, and the text after its line feed where it has one.
pub(crate) fn split_line(s: &[char]) -> (r: (&[char], Option<&[char]>))
    requires
        s.len() > 0,
    ensures
        match r.1 {
            Some(rest) => rest.len() < s.len() && lines(s@) == seq![r.0@] + lines(rest@),
            None => lines(s@) == seq![r.0@],
        },
{
    let k: usize = find_first(s, '\n');
    proof {
        lemma_first_of(s@, '\n');
    }
    if k >= s.len() {
        (s, None)
    } else {
        (strip_cr(slice_subrange(s, 0, k)), Some(slice_subrange(s, k + 1, s.len())))
    }
}

// ---------------------------------------------------------------- letter case

/// Whether a text is made of ASCII characters.
pub open spec fn is_ascii_text(s: Seq<char>) -> bool {
    forall|i: int| 0 <= i < s.len() ==> (#[trigger] s[i] as u32) < 128
}

/// An ASCII letter in lower case; any other character as it is.
pub open spec fn ascii_lower(c: char) -> char {
    if 'A' <= c <= 'Z' {
        (c as u32 + 32) as char
    } else {
        c
    }
}

/// An ASCII letter in upper case; any other character as it is.
pub open spec fn ascii_upper(c: char) -> char {
    if 'a' <= c <= 'z' {
        (c as u32 - 32) as char
    } else {
        c
    }
}

/// The text that `str::to_lowercase` gives for `s`.
pub uninterp spec fn lowercase(s: Seq<char>) -> Seq<char>;

/// `str::to_lowercase`: the Unicode lower case of the whole string, which changes only the
/// letters of an ASCII text. The mapping of other characters stays unsaid here.
#[verifier::external_body]
pub(crate) fn to_lowercase(s: &str) -> (t: String)
    ensures
        t@ == lowercase(s@),
        is_ascii_text(s@) ==> t@ == Seq::new(s@.len(), |i: int| ascii_lower(s@[i])),
{
    s.to_lowercase()
}

/// The text that `str::to_uppercase` gives for `s`.
pub uninterp spec fn uppercase(s: Seq<char>) -> Seq<char>;

/// `str::to_uppercase`: the Unicode upper case of the whole string, which changes only the
/// letters of an ASCII text. The mapping of other characters stays unsaid here.
#[verifier::external_body]
pub(crate) fn to_uppercase(s: &str) -> (t: String)
    ensures
        t@ == uppercase(s@),
        is_ascii_text(s@) ==> t@ == Seq::new(s@.len(), |i: int| ascii_upper(s@[i])),
{
    s.to_uppercase()
}

/// Whether a UTF-16 unit is the first half of a pair.
pub open spec fn is_high_surrogate(unit: u16) -> bool {
    0xD800 <= unit <= 0xDBFF
}

/// Whether a UTF-16 unit is the second half of a pair.
pub open spec fn is_low_surrogate(unit: u16) -> bool {
    0xDC00 <= unit <= 0xDFFF
}

/// UTF-16 units read as text: a pair of surrogates is one character, a surrogate that stands
/// alone becomes the replacement character, and any other unit is the character of its number.
pub open spec fn lossy_utf16(units: Seq<u16>) -> Seq<char>
    decreases units.len(),
{
    if units.len() == 0 {
        seq![]
    } else if is_high_surrogate(units[0]) && units.len() > 1 && is_low_surrogate(units[1]) {
        seq![(0x10000 + (units[0] - 0xD800) * 0x400 + (units[1] - 0xDC00)) as char] + lossy_utf16(
            units.skip(2),
        )
    } else if is_high_surrogate(units[0]) || is_low_surrogate(units[0]) {
        seq!['\u{FFFD}'] + lossy_utf16(units.skip(1))
    } else {
        seq![units[0] as char] + lossy_utf16(units.skip(1))
    }
}

/// `String::from_utf16_lossy`: reads UTF-16 units as text, with the replacement character for
/// each surrogate that has no other half.
#[verifier::external_body]
pub(crate) fn decode_utf16(units: &[u16]) -> (text: String)
    ensures
        text@ == lossy_utf16(units@),
{
    String::from_utf16_lossy(units)
}

// ---------------------------------------------------------------- numbers

/// The digit for the value `d`, which is less than 16.
pub open spec fn digit_char(d: nat, upper: bool) -> char {
    if d < 10 {
        (48 + d) as char
    } else if upper {
        (55 + d) as char
    } else {
        (87 + d) as char
    }
}

/// `n` written in base `base` without leading zeros.
pub open spec fn digits(n: nat, base: nat, upper: bool) -> Seq<char>
    decreases n,
{
    if n < base || base < 2 {
        seq![digit_char(n, upper)]
    } else {
        proof {
            assert(n / base < n) by (nonlinear_arith)
                requires
                    2 <= base <= n,
            ;
        }
        digits(n / base, base, upper).push(digit_char(n % base, upper))
    }
}

/// `s` with as many zeros before it as make it `width` characters wide.
pub open spec fn zero_padded(s: Seq<char>, width: nat) -> Seq<char> {
    if s.len() < width {
        Seq::new((width - s.len()) as nat, |i: int| '0') + s
    } else {
        s
    }
}

/// `n` in decimal.
pub open spec fn decimal(n: nat) -> Seq<char> {
    digits(n, 10, false)
}

/// `n` in decimal, at least `width` digits wide.
pub open spec fn decimal_padded(n: nat, width: nat) -> Seq<char> {
    zero_padded(digits(n, 10, false), width)
}

/// `n` in upper-case hexadecimal, at least `width` digits wide.
pub open spec fn hex_upper(n: nat, width: nat) -> Seq<char> {
    zero_padded(digits(n, 16, true), width)
}

/// `n` in lower-case hexadecimal, at least `width` digits wide.
pub open spec fn hex_lower(n: nat, width: nat) -> Seq<char> {
    zero_padded(digits(n, 16, false), width)
}

/// The digit for the value `d`.
fn digit(d: u64, upper: bool) -> (c: char)
    requires
        d < 16,
    ensures
        c == digit_char(d as nat, upper),
{
    let b: u8 = if d < 10 {
        48 + d as u8
    } else if upper {
        55 + d as u8
    } else {
        87 + d as u8
    };
    b as char
}

/// Appends `n` in base `base`.
fn push_digits(out: &mut Vec<char>, n: u64, base: u64, upper: bool)
    requires
        2 <= base <= 16,
    ensures
        final(out)@ == old(out)@ + digits(n as nat, base as nat, upper),
    decreases n,
{
    if n < base {
        out.push(digit(n, upper));
    } else {
        assert(n / base < n) by (nonlinear_arith)
            requires
                2 <= base <= n,
        ;
        push_digits(out, n / base, base, upper);
        out.push(digit(n % base, upper));
    }
}

/// `n` in base `base`, at least `width` digits wide.
fn number(n: u64, base: u64, upper: bool, width: usize) -> (s: String)
    requires
        2 <= base <= 16,
    ensures
        s@ == zero_padded(digits(n as nat, base as nat, upper), width as nat),
{
    let mut plain: Vec<char> = Vec::new();
    push_digits(&mut plain, n, base, upper);
    let mut out: Vec<char> = Vec::new();
    if plain.len() < width {
        let missing: usize = width - plain.len();
        let mut i: usize = 0;
        while i < missing
            invariant
                i <= missing,
                out@ == Seq::new(i as nat, |k: int| '0'),
            decreases missing - i,
        {
            out.push('0');
            i += 1;
        }
    }
    out.append(&mut plain);
    from_chars(out.as_slice())
}

/// `n` in decimal.
pub(crate) fn to_decimal(n: u64) -> (s: String)
    ensures
        s@ == decimal(n as nat),
{
    number(n, 10, false, 0)
}

/// `n` in decimal, at least `width` digits wide.
pub(crate) fn to_decimal_padded(n: u64, width: usize) -> (s: String)
    ensures
        s@ == decimal_padded(n as nat, width as nat),
{
    number(n, 10, false, width)
}

/// `n` in upper-case hexadecimal, at least `width` digits wide.
pub(crate) fn to_hex_upper(n: u64, width: usize) -> (s: String)
    ensures
        s@ == hex_upper(n as nat, width as nat),
{
    number(n, 16, true, width)
}

/// `n` in lower-case hexadecimal, at least `width` digits wide.
pub(crate) fn to_hex_lower(n: u64, width: usize) -> (s: String)
    ensures
        s@ == hex_lower(n as nat, width as nat),
{
    number(n, 16, false, width)
}

/// The value of a hexadecimal digit of either case.
pub open spec fn hex_digit_value(c: char) -> Option<nat> {
    if '0' <= c <= '9' {
        Some((c as nat - 48) as nat)
    } else if 'A' <= c <= 'F' {
        Some((c as nat - 55) as nat)
    } else if 'a' <= c <= 'f' {
        Some((c as nat - 87) as nat)
    } else {
        None
    }
}

/// The number that the hexadecimal digits `s` write; nothing where another character is among
/// them.
pub open spec fn hex_number(s: Seq<char>) -> Option<nat>
    decreases s.len(),
{
    if s.len() == 0 {
        Some(0nat)
    } else {
        match (hex_number(s.drop_last()), hex_digit_value(s.last())) {
            (Some(n), Some(d)) => Some(n * 16 + d),
            _ => None,
        }
    }
}

/// The 32-bit number that `s` writes: an optional `+`, then one hexadecimal digit or more.
pub open spec fn parse_hex_spec(s: Seq<char>) -> Option<u32> {
    let d = if s.len() > 1 && s[0] == '+' {
        s.drop_first()
    } else {
        s
    };
    match hex_number(d) {
        Some(n) => if d.len() > 0 && n <= u32::MAX {
            Some(n as u32)
        } else {
            None
        },
        None => None,
    }
}

/// More digits make no smaller number, and do not mend a bad digit.
proof fn lemma_hex_number_prefix(s: Seq<char>, k: int)
    requires
        0 <= k <= s.len(),
    ensures
        hex_number(s.take(k)) is None ==> hex_number(s) is None,
        hex_number(s) is Some ==> hex_number(s.take(k)) is Some && hex_number(s.take(k))->0
            <= hex_number(s)->0,
    decreases s.len() - k,
{
    if k == s.len() {
        assert(s.take(k) =~= s);
    } else {
        lemma_hex_number_prefix(s, k + 1);
        assert(s.take(k + 1).drop_last() =~= s.take(k));
    }
}

/// The value of a hexadecimal digit.
fn hex_digit(c: char) -> (d: Option<u64>)
    ensures
        match d {
            Some(v) => v < 16 && hex_digit_value(c) == Some(v as nat),
            None => hex_digit_value(c) is None,
        },
{
    if '0' <= c && c <= '9' {
        Some((c as u32 - 48) as u64)
    } else if 'A' <= c && c <= 'F' {
        Some((c as u32 - 55) as u64)
    } else if 'a' <= c && c <= 'f' {
        Some((c as u32 - 87) as u64)
    } else {
        None
    }
}

/// The 32-bit number that `s` writes in hexadecimal.
pub(crate) fn parse_hex(s: &[char]) -> (n: Option<u32>)
    ensures
        n == parse_hex_spec(s@),
{
    let d: &[char] = if s.len() > 1 && s[0] == '+' {
        assert(s@.subrange(1, s@.len() as int) =~= s@.drop_first());
        slice_subrange(s, 1, s.len())
    } else {
        s
    };
    if d.len() == 0 {
        return None;
    }
    let mut n: u64 = 0;
    let mut i: usize = 0;
    while i < d.len()
        invariant
            i <= d.len(),
            d.len() > 0,
            d@ == (if s@.len() > 1 && s@[0] == '+' {
                s@.drop_first()
            } else {
                s@
            }),
            n <= u32::MAX,
            hex_number(d@.take(i as int)) == Some(n as nat),
        decreases d.len() - i,
    {
        assert(d@.take(i + 1).drop_last() =~= d@.take(i as int));
        proof {
            lemma_hex_number_prefix(d@, i + 1);
        }
        match hex_digit(d[i]) {
            Some(v) => {
                n = n * 16 + v;
            },
            None => {
                return None;
            },
        }
        if n > u32::MAX as u64 {
            return None;
        }
        i += 1;
    }
    assert(d@.take(i as int) =~= d@);
    Some(n as u32)
}

/// A number of at most `width` hexadecimal digits is written with exactly `width` digits.
pub proof fn lemma_digits_len(n: nat, width: nat, upper: bool)
    requires
        width > 0,
        n < vstd::arithmetic::power::pow(16, width),
    ensures
        1 <= digits(n, 16, upper).len() <= width,
    decreases width,
{
    reveal(vstd::arithmetic::power::pow);
    if n >= 16 {
        if width == 1 {
            vstd::arithmetic::power::lemma_pow1(16);
        } else {
            let m = (width - 1) as nat;
            assert(vstd::arithmetic::power::pow(16, width) == 16 * vstd::arithmetic::power::pow(
                16,
                m,
            ));
            lemma_digits_len(n / 16, m, upper);
        }
    }
}

/// The characters that [`digits`] writes in base 16 are digits and letters of one case.
pub proof fn lemma_digits_chars(n: nat, upper: bool)
    ensures
        digits(n, 16, upper).len() >= 1,
        forall|i: int|
            0 <= i < digits(n, 16, upper).len() ==> {
                let c = #[trigger] digits(n, 16, upper)[i];
                '0' <= c <= '9' || (upper && 'A' <= c <= 'F') || (!upper && 'a' <= c <= 'f')
            },
    decreases n,
{
    if n >= 16 {
        lemma_digits_chars(n / 16, upper);
    }
}

/// Reading back what [`digits`] writes.
proof fn lemma_hex_number_digits(n: nat, upper: bool)
    ensures
        hex_number(digits(n, 16, upper)) == Some(n),
    decreases n,
{
    let s = digits(n, 16, upper);
    reveal_with_fuel(hex_number, 2);
    if n < 16 {
        assert(s.drop_last() =~= Seq::<char>::empty());
    } else {
        lemma_hex_number_digits(n / 16, upper);
        assert(s.drop_last() =~= digits(n / 16, 16, upper));
    }
}

/// Leading zeros do not change a number.
proof fn lemma_hex_number_zeros(zeros: Seq<char>, s: Seq<char>)
    requires
        forall|i: int| 0 <= i < zeros.len() ==> zeros[i] == '0',
    ensures
        hex_number(zeros + s) == hex_number(s),
    decreases zeros.len() + s.len(),
{
    if s.len() == 0 {
        if zeros.len() > 0 {
            lemma_hex_number_zeros(zeros.drop_last(), s);
            assert(zeros.drop_last() + s =~= zeros.drop_last());
            assert((zeros + s).drop_last() =~= zeros.drop_last());
        } else {
            assert(zeros + s =~= s);
        }
    } else {
        lemma_hex_number_zeros(zeros, s.drop_last());
        assert((zeros + s).drop_last() =~= zeros + s.drop_last());
    }
}

/// A number written in hexadecimal reads back as itself.
pub proof fn law_hex_round_trip(n: u32, width: nat)
    ensures
        parse_hex_spec(hex_upper(n as nat, width)) == Some(n),
        parse_hex_spec(hex_lower(n as nat, width)) == Some(n),
{
    assert forall|upper: bool|
        parse_hex_spec(#[trigger] zero_padded(digits(n as nat, 16, upper), width)) == Some(n) by {
        let s = digits(n as nat, 16, upper);
        let t = zero_padded(s, width);
        lemma_digits_chars(n as nat, upper);
        lemma_hex_number_digits(n as nat, upper);
        if s.len() < width {
            let zeros = Seq::new((width - s.len()) as nat, |i: int| '0');
            lemma_hex_number_zeros(zeros, s);
            assert(t[0] == '0');
        } else {
            assert(t[0] == s[0]);
        }
    }
}

// ---------------------------------------------------------------- laws

/// A text is contained in every text that is written around it, and in no other.
pub proof fn law_contains_text(s: Seq<char>, p: Seq<char>, a: Seq<char>, b: Seq<char>)
    ensures
        contains_text(a + p + b, p),
        contains_text(s, p) ==> exists|x: Seq<char>, y: Seq<char>| s == #[trigger] (x + p + y),
{
    assert((a + p + b).subrange(a.len() as int, (a.len() + p.len()) as int) =~= p);
    assert(occurs_at(a + p + b, p, a.len() as int));
    if contains_text(s, p) {
        let i = choose|i: int| occurs_at(s, p, i);
        let (x, y) = (s.take(i), s.skip(i + p.len()));
        assert(s =~= x + p + y);
    }
}

/// A text begins with what it is continued from, and ends with what continues it; and it is so
/// continued wherever it begins or ends with another.
pub proof fn law_prefix_and_suffix(s: Seq<char>, p: Seq<char>, b: Seq<char>)
    ensures
        starts_with(p + b, p),
        ends_with(b + p, p),
        starts_with(s, p) ==> s == p + s.skip(p.len() as int),
        ends_with(s, p) ==> s == s.take(s.len() - p.len()) + p,
{
    assert((p + b).subrange(0, p.len() as int) =~= p);
    assert((b + p).subrange((b + p).len() - p.len(), (b + p).len() as int) =~= p);
    if starts_with(s, p) {
        assert(s =~= p + s.skip(p.len() as int));
    }
    if ends_with(s, p) {
        assert(s =~= s.take(s.len() - p.len()) + p);
    }
}

/// A search finds the first place at which a text stands, and finds one wherever there is one.
pub proof fn law_find_text(s: Seq<char>, p: Seq<char>, a: Seq<char>, b: Seq<char>)
    requires
        s == a + p + b,
    ensures
        find_text(s, p) matches Some(i) && 0 <= i <= a.len() && s == s.take(i) + p + s.skip(
            i + p.len(),
        ) && forall|x: Seq<char>, y: Seq<char>| s == #[trigger] (x + p + y) ==> i <= x.len(),
{
    lemma_find_from(s, p, 0);
    assert(s.subrange(a.len() as int, (a.len() + p.len()) as int) =~= p);
    assert(occurs_at(s, p, a.len() as int));
    let i = find_text(s, p)->0;
    assert(s =~= s.take(i) + p + s.skip(i + p.len()));
    assert forall|x: Seq<char>, y: Seq<char>| s == #[trigger] (x + p + y) implies i <= x.len() by {
        assert(s.subrange(x.len() as int, (x.len() + p.len()) as int) =~= p);
        assert(occurs_at(s, p, x.len() as int));
    }
}

/// Whether every character of a text is white space.
pub open spec fn is_blank(s: Seq<char>) -> bool {
    forall|i: int| 0 <= i < s.len() ==> is_white_space(#[trigger] s[i])
}

/// Trimming takes the white space off both ends, and nothing else.
pub proof fn law_trimmed(a: Seq<char>, s: Seq<char>, b: Seq<char>)
    requires
        is_blank(a),
        is_blank(b),
        s.len() > 0 ==> !is_white_space(s[0]) && !is_white_space(s.last()),
    ensures
        trimmed(a + s + b) == s,
    decreases a.len() + b.len(),
{
    if s.len() == 0 {
        assert(a + s + b =~= a + b);
        assert(is_blank(a + b)) by {
            assert forall|i: int| 0 <= i < (a + b).len() implies is_white_space(
                #[trigger] (a + b)[i],
            ) by {
                if i < a.len() {
                    assert((a + b)[i] == a[i]);
                } else {
                    assert((a + b)[i] == b[i - a.len()]);
                }
            }
        }
        lemma_trim_start(a + b, Seq::empty());
        assert(a + b + Seq::<char>::empty() =~= a + b);
        assert(trimmed(a + b) =~= s);
    } else {
        assert(a + s + b =~= a + (s + b));
        lemma_trim_start(a, s + b);
        lemma_trim_end(s, b);
    }
}

/// Leading white space is taken off.
proof fn lemma_trim_start(a: Seq<char>, s: Seq<char>)
    requires
        is_blank(a),
        s.len() > 0 ==> !is_white_space(s[0]),
    ensures
        trim_start(a + s) == s,
    decreases a.len(),
{
    if a.len() == 0 {
        assert(a + s =~= s);
    } else {
        assert((a + s)[0] == a[0]);
        assert((a + s).drop_first() =~= a.drop_first() + s);
        assert forall|i: int| 0 <= i < a.drop_first().len() implies is_white_space(
            #[trigger] a.drop_first()[i],
        ) by {
            assert(a.drop_first()[i] == a[i + 1]);
        }
        lemma_trim_start(a.drop_first(), s);
    }
}

/// Trailing white space is taken off.
proof fn lemma_trim_end(s: Seq<char>, b: Seq<char>)
    requires
        is_blank(b),
        s.len() > 0 ==> !is_white_space(s.last()),
    ensures
        trim_end(s + b) == s,
    decreases b.len(),
{
    if b.len() == 0 {
        assert(s + b =~= s);
    } else {
        assert((s + b).last() == b[b.len() - 1]);
        assert((s + b).drop_last() =~= s + b.drop_last());
        assert forall|i: int| 0 <= i < b.drop_last().len() implies is_white_space(
            #[trigger] b.drop_last()[i],
        ) by {
            assert(b.drop_last()[i] == b[i]);
        }
        lemma_trim_end(s, b.drop_last());
    }
}

/// Every text is what trimming leaves of it, with white space around.
pub proof fn law_trimming_leaves_white_space(s: Seq<char>) -> (ends: (Seq<char>, Seq<char>))
    ensures
        s == ends.0 + trimmed(s) + ends.1,
        is_blank(ends.0),
        is_blank(ends.1),
{
    let (a, rest) = lemma_trim_start_split(s);
    let b = lemma_trim_end_split(rest);
    assert(s =~= a + trimmed(s) + b);
    (a, b)
}

/// What [`trim_start`] has taken off.
proof fn lemma_trim_start_split(s: Seq<char>) -> (r: (Seq<char>, Seq<char>))
    ensures
        s == r.0 + r.1,
        r.1 == trim_start(s),
        is_blank(r.0),
    decreases s.len(),
{
    if s.len() > 0 && is_white_space(s[0]) {
        let (a, rest) = lemma_trim_start_split(s.drop_first());
        let all = seq![s[0]] + a;
        assert(s =~= seq![s[0]] + s.drop_first());
        assert(seq![s[0]] + (a + rest) =~= all + rest);
        assert forall|i: int| 0 <= i < all.len() implies is_white_space(#[trigger] all[i]) by {
            if i > 0 {
                assert(all[i] == a[i - 1]);
            }
        }
        (all, rest)
    } else {
        let none = Seq::<char>::empty();
        assert(s =~= none + s);
        (none, s)
    }
}

/// What [`trim_end`] has taken off.
proof fn lemma_trim_end_split(s: Seq<char>) -> (b: Seq<char>)
    ensures
        s == trim_end(s) + b,
        is_blank(b),
    decreases s.len(),
{
    if s.len() > 0 && is_white_space(s.last()) {
        let rest = lemma_trim_end_split(s.drop_last());
        let all = rest.push(s.last());
        assert(s =~= s.drop_last().push(s.last()));
        assert((trim_end(s) + rest).push(s.last()) =~= trim_end(s) + all);
        assert forall|i: int| 0 <= i < all.len() implies is_white_space(#[trigger] all[i]) by {
            if i < rest.len() {
                assert(all[i] == rest[i]);
            }
        }
        all
    } else {
        let none = Seq::<char>::empty();
        assert(s =~= s + none);
        none
    }
}

/// The run of a character at the end of a text is taken off, and nothing else.
pub proof fn law_trim_end_char(s: Seq<char>, run: Seq<char>, x: char)
    requires
        s.len() > 0 ==> s.last() != x,
        forall|i: int| 0 <= i < run.len() ==> #[trigger] run[i] == x,
    ensures
        trim_end_char(s + run, x) == s,
    decreases run.len(),
{
    if run.len() == 0 {
        assert(s + run =~= s);
    } else {
        assert((s + run).last() == run[run.len() - 1]);
        assert((s + run).drop_last() =~= s + run.drop_last());
        assert forall|i: int| 0 <= i < run.drop_last().len() implies #[trigger] run.drop_last()[i]
            == x by {
            assert(run.drop_last()[i] == run[i]);
        }
        law_trim_end_char(s, run.drop_last(), x);
    }
}

/// The first word of a text is what stands between the white space before it and the next.
pub proof fn law_first_word(a: Seq<char>, word: Seq<char>, b: Seq<char>)
    requires
        is_blank(a),
        word.len() > 0,
        forall|i: int| 0 <= i < word.len() ==> !is_white_space(#[trigger] word[i]),
        b.len() > 0 ==> is_white_space(b[0]),
    ensures
        first_word(a + word + b) == word,
{
    assert(a + word + b =~= a + (word + b));
    assert((word + b)[0] == word[0]);
    lemma_trim_start(a, word + b);
    lemma_word_len(word, b);
    assert((word + b).take(word.len() as int) =~= word);
}

/// A word ends at the next white space.
proof fn lemma_word_len(word: Seq<char>, b: Seq<char>)
    requires
        forall|i: int| 0 <= i < word.len() ==> !is_white_space(#[trigger] word[i]),
        b.len() > 0 ==> is_white_space(b[0]),
    ensures
        word_len(word + b) == word.len(),
    decreases word.len(),
{
    if word.len() == 0 {
        assert(word + b =~= b);
    } else {
        assert((word + b)[0] == word[0]);
        assert((word + b).drop_first() =~= word.drop_first() + b);
        assert forall|i: int| 0 <= i < word.drop_first().len() implies !is_white_space(
            #[trigger] word.drop_first()[i],
        ) by {
            assert(word.drop_first()[i] == word[i + 1]);
        }
        lemma_word_len(word.drop_first(), b);
    }
}

/// Taking a character out of a text takes it out of each of its parts, and leaves every other
/// character where it is.
pub proof fn law_without_char(a: Seq<char>, b: Seq<char>, c: char, x: char)
    ensures
        without_char(a + b, x) == without_char(a, x) + without_char(b, x),
        without_char(seq![c], x) == (if c == x {
            Seq::<char>::empty()
        } else {
            seq![c]
        }),
        without_char(Seq::empty(), x) == Seq::<char>::empty(),
    decreases b.len(),
{
    assert(seq![c].drop_last() =~= Seq::empty());
    reveal_with_fuel(without_char, 2);
    if b.len() == 0 {
        assert(a + b =~= a);
    } else {
        assert((a + b).drop_last() =~= a + b.drop_last());
        assert((a + b).last() == b.last());
        law_without_char(a, b.drop_last(), c, x);
        assert(without_char(a + b, x) =~= without_char(a, x) + without_char(b, x));
    }
}

/// A text is parted into lines at its line feeds; a carriage return before one belongs to it.
pub proof fn law_lines(line: Seq<char>, rest: Seq<char>)
    requires
        !line.contains('\n'),
    ensures
        lines(line + seq!['\n'] + rest) == seq![
            if line.len() > 0 && line.last() == '\r' {
                line.drop_last()
            } else {
                line
            },
        ] + lines(rest),
        line.len() > 0 ==> lines(line) == seq![line],
        lines(Seq::empty()) == Seq::<Seq<char>>::empty(),
{
    let s = line + seq!['\n'] + rest;
    let k = line.len() as int;
    assert forall|i: int| 0 <= i < k implies s[i] != '\n' && line[i] != '\n' by {
        assert(s[i] == line[i]);
        assert(line.contains(line[i]));
    }
    assert(s[k] == '\n');
    lemma_first_of_unique(s, '\n', k);
    lemma_first_of_unique(line, '\n', k);
    assert(s.take(k) =~= line);
    assert(s.skip(k + 1) =~= rest);
}

/// The digits of a number are those of its tenth, and its last digit.
pub proof fn law_decimal(n: nat, d: nat)
    requires
        d < 10,
    ensures
        decimal(d) == seq![(48 + d) as char],
        n > 0 ==> decimal(10 * n + d) == decimal(n).push((48 + d) as char),
{
    assert((10 * n + d) / 10 == n && (10 * n + d) % 10 == d);
    reveal_with_fuel(digits, 2);
}

/// The hexadecimal digits of a number are those of its sixteenth, and its last digit: `0` to `9`
/// and then letters.
pub proof fn law_hexadecimal(n: nat, d: nat, upper: bool)
    requires
        d < 16,
    ensures
        ({
            let c = if d < 10 {
                (48 + d) as char
            } else if upper {
                (55 + d) as char
            } else {
                (87 + d) as char
            };
            &&& digits(d, 16, upper) == seq![c]
            &&& n > 0 ==> digits(16 * n + d, 16, upper) == digits(n, 16, upper).push(c)
        }),
{
    assert((16 * n + d) / 16 == n && (16 * n + d) % 16 == d);
    reveal_with_fuel(digits, 2);
}

/// Padding puts zeros before a number that is too short, and changes no other.
pub proof fn law_zero_padded(s: Seq<char>, width: nat, i: int)
    requires
        0 <= i,
    ensures
        s.len() >= width ==> zero_padded(s, width) == s,
        s.len() < width ==> zero_padded(s, width).len() == width,
        s.len() < width && i < width - s.len() ==> zero_padded(s, width)[i] == '0',
        s.len() < width && width - s.len() <= i < width ==> zero_padded(s, width)[i] == s[i - (width
            - s.len())],
{
}

/// Whether a character is a hexadecimal digit.
pub open spec fn is_hex_digit(c: char) -> bool {
    '0' <= c <= '9' || 'A' <= c <= 'F' || 'a' <= c <= 'f'
}

/// Only a text of hexadecimal digits, after a plus sign or without one, is read as a number; one
/// more digit makes it sixteen times as large and adds to it.
pub proof fn law_hex_reading(s: Seq<char>, c: char)
    ensures
        parse_hex_spec(s) is Some ==> s.len() > 0 && forall|i: int|
            1 <= i < s.len() ==> is_hex_digit(#[trigger] s[i]),
        parse_hex_spec(s) is Some && s.len() == 1 ==> is_hex_digit(s[0]),
        hex_number(s) is Some && is_hex_digit(c) ==> hex_number(s.push(c)) == Some(
            (hex_number(s)->0 * 16 + (if c <= '9' {
                c as nat - 48
            } else if c <= 'F' {
                c as nat - 55
            } else {
                c as nat - 87
            })) as nat,
        ),
{
    assert(s.push(c).drop_last() =~= s);
    let d = if s.len() > 1 && s[0] == '+' {
        s.drop_first()
    } else {
        s
    };
    lemma_hex_number_digits_only(d);
    if parse_hex_spec(s) is Some {
        assert forall|i: int| 1 <= i < s.len() implies is_hex_digit(#[trigger] s[i]) by {
            if s.len() > 1 && s[0] == '+' {
                assert(d[i - 1] == s[i]);
            }
        }
    }
}

/// Only hexadecimal digits make a number.
proof fn lemma_hex_number_digits_only(s: Seq<char>)
    ensures
        hex_number(s) is Some ==> forall|i: int| 0 <= i < s.len() ==> is_hex_digit(#[trigger] s[i]),
    decreases s.len(),
{
    if s.len() > 0 {
        lemma_hex_number_digits_only(s.drop_last());
        if hex_number(s) is Some {
            assert forall|i: int| 0 <= i < s.len() implies is_hex_digit(#[trigger] s[i]) by {
                if i < s.len() - 1 {
                    assert(s.drop_last()[i] == s[i]);
                }
            }
        }
    }
}

/// A text that has been encoded is read back.
pub proof fn law_decoded(s: Seq<char>)
    ensures
        decoded(encode_utf8(s)) == s,
{
    encode_utf8_valid_utf8(s);
    encode_utf8_decode_utf8(s);
}

/// Numbers are written with at least so many digits.
pub proof fn law_padded_numbers(n: nat, width: nat)
    ensures
        decimal_padded(n, width) == zero_padded(decimal(n), width),
        hex_upper(n, width) == zero_padded(digits(n, 16, true), width),
        hex_lower(n, width) == zero_padded(digits(n, 16, false), width),
{
}

/// The first digit of a number is no zero, unless it is the number zero.
proof fn lemma_first_digit(n: nat)
    ensures
        decimal(n).len() > 0,
        n > 0 ==> decimal(n)[0] != '0',
        n < 10 <==> decimal(n).len() == 1,
    decreases n,
{
    if n >= 10 {
        lemma_first_digit(n / 10);
        assert(decimal(n)[0] == decimal(n / 10)[0]);
    }
}

/// Different numbers are written differently.
pub proof fn law_decimal_tells_apart(a: nat, b: nat, width: nat)
    ensures
        decimal(a) == decimal(b) ==> a == b,
        decimal_padded(a, width) == decimal_padded(b, width) ==> a == b,
{
    if decimal(a) == decimal(b) {
        lemma_decimal_injective(a, b);
    }
    if decimal_padded(a, width) == decimal_padded(b, width) {
        lemma_first_digit(a);
        lemma_first_digit(b);
        let (x, y) = (decimal(a), decimal(b));
        let (p, q) = (zero_padded(x, width), zero_padded(y, width));
        if x.len() == y.len() {
            assert forall|i: int| 0 <= i < x.len() implies x[i] == y[i] by {
                let k = p.len() - x.len();
                assert(p[k + i] == x[i] && q[k + i] == y[i]);
            }
            assert(x =~= y);
            lemma_decimal_injective(a, b);
        } else if x.len() < y.len() {
            let k = q.len() - y.len();
            assert(q[k] == y[0]);
            assert(p[k] == '0');
            assert(b == 0);
        } else {
            let k = p.len() - x.len();
            assert(p[k] == x[0]);
            assert(q[k] == '0');
            assert(a == 0);
        }
    }
}

/// Different numbers have different digits.
proof fn lemma_decimal_injective(a: nat, b: nat)
    requires
        decimal(a) == decimal(b),
    ensures
        a == b,
    decreases a,
{
    lemma_first_digit(a);
    lemma_first_digit(b);
    let (x, y) = (decimal(a), decimal(b));
    assert(x.last() == y.last());
    if a < 10 {
        assert(x[0] == y[0]);
    } else {
        assert(x.drop_last() =~= decimal(a / 10));
        assert(y.drop_last() =~= decimal(b / 10));
        lemma_decimal_injective(a / 10, b / 10);
        assert(a % 10 == b % 10);
    }
}

/// The texts of strings are all of them, each at its place.
pub proof fn law_texts(strings: Seq<String>, s: Option<String>, i: int)
    ensures
        texts(strings).len() == strings.len(),
        0 <= i < strings.len() ==> texts(strings)[i] == strings[i]@,
        s is Some ==> optional_text(s) == Some(s->0@),
        s is None ==> optional_text(s) is None,
{
}

/// A text of hexadecimal digits is read as the number that they write, with or without a plus sign
/// before them, as far as 32 bits hold it; without a digit there is no number.
pub proof fn law_hex_text(s: Seq<char>)
    requires
        s.len() > 0,
        hex_number(s) is Some,
    ensures
        hex_number(s)->0 <= u32::MAX ==> parse_hex_spec(s) == Some(hex_number(s)->0 as u32),
        hex_number(s)->0 <= u32::MAX ==> parse_hex_spec(seq!['+'] + s) == Some(
            hex_number(s)->0 as u32,
        ),
        hex_number(s)->0 > u32::MAX ==> parse_hex_spec(s) is None,
        hex_number(s)->0 > u32::MAX ==> parse_hex_spec(seq!['+'] + s) is None,
        parse_hex_spec(seq!['+']) is None,
        parse_hex_spec(Seq::empty()) is None,
        hex_number(Seq::empty()) == Some(0nat),
{
    let signed = seq!['+'] + s;
    assert(signed.drop_first() =~= s);
    lemma_hex_number_digits_only(s);
    assert(is_hex_digit(s[0]));
    lemma_hex_number_digits_only(seq!['+']);
    assert(!is_hex_digit(seq!['+'][0]));
}

/// A search finds nothing where there is nothing to find, and blank text has no word.
pub proof fn law_nothing_found(s: Seq<char>, p: Seq<char>)
    ensures
        !contains_text(s, p) ==> find_text(s, p) is None,
        is_blank(s) ==> first_word(s).len() == 0,
{
    lemma_find_from(s, p, 0);
    if find_text(s, p) is Some {
        let i = find_text(s, p)->0;
        assert(occurs_at(s, p, i));
    }
    if is_blank(s) {
        let none = Seq::<char>::empty();
        lemma_trim_start(s, none);
        assert(s + none =~= s);
    }
}

} // verus!
