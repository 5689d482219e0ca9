//! Text helpers: UTF-8 encoding and decoding, number formatting.

use vstd::prelude::*;
use vstd::string::StringExecFns;
use vstd::utf8::{decode_utf8, encode_scalar, is_scalar, valid_utf8};

verus! {

/// `String::push`: appends one character.
pub assume_specification[ std::string::String::push ](s: &mut std::string::String, ch: char)
    ensures
        final(s)@ == old(s)@.push(ch),
;

/// `std::str::from_utf8`: succeeds exactly on valid UTF-8, and then
/// yields the characters that the bytes encode.
#[verifier::external_body]
pub(crate) fn utf8_str(bytes: &[u8]) -> (r: Option<&str>)
    ensures
        r is Some <==> valid_utf8(bytes@),
        r matches Some(s) ==> s@ == decode_utf8(bytes@),
{
    std::str::from_utf8(bytes).ok()
}

/// Characters of `bytes`, or one replacement character when they are not
/// valid UTF-8.
pub open spec fn text_or_replacement(bytes: Seq<u8>) -> Seq<char> {
    if valid_utf8(bytes) {
        decode_utf8(bytes)
    } else {
        seq!['\u{FFFD}']
    }
}

/// Appends `text` to `out`.
pub fn push_text(out: &mut String, text: &str)
    ensures
        final(out)@ == old(out)@ + text@,
{
    out.append(text);
}

/// Appends the characters of `bytes` to `out`, or one replacement
/// character when they are not valid UTF-8.
pub fn push_utf8(out: &mut String, bytes: &[u8])
    ensures
        final(out)@ == old(out)@ + text_or_replacement(bytes@),
{
    match utf8_str(bytes) {
        Some(s) => out.append(s),
        None => {
            out.push('\u{FFFD}');
            assert(out@ =~= old(out)@ + seq!['\u{FFFD}']);
        },
    }
}

/// Character of a decimal or lower-case hexadecimal digit.
pub open spec fn digit_char(d: int) -> char {
    if d < 10 {
        (0x30 + d) as u8 as char
    } else {
        (0x57 + d) as u8 as char
    }
}

/// Decimal notation of `n`, without leading zeros.
pub open spec fn decimal(n: nat) -> Seq<char>
    decreases n,
{
    if n < 10 {
        seq![digit_char(n as int)]
    } else {
        decimal(n / 10).push(digit_char((n % 10) as int))
    }
}

/// Lower-case hexadecimal notation of `n` in exactly `width` digits.
pub open spec fn hex_digits(n: nat, width: nat) -> Seq<char>
    decreases width,
{
    if width == 0 {
        Seq::empty()
    } else {
        hex_digits(n / 16, (width - 1) as nat).push(digit_char((n % 16) as int))
    }
}

fn digit_of(d: u8) -> (c: char)
    requires
        d < 16,
    ensures
        c == digit_char(d as int),
{
    if d < 10 {
        (0x30 + d) as char
    } else {
        (0x57 + d) as char
    }
}

/// Appends the decimal notation of `n`.
pub fn push_decimal(out: &mut String, n: u64)
    ensures
        final(out)@ == old(out)@ + decimal(n as nat),
    decreases n,
{
    if n >= 10 {
        push_decimal(out, n / 10);
    }
    let ghost before = out@;
    out.push(digit_of((n % 10) as u8));
    proof {
        if n >= 10 {
            assert(out@ =~= old(out)@ + decimal((n / 10) as nat).push(digit_char((n % 10) as int)));
        } else {
            assert(out@ =~= old(out)@ + seq![digit_char(n as int)]);
        }
    }
}

/// Appends the last `width` hexadecimal digits of `n`.
pub fn push_hex(out: &mut String, n: u32, width: u32)
    ensures
        final(out)@ == old(out)@ + hex_digits(n as nat, width as nat),
    decreases width,
{
    if width > 0 {
        push_hex(out, n / 16, width - 1);
        out.push(digit_of((n % 16) as u8));
        assert(out@ =~= old(out)@ + hex_digits((n / 16) as nat, (width - 1) as nat).push(
            digit_char((n % 16) as int),
        ));
    } else {
        assert(out@ =~= old(out)@ + Seq::<char>::empty());
    }
}

/// Decimal notation of `n` in ASCII bytes.
pub open spec fn decimal_bytes(n: nat) -> Seq<u8>
    decreases n,
{
    if n < 10 {
        seq![(0x30 + n) as u8]
    } else {
        decimal_bytes(n / 10).push((0x30 + n % 10) as u8)
    }
}

/// Appends the decimal notation of `n` in ASCII bytes.
pub fn push_decimal_bytes(out: &mut Vec<u8>, n: u64)
    ensures
        final(out)@ == old(out)@ + decimal_bytes(n as nat),
    decreases n,
{
    if n >= 10 {
        push_decimal_bytes(out, n / 10);
    }
    out.push(0x30 + (n % 10) as u8);
    proof {
        if n >= 10 {
            assert(out@ =~= old(out)@ + decimal_bytes((n / 10) as nat).push((0x30 + n % 10) as u8));
        } else {
            assert(out@ =~= old(out)@ + seq![(0x30 + n) as u8]);
        }
    }
}

/// The text that `String::from_utf8_lossy` makes of `bytes`: invalid
/// sequences become replacement characters.
pub uninterp spec fn lossy_text(bytes: Seq<u8>) -> Seq<char>;

/// `String::from_utf8_lossy`, as an owned string: the characters that
/// valid UTF-8 encodes; invalid bytes are replaced in a way that depends
/// on them alone.
#[verifier::external_body]
pub(crate) fn utf8_lossy(bytes: &[u8]) -> (r: String)
    ensures
        r@ == lossy_text(bytes@),
        valid_utf8(bytes@) ==> r@ == decode_utf8(bytes@),
{
    String::from_utf8_lossy(bytes).into_owned()
}

/// The text shown for `bytes`: what valid UTF-8 encodes, or a text with
/// replacement characters.
pub open spec fn shown_text(bytes: Seq<u8>) -> Seq<char> {
    if valid_utf8(bytes) {
        decode_utf8(bytes)
    } else {
        lossy_text(bytes)
    }
}

/// Number of UTF-16 code units of a character.
pub open spec fn char_utf16(c: char) -> nat {
    if (c as u32) < 0x10000 {
        1
    } else {
        2
    }
}

/// Number of UTF-16 code units of a text.
pub open spec fn utf16_len(t: Seq<char>) -> nat
    decreases t.len(),
{
    if t.len() == 0 {
        0
    } else {
        utf16_len(t.drop_last()) + char_utf16(t.last())
    }
}

pub proof fn lemma_utf16_len_push(t: Seq<char>, c: char)
    ensures
        utf16_len(t.push(c)) == utf16_len(t) + char_utf16(c),
{
    assert(t.push(c).drop_last() =~= t);
}

pub proof fn lemma_utf16_len_concat(a: Seq<char>, b: Seq<char>)
    ensures
        utf16_len(a + b) == utf16_len(a) + utf16_len(b),
    decreases b.len(),
{
    if b.len() == 0 {
        assert(a + b =~= a);
    } else {
        lemma_utf16_len_concat(a, b.drop_last());
        assert((a + b).drop_last() =~= a + b.drop_last());
    }
}

pub proof fn lemma_utf16_len_bound(t: Seq<char>)
    ensures
        t.len() <= utf16_len(t) <= 2 * t.len(),
    decreases t.len(),
{
    if t.len() > 0 {
        lemma_utf16_len_bound(t.drop_last());
    }
}

/// Number of UTF-16 code units of `c`.
pub fn len_utf16(c: char) -> (n: usize)
    ensures
        n == char_utf16(c),
{
    if (c as u32) < 0x10000 {
        1
    } else {
        2
    }
}

/// Appends the UTF-8 encoding of the Unicode scalar `cp`.
pub fn push_scalar(out: &mut Vec<u8>, cp: u32)
    requires
        is_scalar(cp),
    ensures
        final(out)@ == old(out)@ + encode_scalar(cp),
{
    if cp <= 0x7f {
        out.push((cp & 0x7f) as u8);
    } else if cp <= 0x7ff {
        out.push(0xc0 | ((cp >> 6) & 0x1f) as u8);
        out.push(0x80 | (cp & 0x3f) as u8);
    } else if cp <= 0xffff {
        out.push(0xe0 | ((cp >> 12) & 0x0f) as u8);
        out.push(0x80 | ((cp >> 6) & 0x3f) as u8);
        out.push(0x80 | (cp & 0x3f) as u8);
    } else {
        out.push(0xf0 | ((cp >> 18) & 0x7) as u8);
        out.push(0x80 | ((cp >> 12) & 0x3f) as u8);
        out.push(0x80 | ((cp >> 6) & 0x3f) as u8);
        out.push(0x80 | (cp & 0x3f) as u8);
    }
    assert(out@ =~= old(out)@ + encode_scalar(cp));
}

/// The characters of `s`.
pub fn chars_of(s: &str) -> (r: Vec<char>)
    ensures
        r@ == s@,
{
    let mut out: Vec<char> = Vec::new();
    for c in it: s.chars()
        invariant
            it.seq() == s@,
            out@ == s@.take(it.index() as int),
    {
        out.push(c);
        assert(out@ =~= s@.take(it.index() + 1));
    }
    assert(s@.take(s@.len() as int) =~= s@);
    out
}

/// The string made of `chars[lo..hi]`.
pub fn string_of(chars: &[char], lo: usize, hi: usize) -> (r: String)
    requires
        lo <= hi <= chars@.len(),
    ensures
        r@ == chars@.subrange(lo as int, hi as int),
{
    let mut out = String::new();
    let mut i: usize = lo;
    while i < hi
        invariant
            lo <= i <= hi <= chars@.len(),
            out@ == chars@.subrange(lo as int, i as int),
        decreases hi - i,
    {
        out.push(chars[i]);
        i += 1;
        assert(out@ =~= chars@.subrange(lo as int, i as int));
    }
    out
}

/// A character with the Unicode White_Space property.
pub open spec fn is_space(c: char) -> bool {
    ||| '\u{9}' <= c <= '\u{d}'
    ||| c == ' '
    ||| c == '\u{85}'
    ||| c == '\u{a0}'
    ||| c == '\u{1680}'
    ||| '\u{2000}' <= c <= '\u{200a}'
    ||| c == '\u{2028}'
    ||| c == '\u{2029}'
    ||| c == '\u{202f}'
    ||| c == '\u{205f}'
    ||| c == '\u{3000}'
}

pub fn is_space_char(c: char) -> (r: bool)
    ensures
        r == is_space(c),
{
    ('\u{9}' <= c && c <= '\u{d}') || c == ' ' || c == '\u{85}' || c == '\u{a0}' || c == '\u{1680}' || ('\u{2000}' <= c
        && c <= '\u{200a}') || c == '\u{2028}' || c == '\u{2029}' || c == '\u{202f}' || c == '\u{205f}' || c
        == '\u{3000}'
}

/// First position at or after `i` of a character that is not white
/// space.
pub open spec fn skip_space(t: Seq<char>, i: int) -> int
    decreases t.len() - i,
{
    if 0 <= i < t.len() && is_space(t[i]) {
        skip_space(t, i + 1)
    } else {
        i
    }
}

/// `hi` without the white space before it, down to `lo`.
pub open spec fn drop_space(t: Seq<char>, lo: int, hi: int) -> int
    decreases hi,
{
    if lo < hi && 0 < hi <= t.len() && is_space(t[hi - 1]) {
        drop_space(t, lo, hi - 1)
    } else {
        hi
    }
}

/// `t` without leading and trailing white space.
pub open spec fn trimmed_text(t: Seq<char>) -> Seq<char> {
    let lo = skip_space(t, 0);
    t.subrange(lo, drop_space(t, lo, t.len() as int))
}

/// The text of `chars` without leading and trailing white space.
pub fn trim_chars(chars: &[char]) -> (r: String)
    ensures
        r@ == trimmed_text(chars@),
{
    let mut lo: usize = 0;
    while lo < chars.len() && is_space_char(chars[lo])
        invariant
            lo <= chars@.len(),
            skip_space(chars@, lo as int) == skip_space(chars@, 0),
        decreases chars@.len() - lo,
    {
        lo += 1;
    }
    let mut hi: usize = chars.len();
    while lo < hi && is_space_char(chars[hi - 1])
        invariant
            lo <= hi <= chars@.len(),
            drop_space(chars@, lo as int, hi as int) == drop_space(chars@, lo as int, chars@.len() as int),
        decreases hi,
    {
        hi -= 1;
    }
    string_of(chars, lo, hi)
}

/// The texts of a list of strings.
pub open spec fn texts(v: Seq<String>) -> Seq<Seq<char>> {
    Seq::new(v.len(), |i: int| v[i]@)
}

} // verus!
