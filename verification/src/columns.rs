//! Mapping between bytes, characters and UTF-16 units of a line.

use vstd::prelude::*;
use vstd::slice::slice_subrange;
use vstd::string::StrSliceExecFns;
use vstd::utf8::{decode_utf8, encode_scalar, encode_utf8, valid_utf8};

use crate::format::{StyleKind, StyleSpan};
use crate::text::{chars_of, lemma_utf16_len_bound, lemma_utf16_len_push, len_utf16, utf16_len, utf8_str};

verus! {

/// Number of UTF-8 bytes of a character.
pub open spec fn char_utf8(c: char) -> nat {
    encode_scalar(c as u32).len()
}

/// Number of UTF-8 bytes of `c`.
pub fn len_utf8(c: char) -> (n: usize)
    ensures
        n == char_utf8(c),
        1 <= n <= 4,
{
    let cp = c as u32;
    proof {
        vstd::utf8::char_is_scalar(c);
    }
    if cp <= 0x7f {
        1
    } else if cp <= 0x7ff {
        2
    } else if cp <= 0xffff {
        3
    } else {
        4
    }
}

/// Number of bytes of the first `k` characters of `t`.
pub open spec fn prefix_bytes(t: Seq<char>, k: int) -> nat
    decreases k,
{
    if k <= 0 {
        0
    } else {
        prefix_bytes(t, k - 1) + char_utf8(t[k - 1])
    }
}

pub proof fn lemma_prefix_bytes(t: Seq<char>, i: int, j: int)
    requires
        0 <= i <= j,
    ensures
        prefix_bytes(t, i) + (j - i) <= prefix_bytes(t, j) <= prefix_bytes(t, i) + 4 * (j - i),
    decreases j,
{
    if i < j {
        lemma_prefix_bytes(t, i, j - 1);
        vstd::utf8::char_is_scalar(t[j - 1]);
    }
}

proof fn lemma_encode_concat(a: Seq<char>, b: Seq<char>)
    ensures
        encode_utf8(a + b) == encode_utf8(a) + encode_utf8(b),
    decreases a.len(),
{
    if a.len() == 0 {
        assert(a + b =~= b);
        assert(encode_utf8(a) + encode_utf8(b) =~= encode_utf8(b));
    } else {
        assert((a + b)[0] == a[0]);
        assert((a + b).drop_first() =~= a.drop_first() + b);
        lemma_encode_concat(a.drop_first(), b);
        assert(encode_utf8(a) + encode_utf8(b) =~= encode_scalar(a[0] as u32) + (encode_utf8(a.drop_first())
            + encode_utf8(b)));
    }
}

/// Counting bytes character by character gives the length of the
/// encoding.
pub proof fn lemma_prefix_bytes_encode(t: Seq<char>, k: int)
    requires
        0 <= k <= t.len(),
    ensures
        prefix_bytes(t, k) == encode_utf8(t.take(k)).len(),
    decreases k,
{
    if k > 0 {
        lemma_prefix_bytes_encode(t, k - 1);
        let one = seq![t[k - 1]];
        assert(t.take(k) =~= t.take(k - 1) + one);
        lemma_encode_concat(t.take(k - 1), one);
        assert(one.drop_first() =~= Seq::<char>::empty());
        assert(encode_utf8(Seq::<char>::empty()) =~= Seq::<u8>::empty());
        assert(encode_utf8(one) =~= encode_scalar(t[k - 1] as u32));
    } else {
        assert(t.take(0) =~= Seq::<char>::empty());
    }
}

/// Text of a line: its characters, or none when it is not valid UTF-8.
pub open spec fn line_chars(line: Seq<u8>) -> Seq<char> {
    if valid_utf8(line) {
        decode_utf8(line)
    } else {
        Seq::empty()
    }
}

/// The characters of a valid line encode to the line's bytes.
pub proof fn lemma_line_chars(line: Seq<u8>)
    ensures
        valid_utf8(line) ==> prefix_bytes(line_chars(line), line_chars(line).len() as int) == line.len(),
        line_chars(line).len() <= line.len(),
{
    let t = line_chars(line);
    if valid_utf8(line) {
        vstd::utf8::decode_utf8_encode_utf8(line);
        lemma_prefix_bytes_encode(t, t.len() as int);
        assert(t.take(t.len() as int) =~= t);
        lemma_prefix_bytes(t, 0, t.len() as int);
    }
}

/// The characters of `line`, or none when it is not valid UTF-8.
pub fn chars_of_line(line: &[u8]) -> (r: Vec<char>)
    ensures
        r@ == line_chars(line@),
        r@.len() <= line@.len(),
{
    proof {
        lemma_line_chars(line@);
    }
    match utf8_str(line) {
        Some(s) => chars_of(s),
        None => Vec::new(),
    }
}

/// Column of a byte: how many characters come before it, or its byte
/// position when the bytes before it are not valid UTF-8.
pub open spec fn char_col(s: Seq<u8>, byte_off: int) -> int {
    let n = if byte_off < s.len() {
        byte_off
    } else {
        s.len() as int
    };
    if valid_utf8(s.take(n)) {
        decode_utf8(s.take(n)).len() as int
    } else {
        n
    }
}

/// The byte at which a character starts is back in that character's
/// column.
pub proof fn law_column_round_trip(line: Seq<u8>, k: int)
    requires
        valid_utf8(line),
        0 <= k <= line_chars(line).len(),
    ensures
        char_col(line, prefix_bytes(line_chars(line), k) as int) == k,
{
    let t = line_chars(line);
    let head = t.take(k);
    vstd::utf8::decode_utf8_encode_utf8(line);
    lemma_prefix_bytes_encode(t, k);
    assert(t =~= head + t.skip(k));
    lemma_encode_concat(head, t.skip(k));
    assert(line.take(encode_utf8(head).len() as int) =~= encode_utf8(head));
    vstd::utf8::encode_utf8_valid_utf8(head);
    vstd::utf8::encode_utf8_decode_utf8(head);
}

/// How many characters come before byte `byte_off` of `s`; the offset
/// itself when the bytes before it are not valid UTF-8.
pub fn byte_offset_to_char_col(s: &[u8], byte_off: u32) -> (r: u32)
    ensures
        r == char_col(s@, byte_off as int),
{
    let n: usize = if (byte_off as usize) < s.len() {
        byte_off as usize
    } else {
        s.len()
    };
    let head = slice_subrange(s, 0, n);
    proof {
        assert(head@ =~= s@.take(n as int));
        lemma_line_chars(head@);
    }
    match utf8_str(head) {
        Some(t) => t.unicode_len() as u32,
        None => n as u32,
    }
}

/// The smaller of `n` and the length of `t`.
pub open spec fn clip_col(t: Seq<char>, n: int) -> int {
    if n < t.len() {
        n
    } else {
        t.len() as int
    }
}

/// Byte range of the characters `col_start..col_end`, as far as they
/// exist.
pub fn char_range_to_byte_range(chars: &[char], col_start: usize, col_end: usize) -> (r: (usize, usize))
    requires
        col_start <= col_end,
        prefix_bytes(chars@, chars@.len() as int) <= usize::MAX,
    ensures
        r.0 == prefix_bytes(chars@, clip_col(chars@, col_start as int)),
        r.1 == prefix_bytes(chars@, clip_col(chars@, col_end as int)),
        r.0 <= r.1,
{
    let a = bytes_before(chars, col_start);
    let b = bytes_before(chars, col_end);
    proof {
        lemma_prefix_bytes(chars@, clip_col(chars@, col_start as int), clip_col(chars@, col_end as int));
    }
    (a, b)
}

/// Number of bytes of the first `n` characters.
pub fn bytes_before(chars: &[char], n: usize) -> (r: usize)
    requires
        prefix_bytes(chars@, chars@.len() as int) <= usize::MAX,
    ensures
        r == prefix_bytes(chars@, clip_col(chars@, n as int)),
{
    let mut total: usize = 0;
    let mut k: usize = 0;
    while k < chars.len() && k < n
        invariant
            k <= chars@.len(),
            k <= n,
            total == prefix_bytes(chars@, k as int),
            prefix_bytes(chars@, chars@.len() as int) <= usize::MAX,
        decreases chars@.len() - k,
    {
        proof {
            lemma_prefix_bytes(chars@, k + 1, chars@.len() as int);
        }
        total += len_utf8(chars[k]);
        k += 1;
    }
    total
}

/// The first character from `k` on that starts at byte `target` or
/// later.
pub open spec fn char_reaching(t: Seq<char>, k: int, target: int) -> int
    decreases t.len() - k,
{
    if 0 <= k < t.len() && prefix_bytes(t, k) < target {
        char_reaching(t, k + 1, target)
    } else {
        k
    }
}

/// `x` relative to `base`, brought into `0..=len`.
pub open spec fn rel_clamped(x: int, base: int, len: int) -> int {
    if x <= base {
        0
    } else if x - base > len {
        len
    } else {
        x - base
    }
}

/// UTF-16 ranges of the spans from `i` on in the text `t`, whose first
/// byte is at `base`; the characters before `k` are taken. A span ends at
/// the first character boundary at or after its end; one that is empty
/// in `t`, or starts before what is taken, is left out.
pub open spec fn span_ranges(t: Seq<char>, base: int, spans: Seq<StyleSpan>, i: int, k: int) -> Seq<
    (usize, usize, StyleKind),
>
    decreases spans.len() - i,
{
    if i < 0 || i >= spans.len() {
        Seq::empty()
    } else {
        let len = prefix_bytes(t, t.len() as int) as int;
        let a = rel_clamped(spans[i].start as int, base, len);
        let b = rel_clamped(spans[i].end as int, base, len);
        if b <= a || a < prefix_bytes(t, k) {
            span_ranges(t, base, spans, i + 1, k)
        } else {
            let ka = char_reaching(t, k, a);
            let kb = char_reaching(t, ka, b);
            seq![
                (utf16_len(t.take(ka)) as usize, utf16_len(t.take(kb)) as usize, spans[i].kind),
            ] + span_ranges(t, base, spans, i + 1, kb)
        }
    }
}

proof fn lemma_char_reaching(t: Seq<char>, k: int, target: int)
    requires
        0 <= k <= t.len(),
    ensures
        k <= char_reaching(t, k, target) <= t.len(),
    decreases t.len() - k,
{
    if k < t.len() && prefix_bytes(t, k) < target {
        lemma_char_reaching(t, k + 1, target);
    }
}

fn rel_clamp(x: u32, base: u32, len: usize) -> (r: usize)
    ensures
        r == rel_clamped(x as int, base as int, len as int),
{
    if x <= base {
        0
    } else if (x - base) as usize > len {
        len
    } else {
        (x - base) as usize
    }
}

/// A position in a line, in characters, bytes and UTF-16 units.
struct LineCursor {
    k: usize,
    byte: usize,
    units: usize,
}

impl LineCursor {
    spec fn at(&self, t: Seq<char>) -> bool {
        &&& self.k <= t.len()
        &&& self.byte == prefix_bytes(t, self.k as int)
        &&& self.units == utf16_len(t.take(self.k as int))
    }

    /// Moves to the first character that starts at byte `target` or
    /// later.
    fn advance_to(&mut self, chars: &[char], target: usize)
        requires
            old(self).at(chars@),
            2 * prefix_bytes(chars@, chars@.len() as int) <= usize::MAX,
        ensures
            final(self).at(chars@),
            final(self).k == char_reaching(chars@, old(self).k as int, target as int),
            old(self).k <= final(self).k,
    {
        while self.k < chars.len() && self.byte < target
            invariant
                self.at(chars@),
                old(self).k <= self.k,
                2 * prefix_bytes(chars@, chars@.len() as int) <= usize::MAX,
                char_reaching(chars@, self.k as int, target as int) == char_reaching(
                    chars@,
                    old(self).k as int,
                    target as int,
                ),
            decreases chars@.len() - self.k,
        {
            let c = chars[self.k];
            proof {
                let t = chars@;
                let k = self.k as int;
                lemma_prefix_bytes(t, k + 1, t.len() as int);
                lemma_prefix_bytes(t, 0, k);
                assert(t.take(k + 1) =~= t.take(k).push(c));
                lemma_utf16_len_push(t.take(k), c);
                lemma_utf16_len_bound(t.take(k + 1));
                lemma_prefix_bytes(t, 0, k + 1);
                lemma_prefix_bytes(t, k + 1, t.len() as int);
            }
            self.byte += len_utf8(c);
            self.units += len_utf16(c);
            self.k += 1;
        }
    }
}

/// UTF-16 ranges of `spans` in the text `chars`, whose first byte stands
/// at `base` in the document.
pub fn utf16_spans(chars: &[char], base: u32, spans: &[StyleSpan]) -> (r: Vec<(usize, usize, StyleKind)>)
    requires
        2 * prefix_bytes(chars@, chars@.len() as int) <= usize::MAX,
    ensures
        r@ == span_ranges(chars@, base as int, spans@, 0, 0),
{
    let ghost t = chars@;
    let len = bytes_before(chars, chars.len());
    let mut cur = LineCursor { k: 0, byte: 0, units: 0 };
    let mut out: Vec<(usize, usize, StyleKind)> = Vec::new();
    let mut i: usize = 0;
    proof {
        assert(t.take(0) =~= Seq::<char>::empty());
        assert(out@ + span_ranges(t, base as int, spans@, 0, 0) =~= span_ranges(t, base as int, spans@, 0, 0));
    }
    while i < spans.len()
        invariant
            t == chars@,
            len == prefix_bytes(t, t.len() as int),
            2 * prefix_bytes(t, t.len() as int) <= usize::MAX,
            i <= spans@.len(),
            cur.at(t),
            span_ranges(t, base as int, spans@, 0, 0) == out@ + span_ranges(
                t,
                base as int,
                spans@,
                i as int,
                cur.k as int,
            ),
        decreases spans@.len() - i,
    {
        let span = spans[i];
        let a = rel_clamp(span.start, base, len);
        let b = rel_clamp(span.end, base, len);
        if b > a && a >= cur.byte {
            let ghost before = out@;
            cur.advance_to(chars, a);
            let from: usize = cur.units;
            cur.advance_to(chars, b);
            out.push((from, cur.units, span.kind));
            proof {
                let rest = span_ranges(t, base as int, spans@, i + 1, cur.k as int);
                assert(before + (seq![(from, cur.units, span.kind)] + rest) =~= out@ + rest);
            }
        }
        i += 1;
    }
    proof {
        assert(out@ + Seq::<(usize, usize, StyleKind)>::empty() =~= out@);
    }
    out
}

/// The ranges computed for a line lie in it, in order and without
/// overlaps.
pub proof fn law_span_ranges_ordered(t: Seq<char>, base: int, spans: Seq<StyleSpan>, i: int, k: int)
    requires
        0 <= i,
        0 <= k <= t.len(),
        utf16_len(t) <= usize::MAX,
    ensures
        ({
            let r = span_ranges(t, base, spans, i, k);
            &&& forall|j: int|
                0 <= j < r.len() ==> utf16_len(t.take(k)) <= (#[trigger] r[j]).0 <= r[j].1 <= utf16_len(t)
            &&& forall|x: int, y: int| 0 <= x < y < r.len() ==> (#[trigger] r[x]).1 <= (#[trigger] r[y]).0
        }),
    decreases spans.len() - i,
{
    if i < spans.len() {
        let len = prefix_bytes(t, t.len() as int) as int;
        let a = rel_clamped(spans[i].start as int, base, len);
        let b = rel_clamped(spans[i].end as int, base, len);
        let r = span_ranges(t, base, spans, i, k);
        if b <= a || a < prefix_bytes(t, k) {
            law_span_ranges_ordered(t, base, spans, i + 1, k);
            assert(r == span_ranges(t, base, spans, i + 1, k));
        } else {
            let ka = char_reaching(t, k, a);
            let kb = char_reaching(t, ka, b);
            lemma_char_reaching(t, k, a);
            lemma_char_reaching(t, ka, b);
            lemma_utf16_take(t, k, ka);
            lemma_utf16_take(t, ka, kb);
            lemma_utf16_take(t, kb, t.len() as int);
            assert(t.take(t.len() as int) =~= t);
            law_span_ranges_ordered(t, base, spans, i + 1, kb);
            let rest = span_ranges(t, base, spans, i + 1, kb);
            let head = (utf16_len(t.take(ka)) as usize, utf16_len(t.take(kb)) as usize, spans[i].kind);
            assert(r == seq![head] + rest);
            assert(r[0] == head);
            assert forall|j: int| 0 <= j < r.len() implies utf16_len(t.take(k)) <= (#[trigger] r[j]).0 <= r[j].1
                <= utf16_len(t) by {
                if j > 0 {
                    assert(r[j] == rest[j - 1]);
                }
            }
            assert forall|x: int, y: int| 0 <= x < y < r.len() implies (#[trigger] r[x]).1 <= (#[trigger] r[y]).0 by {
                assert(r[y] == rest[y - 1]);
                if x > 0 {
                    assert(r[x] == rest[x - 1]);
                }
            }
        }
    }
}

proof fn lemma_utf16_take(t: Seq<char>, i: int, j: int)
    requires
        0 <= i <= j <= t.len(),
    ensures
        utf16_len(t.take(i)) <= utf16_len(t.take(j)),
    decreases j - i,
{
    if i < j {
        lemma_utf16_take(t, i, j - 1);
        assert(t.take(j) =~= t.take(j - 1).push(t[j - 1]));
        lemma_utf16_len_push(t.take(j - 1), t[j - 1]);
    }
}

} // verus!
