//! Laws of lines on screen: where lines start and end, how their text is
//! measured, and which spans are drawn on them.

use vstd::prelude::*;

use crate::bytes::{lemma_line_starts, line_starts_in};
use crate::columns::{char_reaching, lemma_prefix_bytes, prefix_bytes, span_ranges};
use crate::doc::line_text;
use crate::doc_view::{span_ends, span_starts, styles_touching};
use crate::format::{StyleKind, StyleSpan};
use crate::markview::source::nonempty_ranges;
use crate::sorted::{count_at_most, lemma_count_at_most};
use crate::text::utf16_len;

verus! {

/// A line starts at the beginning and behind each line feed, and nowhere
/// else.
pub proof fn law_line_starts(s: Seq<u8>, p: int)
    requires
        s.len() <= u32::MAX,
        0 <= p <= s.len(),
    ensures
        line_starts_in(s, s.len() as int).contains(p as u32) <==> p == 0 || s[p - 1] == 0x0a,
{
    let starts = line_starts_in(s, s.len() as int);
    lemma_line_starts(s, s.len() as int);
    if starts.contains(p as u32) {
        let k = choose|k: int| 0 <= k < starts.len() && starts[k] == p as u32;
        if k >= 1 {
            assert(s[starts[k] - 1] == 0x0a);
        }
    }
    if p == 0 {
        assert(starts[0] == p as u32);
    } else if s[p - 1] == 0x0a {
        assert(starts.contains(((p - 1) + 1) as u32));
    }
}

/// The text of a line is what stands between its start and its line
/// ending, a line feed or a carriage return and a line feed; a last line
/// may have none.
pub proof fn law_line_ends(bytes: Seq<u8>, starts: Seq<u32>, k: int, x: Seq<u8>, ending: Seq<u8>)
    requires
        0 <= k < starts.len(),
        bytes.len() <= u32::MAX,
        ending == seq![0x0au8] || ending == seq![0x0du8, 0x0au8] || (ending.len() == 0 && k + 1 == starts.len()),
        ending == seq![0x0au8] && x.len() > 0 ==> x.last() != 0x0d,
        ending.len() == 0 && x.len() > 0 ==> x.last() != 0x0a,
        starts[k] + x.len() + ending.len() <= bytes.len(),
        bytes.subrange(starts[k] as int, starts[k] + x.len() + ending.len()) == x + ending,
        if k + 1 < starts.len() {
            starts[k + 1] == starts[k] + x.len() + ending.len()
        } else {
            bytes.len() == starts[k] + x.len() + ending.len()
        },
    ensures
        line_text(bytes, starts, k) == x,
{
    let p = starts[k] as int;
    let e = p + x.len();
    let f = e + ending.len();
    let part = bytes.subrange(p, f);
    if ending.len() > 0 {
        assert(bytes[f - 1] == part[x.len() + ending.len() - 1]);
        assert(bytes[e] == part[x.len() as int]);
        assert(bytes[f - 1] == 0x0a);
    }
    if x.len() > 0 {
        assert(bytes[e - 1] == part[x.len() - 1]);
    }
    assert(bytes.subrange(p, e) =~= x) by {
        assert(part.take(x.len() as int) =~= bytes.subrange(p, e));
        assert((x + ending).take(x.len() as int) =~= x);
    }
    if k + 1 == starts.len() && bytes.len() > 0 {
        assert(bytes.last() == bytes[bytes.len() - 1]);
    }
}

/// Text is measured in UTF-16 units: one for a character up to U+FFFF,
/// two for any other, and texts add up.
pub proof fn law_utf16_len(a: Seq<char>, c: char, b: Seq<char>)
    ensures
        utf16_len(seq![c]) == if c as u32 <= 0xffff {
            1nat
        } else {
            2nat
        },
        utf16_len(a + b) == utf16_len(a) + utf16_len(b),
        utf16_len(Seq::<char>::empty()) == 0,
    decreases b.len(),
{
    assert(seq![c].drop_last() =~= Seq::empty());
    assert(utf16_len(seq![c].drop_last()) == 0);
    assert(seq![c].last() == c);
    if b.len() > 0 {
        law_utf16_len(a, c, b.drop_last());
        assert((a + b).drop_last() =~= a + b.drop_last());
        assert((a + b).last() == b.last());
    } else {
        assert(a + b =~= a);
    }
}

proof fn lemma_reach(t: Seq<char>, k: int, to: int)
    requires
        0 <= k <= to <= t.len(),
    ensures
        char_reaching(t, k, prefix_bytes(t, to) as int) == to,
    decreases to - k,
{
    lemma_prefix_bytes(t, k, to);
    if k < to {
        lemma_reach(t, k + 1, to);
    }
}

/// Spans that follow each other, each from one character to a later one.
pub open spec fn spans_follow(
    t: Seq<char>,
    base: int,
    spans: Seq<StyleSpan>,
    chars: Seq<(int, int)>,
    i: int,
    k: int,
) -> bool
    decreases spans.len() - i,
{
    if i < 0 || i >= spans.len() {
        true
    } else {
        let (a, b) = chars[i];
        &&& k <= a < b <= t.len()
        &&& spans[i].start == base + prefix_bytes(t, a)
        &&& spans[i].end == base + prefix_bytes(t, b)
        &&& spans_follow(t, base, spans, chars, i + 1, b)
    }
}

/// The range of each of them in UTF-16 units, with its kind.
pub open spec fn ranges_in_units(t: Seq<char>, spans: Seq<StyleSpan>, chars: Seq<(int, int)>, i: int) -> Seq<
    (usize, usize, StyleKind),
>
    decreases spans.len() - i,
{
    if i < 0 || i >= spans.len() {
        Seq::empty()
    } else {
        seq![
            (
                utf16_len(t.take(chars[i].0)) as usize,
                utf16_len(t.take(chars[i].1)) as usize,
                spans[i].kind,
            ),
        ] + ranges_in_units(t, spans, chars, i + 1)
    }
}

/// Spans of bytes are drawn over the characters that the bytes make up,
/// counted in UTF-16 units from the start of the text.
pub proof fn law_span_ranges(
    t: Seq<char>,
    base: int,
    spans: Seq<StyleSpan>,
    chars: Seq<(int, int)>,
    i: int,
    k: int,
)
    requires
        0 <= i <= spans.len(),
        0 <= base,
        0 <= k <= t.len(),
        chars.len() == spans.len(),
        spans_follow(t, base, spans, chars, i, k),
    ensures
        span_ranges(t, base, spans, i, k) == ranges_in_units(t, spans, chars, i),
    decreases spans.len() - i,
{
    if i < spans.len() {
        let (a, b) = chars[i];
        let n = t.len() as int;
        lemma_prefix_bytes(t, 0, a);
        lemma_prefix_bytes(t, a, b);
        lemma_prefix_bytes(t, b, n);
        lemma_prefix_bytes(t, k, a);
        lemma_reach(t, k, a);
        lemma_reach(t, a, b);
        law_span_ranges(t, base, spans, chars, i + 1, b);
    }
}

proof fn lemma_count(sorted: Seq<u32>, x: int, i: int)
    requires
        forall|i: int, j: int| 0 <= i <= j < sorted.len() ==> (#[trigger] sorted[i]) <= (#[trigger] sorted[j]),
        0 <= i <= sorted.len(),
        forall|k: int| 0 <= k < i ==> (#[trigger] sorted[k]) <= x,
    ensures
        i <= count_at_most(sorted, x) <= sorted.len(),
        forall|k: int| 0 <= k < count_at_most(sorted, x) ==> (#[trigger] sorted[k]) <= x,
        forall|k: int| count_at_most(sorted, x) <= k < sorted.len() ==> (#[trigger] sorted[k]) > x,
    decreases sorted.len() - i,
{
    if i < sorted.len() && sorted[i] <= x {
        lemma_count(sorted, x, i + 1);
    } else {
        assert forall|k: int| i <= k < sorted.len() implies (#[trigger] sorted[k]) > x by {
            assert(sorted[i] <= sorted[k]);
        }
        lemma_count_at_most(sorted, x, i);
    }
}

/// On a stretch of a document exactly those of its spans are drawn that
/// meet it.
pub proof fn law_styles_touching(styles: Seq<StyleSpan>, from: int, to: int, i: int)
    requires
        forall|i: int, j: int|
            0 <= i < j < styles.len() ==> (#[trigger] styles[i]).start <= (#[trigger] styles[j]).start && styles[i].end
                <= styles[j].end,
        0 <= i < styles.len(),
    ensures
        styles[i].end > from && styles[i].start < to ==> styles_touching(styles, from, to).contains(styles[i]),
        forall|k: int|
            0 <= k < styles_touching(styles, from, to).len() ==> (#[trigger] styles_touching(
                styles,
                from,
                to,
            )[k]).end > from && styles_touching(styles, from, to)[k].start < to,
{
    let ends = span_ends(styles);
    let starts = span_starts(styles);
    assert forall|i: int, j: int| 0 <= i <= j < ends.len() implies (#[trigger] ends[i]) <= (#[trigger] ends[j]) by {
        if i < j {
            assert(styles[i].end <= styles[j].end);
        }
    }
    assert forall|i: int, j: int| 0 <= i <= j < starts.len() implies (#[trigger] starts[i]) <= (
    #[trigger] starts[j]) by {
        if i < j {
            assert(styles[i].start <= styles[j].start);
        }
    }
    lemma_count(ends, from, 0);
    lemma_count(starts, to - 1, 0);
    let lo = count_at_most(ends, from);
    let hi = count_at_most(starts, to - 1);
    let r = styles_touching(styles, from, to);
    if styles[i].end > from && styles[i].start < to {
        assert(ends[i] > from);
        assert(starts[i] <= to - 1);
        assert(lo <= i < hi);
        assert(r[i - lo] == styles[i]);
    }
    assert forall|k: int| 0 <= k < r.len() implies (#[trigger] r[k]).end > from && r[k].start < to by {
        assert(r[k] == styles[lo + k]);
        assert(ends[lo + k] > from);
        assert(starts[lo + k] <= to - 1);
    }
}

/// Of the ranges to color, those that hold something are kept, in order.
pub proof fn law_nonempty_ranges(v: Seq<(usize, usize, StyleKind)>)
    ensures
        nonempty_ranges(v) == v.filter(|r: (usize, usize, StyleKind)| r.0 < r.1),
    decreases v.len(),
{
    reveal(Seq::filter);
    if v.len() > 0 {
        law_nonempty_ranges(v.drop_last());
    }
}

} // verus!
