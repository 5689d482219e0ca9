//! Law of markdown parsing: a written document is read as the headings,
//! fences and other lines it was made of.

use vstd::prelude::*;
use vstd::utf8::{decode_utf8, valid_utf8};

use crate::bytes::{index_from, lemma_index_from, past_byte};
use crate::format::cursor::byte_at;
use crate::format::json_text::{lemma_stands_byte, lemma_stands_parts, stands};
use crate::format::{intern_id, interned, PathEntry, PathSegment, ScanState, StyleKind, StyleSpan};
use crate::markdown_core::{
    blank_from, close_headings, closes_fence, code_close, digits_end, drop_blanks, drop_hashes, heading_level,
    heading_steps,
    inline_code, lemma_run_of, marker_at, md_document, md_fence, md_fence_lines, md_heading, md_line, md_lines,
    md_plain_line, md_start, ordered_marker, plain_line_kind, rule_count, rule_or_item, run_of, section_path, skip_blanks,
    spaces_at, title_of, title_start, BlockKind, MdState,
};

verus! {

// --- written lines --------------------------------------------------

pub open spec fn times(b: u8, n: nat) -> Seq<u8> {
    Seq::new(n, |i: int| b)
}

/// Spaces and tabs only.
pub open spec fn is_blanks(x: Seq<u8>) -> bool {
    forall|i: int| 0 <= i < x.len() ==> (#[trigger] x[i]) == 0x20 || x[i] == 0x09
}

/// Also carriage returns.
pub open spec fn is_tail(x: Seq<u8>) -> bool {
    forall|i: int| 0 <= i < x.len() ==> (#[trigger] x[i]) == 0x20 || x[i] == 0x09 || x[i] == 0x0d
}

pub open spec fn free_of_byte(x: Seq<u8>, b: u8) -> bool {
    forall|i: int| 0 <= i < x.len() ==> #[trigger] x[i] != b
}

/// Ends in a visible byte behind which at most hashes follow.
pub open spec fn ends_in_word(x: Seq<u8>) -> bool
    decreases x.len(),
{
    if x.len() == 0 {
        false
    } else if x.last() == 0x23 {
        ends_in_word(x.drop_last())
    } else {
        x.last() != 0x20 && x.last() != 0x09 && x.last() != 0x0d
    }
}

/// How often `b` occurs in `x`.
pub open spec fn count_in(x: Seq<u8>, b: u8) -> nat
    decreases x.len(),
{
    if x.len() == 0 {
        0
    } else {
        count_in(x.skip(1), b) + if x[0] == b {
            1nat
        } else {
            0nat
        }
    }
}

/// Nothing in `x` but `b`, spaces, tabs and carriage returns.
pub open spec fn only_with_blanks(x: Seq<u8>, b: u8) -> bool {
    forall|i: int| 0 <= i < x.len() ==> (#[trigger] x[i]) == b || x[i] == 0x20 || x[i] == 0x09 || x[i] == 0x0d
}

/// A piece of a text line.
pub enum TextPiece {
    /// No backticks.
    Words(Seq<u8>),
    /// So many backticks, text without any, and as many backticks.
    Code(nat, Seq<u8>),
}

impl TextPiece {
    pub open spec fn valid(self) -> bool {
        match self {
            TextPiece::Words(x) => x.len() > 0 && free_of_byte(x, 0x60) && free_of_byte(x, 0x0a),
            TextPiece::Code(n, x) => n > 0 && x.len() > 0 && free_of_byte(x, 0x60) && free_of_byte(x, 0x0a),
        }
    }

    pub open spec fn text(self) -> Seq<u8> {
        match self {
            TextPiece::Words(x) => x,
            TextPiece::Code(n, x) => times(0x60, n) + (x + times(0x60, n)),
        }
    }
}

/// Valid pieces, no two code spans side by side.
pub open spec fn pieces_valid(pieces: Seq<TextPiece>) -> bool {
    &&& forall|i: int| 0 <= i < pieces.len() ==> (#[trigger] pieces[i]).valid()
    &&& forall|i: int, j: int|
        0 <= i < pieces.len() - 1 && j == i + 1 ==> !((#[trigger] pieces[i]) is Code && (#[trigger] pieces[j]) is Code)
}

pub open spec fn pieces_text(pieces: Seq<TextPiece>) -> Seq<u8>
    decreases pieces.len(),
{
    if pieces.len() == 0 {
        Seq::empty()
    } else {
        pieces[0].text() + pieces_text(pieces.skip(1))
    }
}

pub open spec fn pieces_spans(pieces: Seq<TextPiece>, p: int) -> Seq<StyleSpan>
    decreases pieces.len(),
{
    if pieces.len() == 0 {
        Seq::empty()
    } else {
        let q = p + pieces[0].text().len();
        let rest = pieces_spans(pieces.skip(1), q);
        if pieces[0] is Code {
            seq![StyleSpan { start: p as u32, end: q as u32, kind: StyleKind::Code }] + rest
        } else {
            rest
        }
    }
}

/// A line outside fences, without its line feed.
pub enum LineText {
    Blank(Seq<u8>),
    /// Spaces, hashes, blanks, title, then blanks and closing hashes or
    /// neither, then blanks.
    Heading(nat, nat, Seq<u8>, Seq<u8>, Seq<u8>, nat, Seq<u8>),
    /// Spaces, hashes and blanks.
    Untitled(nat, nat, Seq<u8>),
    /// Spaces, `>` and text.
    Quote(nat, Seq<u8>),
    /// Spaces, `-` or `*`, a blank and text.
    Bullet(nat, u8, u8, Seq<u8>),
    /// Spaces, digits, `.` or `)`, a blank and text.
    Ordered(nat, Seq<u8>, u8, u8, Seq<u8>),
    /// Spaces, and three or more `-`, `*` or `_` with blanks among them.
    Rule(nat, u8, Seq<u8>),
    /// Spaces, `|` and text.
    Row(nat, Seq<u8>),
    /// Spaces and text that starts with a letter or sign of its own.
    Words(nat, Seq<TextPiece>),
    /// Spaces and text that starts almost like another line.
    Almost(nat, Seq<u8>),
}

/// How many `b` stand at the front of `x`.
pub open spec fn leading(x: Seq<u8>, b: u8) -> nat
    decreases x.len(),
{
    if x.len() > 0 && x[0] == b {
        1 + leading(x.skip(1), b)
    } else {
        0
    }
}

/// How many digits stand at the front of `x`.
pub open spec fn leading_digits(x: Seq<u8>) -> nat
    decreases x.len(),
{
    if x.len() > 0 && 0x30 <= x[0] <= 0x39 {
        1 + leading_digits(x.skip(1))
    } else {
        0
    }
}

/// `x` starts like a heading, item, rule or fence but is none: more than
/// six hashes or no blank behind them; no blank behind the sign of an
/// item; more than nine digits, or no `.` or `)` and blank behind them;
/// fewer than three signs of a rule or something else among them; one or
/// two tildes.
pub open spec fn is_almost(x: Seq<u8>) -> bool {
    let c = x[0];
    let n = leading(x, c) as int;
    let d = leading_digits(x) as int;
    let rule = only_with_blanks(x, c) && count_in(x, c) >= 3;
    if c == 0x23 {
        n > 6 || (n < x.len() && x[n] != 0x20 && x[n] != 0x09 && x[n] != 0x0d)
    } else if c == 0x2d || c == 0x2a {
        !rule && (x.len() == 1 || (x[1] != 0x20 && x[1] != 0x09))
    } else if c == 0x5f {
        !rule
    } else if 0x30 <= c <= 0x39 {
        d > 9 || !(d + 1 < x.len() && (x[d] == 0x2e || x[d] == 0x29) && (x[d + 1] == 0x20 || x[d + 1] == 0x09))
    } else {
        c == 0x7e && n < 3
    }
}

/// A byte that starts no other line: not blank, not a line end, not a
/// digit, and none of `#`, `>`, `-`, `*`, `_`, `|`, backtick and `~`.
pub open spec fn starts_words(b: u8) -> bool {
    &&& b != 0x20 && b != 0x09 && b != 0x0d && b != 0x0a
    &&& !(0x30 <= b <= 0x39)
    &&& b != 0x23 && b != 0x3e && b != 0x2d && b != 0x2a && b != 0x5f && b != 0x7c && b != 0x60 && b != 0x7e
}

impl LineText {
    pub open spec fn valid(self) -> bool {
        match self {
            LineText::Blank(x) => is_tail(x),
            LineText::Heading(indent, level, gap, title, close_gap, close, tail) => {
                &&& indent <= 3 && 1 <= level <= 6
                &&& is_blanks(gap) && gap.len() > 0
                &&& title.len() > 0 && title[0] != 0x20 && title[0] != 0x09 && ends_in_word(title)
                &&& free_of_byte(title, 0x0a)
                &&& is_blanks(close_gap) && (close > 0 <==> close_gap.len() > 0)
                &&& is_tail(tail)
            },
            LineText::Untitled(indent, level, tail) => indent <= 3 && 1 <= level <= 6 && is_tail(tail),
            LineText::Quote(indent, x) => indent <= 3 && free_of_byte(x, 0x0a),
            LineText::Bullet(indent, c, blank, x) => indent <= 3 && (c == 0x2d || c == 0x2a) && (blank == 0x20 || blank
                == 0x09) && free_of_byte(x, 0x0a) && !only_with_blanks(x, c),
            LineText::Ordered(indent, d, c, blank, x) => {
                &&& indent <= 3 && 1 <= d.len() <= 9
                &&& forall|i: int| 0 <= i < d.len() ==> 0x30 <= (#[trigger] d[i]) <= 0x39
                &&& c == 0x2e || c == 0x29
                &&& blank == 0x20 || blank == 0x09
                &&& free_of_byte(x, 0x0a)
            },
            LineText::Rule(indent, c, x) => indent <= 3 && (c == 0x2d || c == 0x2a || c == 0x5f) && only_with_blanks(
                x,
                c,
            ) && x.len() > 0 && x[0] == c && count_in(x, c) >= 3,
            LineText::Row(indent, x) => indent <= 3 && free_of_byte(x, 0x0a),
            LineText::Words(indent, pieces) => pieces_valid(pieces) && pieces.len() > 0 && (pieces[0] matches TextPiece::Words(
                x,
            ) && if indent <= 3 {
                starts_words(x[0])
            } else {
                x[0] != 0x20 && x[0] != 0x09 && x[0] != 0x0d
            }),
            LineText::Almost(indent, x) => indent <= 3 && x.len() > 0 && free_of_byte(x, 0x0a) && free_of_byte(x, 0x60)
                && is_almost(x),
        }
    }

    pub open spec fn text(self) -> Seq<u8> {
        match self {
            LineText::Blank(x) => x,
            LineText::Heading(indent, level, gap, title, close_gap, close, tail) => times(0x20, indent) + (times(
                0x23,
                level,
            ) + (gap + title + close_gap + times(0x23, close) + tail)),
            LineText::Untitled(indent, level, tail) => times(0x20, indent) + (times(0x23, level) + tail),
            LineText::Quote(indent, x) => times(0x20, indent) + (seq![0x3eu8] + x),
            LineText::Bullet(indent, c, blank, x) => times(0x20, indent) + (seq![c, blank] + x),
            LineText::Ordered(indent, d, c, blank, x) => times(0x20, indent) + (d + (seq![c, blank] + x)),
            LineText::Rule(indent, c, x) => times(0x20, indent) + x,
            LineText::Row(indent, x) => times(0x20, indent) + (seq![0x7cu8] + x),
            LineText::Words(indent, pieces) => times(0x20, indent) + pieces_text(pieces),
            LineText::Almost(indent, x) => times(0x20, indent) + x,
        }
    }

    pub open spec fn kind(self) -> BlockKind {
        match self {
            LineText::Blank(x) => BlockKind::Blank,
            LineText::Heading(indent, level, gap, title, close_gap, close, tail) => BlockKind::Heading {
                level: level as u32,
            },
            LineText::Untitled(indent, level, tail) => BlockKind::Heading { level: level as u32 },
            LineText::Quote(indent, x) => BlockKind::BlockquoteLine,
            LineText::Bullet(indent, c, blank, x) => BlockKind::ListItem { ordered: false, marker_len: 2 },
            LineText::Ordered(indent, d, c, blank, x) => BlockKind::ListItem {
                ordered: true,
                marker_len: (d.len() + 2) as u32,
            },
            LineText::Rule(indent, c, x) => BlockKind::HorizontalRule,
            LineText::Row(indent, x) => BlockKind::TableLine,
            LineText::Words(indent, pieces) => BlockKind::Paragraph,
            LineText::Almost(indent, x) => BlockKind::Paragraph,
        }
    }

    pub open spec fn spans(self, p: int) -> Seq<StyleSpan> {
        match self {
            LineText::Words(indent, pieces) => pieces_spans(pieces, p + indent),
            _ => if self.kind() is Heading {
                seq![StyleSpan { start: p as u32, end: (p + self.text().len()) as u32, kind: StyleKind::Heading }]
            } else {
                Seq::empty()
            },
        }
    }

    pub open spec fn heads(self, p: int) -> Seq<(int, nat, Seq<u8>)> {
        match self {
            LineText::Heading(indent, level, gap, title, close_gap, close, tail) => seq![(p, level, title)],
            LineText::Untitled(indent, level, tail) => seq![(p, level, Seq::empty())],
            _ => Seq::empty(),
        }
    }
}

/// A fence: spaces, backticks or tildes, and what follows them; the lines
/// inside; and the closing line with its spaces, count and blanks.
pub struct FenceText {
    pub indent: nat,
    pub mark: u8,
    pub count: nat,
    pub info: Seq<u8>,
    pub lines: Seq<Seq<u8>>,
    pub close_indent: nat,
    pub close_count: nat,
    pub close_tail: Seq<u8>,
}

impl FenceText {
    pub open spec fn valid(self) -> bool {
        &&& self.indent <= 3 && self.close_indent <= 3
        &&& self.mark == 0x60 || self.mark == 0x7e
        &&& 3 <= self.count <= self.close_count
        &&& free_of_byte(self.info, 0x0a) && (self.info.len() > 0 ==> self.info[0] != self.mark)
        &&& forall|i: int|
            0 <= i < self.lines.len() ==> free_of_byte(#[trigger] self.lines[i], 0x0a) && free_of_byte(
                self.lines[i],
                self.mark,
            )
        &&& is_tail(self.close_tail)
    }

    pub open spec fn opening(self) -> Seq<u8> {
        times(0x20, self.indent) + (times(self.mark, self.count) + self.info)
    }

    pub open spec fn closing(self) -> Seq<u8> {
        times(0x20, self.close_indent) + (times(self.mark, self.close_count) + self.close_tail)
    }
}

pub enum MdText {
    Line(LineText),
    Fence(FenceText),
}

/// The lines, each with a line feed.
pub open spec fn lines_fed(lines: Seq<Seq<u8>>) -> Seq<u8>
    decreases lines.len(),
{
    if lines.len() == 0 {
        Seq::empty()
    } else {
        lines[0] + (seq![0x0au8] + lines_fed(lines.skip(1)))
    }
}

impl MdText {
    pub open spec fn valid(self) -> bool {
        match self {
            MdText::Line(l) => l.valid(),
            MdText::Fence(f) => f.valid(),
        }
    }

    pub open spec fn text(self) -> Seq<u8> {
        match self {
            MdText::Line(l) => l.text() + seq![0x0au8],
            MdText::Fence(f) => f.opening() + (seq![0x0au8] + (lines_fed(f.lines) + (f.closing() + seq![0x0au8]))),
        }
    }

    pub open spec fn kinds(self) -> Seq<BlockKind> {
        match self {
            MdText::Line(l) => seq![l.kind()],
            MdText::Fence(f) => Seq::new(f.lines.len() + 2, |i: int| BlockKind::FencedCode),
        }
    }

    pub open spec fn spans(self, p: int) -> Seq<StyleSpan> {
        match self {
            MdText::Line(l) => l.spans(p),
            MdText::Fence(f) => seq![
                StyleSpan { start: p as u32, end: (p + self.text().len()) as u32, kind: StyleKind::CodeBlock },
            ],
        }
    }

    pub open spec fn heads(self, p: int) -> Seq<(int, nat, Seq<u8>)> {
        match self {
            MdText::Line(l) => l.heads(p),
            MdText::Fence(f) => Seq::empty(),
        }
    }
}

pub open spec fn md_text(items: Seq<MdText>) -> Seq<u8>
    decreases items.len(),
{
    if items.len() == 0 {
        Seq::empty()
    } else {
        items[0].text() + md_text(items.skip(1))
    }
}

pub open spec fn md_kinds(items: Seq<MdText>) -> Seq<BlockKind>
    decreases items.len(),
{
    if items.len() == 0 {
        Seq::empty()
    } else {
        items[0].kinds() + md_kinds(items.skip(1))
    }
}

pub open spec fn md_spans(items: Seq<MdText>, p: int) -> Seq<StyleSpan>
    decreases items.len(),
{
    if items.len() == 0 {
        Seq::empty()
    } else {
        items[0].spans(p) + md_spans(items.skip(1), p + items[0].text().len())
    }
}

pub open spec fn md_heads(items: Seq<MdText>, p: int) -> Seq<(int, nat, Seq<u8>)>
    decreases items.len(),
{
    if items.len() == 0 {
        Seq::empty()
    } else {
        items[0].heads(p) + md_heads(items.skip(1), p + items[0].text().len())
    }
}

// --- scanning -------------------------------------------------------

proof fn lemma_feed(s: Seq<u8>, p: int, x: Seq<u8>)
    requires
        stands(s, p, x + seq![0x0au8]),
        free_of_byte(x, 0x0a),
    ensures
        stands(s, p, x),
        p + x.len() < s.len(),
        s[p + x.len()] == 0x0a,
        index_from(s, p, 0x0a) == p + x.len(),
        past_byte(s, p, 0x0a) == p + x.len() + 1,
{
    lemma_stands_parts(s, p, x, seq![0x0au8]);
    lemma_stands_byte(s, p + x.len(), seq![0x0au8], 0);
    lemma_index_from(s, p, 0x0a);
    let k = index_from(s, p, 0x0a);
    if k < p + x.len() {
        lemma_stands_byte(s, p, x, k - p);
    }
}

proof fn lemma_run(s: Seq<u8>, p: int, b: u8, n: nat)
    requires
        stands(s, p, times(b, n)),
        p + n < s.len() ==> s[p + n] != b,
    ensures
        run_of(s, p, b) == p + n,
{
    lemma_run_of(s, p, b);
    lemma_run_on(s, p, b, n, 0);
}

proof fn lemma_run_on(s: Seq<u8>, p: int, b: u8, n: nat, i: nat)
    requires
        stands(s, p, times(b, n)),
        p + n < s.len() ==> s[p + n] != b,
        i <= n,
    ensures
        run_of(s, p + i, b) == p + n,
    decreases n - i,
{
    if i < n {
        lemma_stands_byte(s, p, times(b, n), i as int);
        lemma_run_on(s, p, b, n, i + 1);
    }
}

proof fn lemma_spaces(s: Seq<u8>, p: int, n: nat, most: nat)
    requires
        stands(s, p, times(0x20, n)),
        p + n < s.len() ==> s[p + n] != 0x20,
    ensures
        spaces_at(s, p, most) == if n < most {
            n
        } else {
            most
        },
    decreases most,
{
    if n > 0 && most > 0 {
        lemma_stands_byte(s, p, times(0x20, n), 0);
        assert(times(0x20, n) =~= seq![0x20u8] + times(0x20, (n - 1) as nat));
        lemma_stands_parts(s, p, seq![0x20u8], times(0x20, (n - 1) as nat));
        lemma_spaces(s, p + 1, (n - 1) as nat, (most - 1) as nat);
    }
}

proof fn lemma_blank(s: Seq<u8>, p: int, x: Seq<u8>)
    requires
        stands(s, p, x),
        is_tail(x),
        p + x.len() == s.len() || s[p + x.len()] == 0x0a,
    ensures
        blank_from(s, p),
    decreases x.len(),
{
    if x.len() > 0 {
        lemma_stands_byte(s, p, x, 0);
        assert(x =~= seq![x[0]] + x.skip(1));
        lemma_stands_parts(s, p, seq![x[0]], x.skip(1));
        lemma_blank(s, p + 1, x.skip(1));
    }
}

proof fn lemma_not_blank(s: Seq<u8>, p: int, n: nat)
    requires
        stands(s, p, times(0x20, n)),
        p + n < s.len(),
        s[p + n] != 0x20 && s[p + n] != 0x09 && s[p + n] != 0x0d && s[p + n] != 0x0a,
    ensures
        !blank_from(s, p),
    decreases n,
{
    if n > 0 {
        lemma_stands_byte(s, p, times(0x20, n), 0);
        assert(times(0x20, n) =~= seq![0x20u8] + times(0x20, (n - 1) as nat));
        lemma_stands_parts(s, p, seq![0x20u8], times(0x20, (n - 1) as nat));
        lemma_not_blank(s, p + 1, (n - 1) as nat);
    }
}

/// How often the mark of a rule occurs up to the end of the line.
proof fn lemma_rule(s: Seq<u8>, p: int, x: Seq<u8>, c: u8)
    requires
        stands(s, p, x),
        free_of_byte(x, 0x0a),
        c != 0x20 && c != 0x09 && c != 0x0d && c != 0x0a,
        p + x.len() == s.len() || s[p + x.len()] == 0x0a,
    ensures
        only_with_blanks(x, c) ==> rule_count(s, p, c) == Some(count_in(x, c)),
        !only_with_blanks(x, c) ==> rule_count(s, p, c) is None,
    decreases x.len(),
{
    if x.len() > 0 {
        let rest = x.skip(1);
        lemma_stands_byte(s, p, x, 0);
        assert(x =~= seq![x[0]] + rest);
        lemma_stands_parts(s, p, seq![x[0]], rest);
        assert forall|i: int| 0 <= i < rest.len() implies #[trigger] rest[i] != 0x0a by {
            assert(rest[i] == x[i + 1]);
        }
        lemma_rule(s, p + 1, rest, c);
        if only_with_blanks(x, c) {
            assert forall|i: int| 0 <= i < rest.len() implies (#[trigger] rest[i]) == c || rest[i] == 0x20 || rest[i]
                == 0x09 || rest[i] == 0x0d by {
                assert(rest[i] == x[i + 1]);
            }
        } else if x[0] == c || x[0] == 0x20 || x[0] == 0x09 || x[0] == 0x0d {
            if only_with_blanks(rest, c) {
                assert forall|i: int| 0 <= i < x.len() implies (#[trigger] x[i]) == c || x[i] == 0x20 || x[i] == 0x09
                    || x[i] == 0x0d by {
                    if i > 0 {
                        assert(x[i] == rest[i - 1]);
                    }
                }
            }
        }
    }
}

proof fn lemma_digits(s: Seq<u8>, p: int, d: Seq<u8>)
    requires
        stands(s, p, d),
        forall|i: int| 0 <= i < d.len() ==> 0x30 <= (#[trigger] d[i]) <= 0x39,
        p + d.len() < s.len() ==> !(0x30 <= s[p + d.len()] <= 0x39),
    ensures
        digits_end(s, p) == p + d.len(),
    decreases d.len(),
{
    if d.len() > 0 {
        lemma_stands_byte(s, p, d, 0);
        assert(d =~= seq![d[0]] + d.skip(1));
        lemma_stands_parts(s, p, seq![d[0]], d.skip(1));
        lemma_digits(s, p + 1, d.skip(1));
    }
}

// --- titles ---------------------------------------------------------

proof fn lemma_skip(x: Seq<u8>, n: int, i: int)
    requires
        0 <= i <= n <= x.len(),
        forall|j: int| 0 <= j < n ==> (#[trigger] x[j]) == 0x20 || x[j] == 0x09,
        n < x.len() ==> x[n] != 0x20 && x[n] != 0x09,
    ensures
        skip_blanks(x, i) == n,
    decreases n - i,
{
    if i < n {
        assert(x[i] == 0x20 || x[i] == 0x09);
        lemma_skip(x, n, i + 1);
    }
}

proof fn lemma_drop(x: Seq<u8>, lo: int, at: int, hi: int, cr: bool)
    requires
        0 <= lo <= at <= hi <= x.len(),
        forall|j: int| at <= j < hi ==> (#[trigger] x[j]) == 0x20 || x[j] == 0x09 || (cr && x[j] == 0x0d),
        lo < at ==> x[at - 1] != 0x20 && x[at - 1] != 0x09 && !(cr && x[at - 1] == 0x0d),
    ensures
        drop_blanks(x, lo, hi, cr) == at,
    decreases hi,
{
    if at < hi {
        assert(x[hi - 1] == 0x20 || x[hi - 1] == 0x09 || (cr && x[hi - 1] == 0x0d));
        lemma_drop(x, lo, at, hi - 1, cr);
    }
}

proof fn lemma_hashes(x: Seq<u8>, lo: int, at: int, hi: int)
    requires
        0 <= lo <= at <= hi <= x.len(),
        forall|j: int| at <= j < hi ==> (#[trigger] x[j]) == 0x23,
        lo < at ==> x[at - 1] != 0x23,
    ensures
        drop_hashes(x, lo, hi) == at,
    decreases hi,
{
    if at < hi {
        assert(x[hi - 1] == 0x23);
        lemma_hashes(x, lo, at, hi - 1);
    }
}

proof fn lemma_word_hashes(x: Seq<u8>, title: Seq<u8>, lo: int, n: int)
    requires
        0 <= lo,
        0 <= n <= title.len(),
        lo + title.len() <= x.len(),
        x.subrange(lo, lo + title.len()) == title,
        ends_in_word(title.take(n)),
    ensures
        ({
            let k = drop_hashes(x, lo, lo + n);
            lo < k <= lo + n && x[k - 1] != 0x20 && x[k - 1] != 0x09 && x[k - 1] != 0x23
        }),
    decreases n,
{
    let head = title.take(n);
    assert(head.len() > 0);
    assert(x[lo + n - 1] == x.subrange(lo, lo + title.len())[n - 1]);
    assert(head.last() == title[n - 1]);
    if head.last() == 0x23 {
        assert(head.drop_last() =~= title.take(n - 1));
        lemma_word_hashes(x, title, lo, n - 1);
    }
}

/// A title is what stands between the blanks, without a closing run of
/// hashes that a blank precedes.
pub proof fn law_title(lead: Seq<u8>, title: Seq<u8>, close_gap: Seq<u8>, close: nat, tail: Seq<u8>)
    requires
        is_blanks(lead),
        title.len() > 0,
        title[0] != 0x20 && title[0] != 0x09,
        ends_in_word(title),
        is_blanks(close_gap),
        close > 0 <==> close_gap.len() > 0,
        is_tail(tail),
    ensures
        title_of(lead + title + close_gap + times(0x23, close) + tail) == title,
{
    let x = lead + title + close_gap + times(0x23, close) + tail;
    let lo = lead.len() as int;
    let e = lo + title.len();
    let c = e + close_gap.len();
    let hi = c + close;
    assert(x[lo] == title[0]);
    assert forall|j: int| 0 <= j < lo implies (#[trigger] x[j]) == 0x20 || x[j] == 0x09 by {
        assert(x[j] == lead[j]);
    }
    lemma_skip(x, lo, 0);
    assert forall|j: int| hi <= j < x.len() implies (#[trigger] x[j]) == 0x20 || x[j] == 0x09 || x[j] == 0x0d by {
        assert(x[j] == tail[j - hi]);
    }
    assert(x[e - 1] == title.last());
    if close > 0 {
        assert(x[hi - 1] == 0x23);
    }
    lemma_drop(x, lo, hi, x.len() as int, true);
    assert(x.subrange(lo, e) =~= title);
    assert(title.take(title.len() as int) =~= title);
    if close > 0 {
        assert forall|j: int| c <= j < hi implies (#[trigger] x[j]) == 0x23 by {}
        assert(x[c - 1] == close_gap.last());
        lemma_hashes(x, lo, c, hi);
        assert forall|j: int| e <= j < c implies (#[trigger] x[j]) == 0x20 || x[j] == 0x09 by {
            assert(x[j] == close_gap[j - e]);
        }
        lemma_drop(x, lo, e, c, false);
    } else {
        assert(hi == e);
        lemma_word_hashes(x, title, lo, title.len() as int);
    }
}

proof fn lemma_no_title(x: Seq<u8>)
    requires
        is_tail(x),
    ensures
        title_of(x) == Seq::<u8>::empty(),
    decreases x.len(),
{
    lemma_skip_some(x, 0);
    let lo = skip_blanks(x, 0);
    lemma_drop(x, lo, lo, x.len() as int, true);
    assert(drop_hashes(x, lo, lo) == lo);
    assert(x.subrange(lo, lo) =~= Seq::empty());
}

proof fn lemma_skip_some(x: Seq<u8>, i: int)
    requires
        0 <= i <= x.len(),
    ensures
        i <= skip_blanks(x, i) <= x.len(),
    decreases x.len() - i,
{
    if i < x.len() && (x[i] == 0x20 || x[i] == 0x09) {
        lemma_skip_some(x, i + 1);
    }
}

// --- lines ----------------------------------------------------------

/// The kind of a line of blanks, a quote, an item, a rule, a row or
/// words, read behind its spaces.
spec fn plain(l: LineText) -> bool {
    !(l is Heading) && !(l is Untitled)
}

proof fn lemma_marker(s: Seq<u8>, p: int, n: nat, x: Seq<u8>)
    requires
        stands(s, p, times(0x20, n) + x),
        x.len() > 0,
        x[0] != 0x20,
    ensures
        stands(s, p, times(0x20, n)),
        stands(s, p + n, x),
        s[p + n] == x[0],
        byte_at(s, p + n) == Some(x[0]),
        marker_at(s, p) == if n <= 3 {
            Some(p + n)
        } else {
            None
        },
{
    lemma_stands_parts(s, p, times(0x20, n), x);
    lemma_stands_byte(s, p + n, x, 0);
    lemma_spaces(s, p, n, 4);
}

proof fn lemma_blank_marker(s: Seq<u8>, p: int, x: Seq<u8>, most: nat)
    requires
        stands(s, p, x + seq![0x0au8]),
        is_tail(x),
    ensures
        spaces_at(s, p, most) <= x.len(),
        ({
            let a = p + spaces_at(s, p, most);
            spaces_at(s, p, most) < most ==> a < s.len() && (s[a] == 0x09 || s[a] == 0x0d || s[a] == 0x0a)
        }),
    decreases most,
{
    let y = x + seq![0x0au8];
    lemma_stands_byte(s, p, y, 0);
    if most > 0 && x.len() > 0 {
        assert(y[0] == x[0]);
        if x[0] == 0x20 {
            assert(y =~= seq![0x20u8] + (x.skip(1) + seq![0x0au8]));
            lemma_stands_parts(s, p, seq![0x20u8], x.skip(1) + seq![0x0au8]);
            assert forall|i: int| 0 <= i < x.skip(1).len() implies (#[trigger] x.skip(1)[i]) == 0x20 || x.skip(1)[i]
                == 0x09 || x.skip(1)[i] == 0x0d by {
                assert(x.skip(1)[i] == x[i + 1]);
            }
            lemma_blank_marker(s, p + 1, x.skip(1), (most - 1) as nat);
        }
    }
}

proof fn lemma_line_free(l: LineText)
    requires
        l.valid(),
    ensures
        free_of_byte(l.text(), 0x0a),
{
    let x = l.text();
    match l {
        LineText::Words(indent, pieces) => {
            lemma_pieces_free(pieces);
            assert forall|i: int| 0 <= i < x.len() implies #[trigger] x[i] != 0x0a by {
                if i >= indent {
                    assert(x[i] == pieces_text(pieces)[i - indent]);
                }
            }
        },
        LineText::Heading(indent, level, gap, title, close_gap, close, tail) => {
            let a = (indent + level) as int;
            let b = a + gap.len();
            let c = b + title.len();
            let d = c + close_gap.len();
            let e = d + close;
            assert forall|i: int| 0 <= i < x.len() implies #[trigger] x[i] != 0x0a by {
                if a <= i < b {
                    assert(x[i] == gap[i - a]);
                } else if b <= i < c {
                    assert(x[i] == title[i - b]);
                } else if c <= i < d {
                    assert(x[i] == close_gap[i - c]);
                } else if i >= e {
                    assert(x[i] == tail[i - e]);
                }
            }
        },
        LineText::Untitled(indent, level, tail) => {
            let a = (indent + level) as int;
            assert forall|i: int| 0 <= i < x.len() implies #[trigger] x[i] != 0x0a by {
                if i >= a {
                    assert(x[i] == tail[i - a]);
                }
            }
        },
        LineText::Ordered(indent, dg, c, blank, t) => {
            let a = indent as int;
            let b = a + dg.len();
            assert forall|i: int| 0 <= i < x.len() implies #[trigger] x[i] != 0x0a by {
                if a <= i < b {
                    assert(x[i] == dg[i - a]);
                } else if i >= b + 2 {
                    assert(x[i] == t[i - b - 2]);
                }
            }
        },
        LineText::Bullet(indent, c, blank, t) => {
            assert forall|i: int| 0 <= i < x.len() implies #[trigger] x[i] != 0x0a by {
                if i >= indent + 2 {
                    assert(x[i] == t[i - indent - 2]);
                }
            }
        },
        LineText::Quote(indent, t) => {
            assert forall|i: int| 0 <= i < x.len() implies #[trigger] x[i] != 0x0a by {
                if i >= indent + 1 {
                    assert(x[i] == t[i - indent - 1]);
                }
            }
        },
        LineText::Row(indent, t) => {
            assert forall|i: int| 0 <= i < x.len() implies #[trigger] x[i] != 0x0a by {
                if i >= indent + 1 {
                    assert(x[i] == t[i - indent - 1]);
                }
            }
        },
        LineText::Rule(indent, c, t) => {
            assert forall|i: int| 0 <= i < x.len() implies #[trigger] x[i] != 0x0a by {
                if i >= indent {
                    assert(x[i] == t[i - indent]);
                }
            }
        },
        LineText::Almost(indent, t) => {
            assert forall|i: int| 0 <= i < x.len() implies #[trigger] x[i] != 0x0a by {
                if i >= indent {
                    assert(x[i] == t[i - indent]);
                }
            }
        },
        LineText::Blank(t) => {},
    }
}

proof fn lemma_pieces_free(pieces: Seq<TextPiece>)
    requires
        forall|i: int| 0 <= i < pieces.len() ==> (#[trigger] pieces[i]).valid(),
    ensures
        free_of_byte(pieces_text(pieces), 0x0a),
    decreases pieces.len(),
{
    if pieces.len() > 0 {
        let rest = pieces.skip(1);
        assert forall|i: int| 0 <= i < rest.len() implies (#[trigger] rest[i]).valid() by {
            assert(rest[i] == pieces[i + 1]);
        }
        lemma_pieces_free(rest);
        let h = pieces[0].text();
        let x = pieces_text(pieces);
        assert(pieces[0].valid());
        assert forall|i: int| 0 <= i < h.len() implies #[trigger] h[i] != 0x0a by {
            if let TextPiece::Code(n, w) = pieces[0] {
                if n <= i < n + w.len() {
                    assert(h[i] == w[i - n]);
                }
            }
        }
        assert forall|i: int| 0 <= i < x.len() implies #[trigger] x[i] != 0x0a by {
            if i < h.len() {
                assert(x[i] == h[i]);
            } else {
                assert(x[i] == pieces_text(rest)[i - h.len()]);
            }
        }
    }
}

proof fn lemma_leading(s: Seq<u8>, p: int, x: Seq<u8>, b: u8)
    requires
        stands(s, p, x),
        b != 0x0a,
        p + x.len() < s.len(),
        s[p + x.len()] == 0x0a,
    ensures
        run_of(s, p, b) == p + leading(x, b),
        leading(x, b) <= x.len(),
    decreases x.len(),
{
    if x.len() > 0 {
        lemma_stands_byte(s, p, x, 0);
        assert(x =~= seq![x[0]] + x.skip(1));
        lemma_stands_parts(s, p, seq![x[0]], x.skip(1));
        lemma_leading(s, p + 1, x.skip(1), b);
    }
}

proof fn lemma_leading_digits(s: Seq<u8>, p: int, x: Seq<u8>)
    requires
        stands(s, p, x),
        p + x.len() < s.len(),
        s[p + x.len()] == 0x0a,
    ensures
        digits_end(s, p) == p + leading_digits(x),
        leading_digits(x) <= x.len(),
    decreases x.len(),
{
    if x.len() > 0 {
        lemma_stands_byte(s, p, x, 0);
        assert(x =~= seq![x[0]] + x.skip(1));
        lemma_stands_parts(s, p, seq![x[0]], x.skip(1));
        lemma_leading_digits(s, p + 1, x.skip(1));
    }
}

/// A line that starts almost like another is none of them.
proof fn lemma_almost(s: Seq<u8>, a: int, x: Seq<u8>)
    requires
        x.len() > 0,
        free_of_byte(x, 0x0a),
        is_almost(x),
        stands(s, a, x),
        a + x.len() < s.len(),
        s[a + x.len()] == 0x0a,
    ensures
        x[0] == 0x23 ==> heading_level(s, a) is None,
        x[0] == 0x2d || x[0] == 0x2a || x[0] == 0x5f ==> rule_or_item(s, a) is None,
        0x30 <= x[0] <= 0x39 ==> ordered_marker(s, a) is None,
        x[0] == 0x7e ==> run_of(s, a, 0x7e) - a < 3,
        x[0] != 0x60 && x[0] != 0x3e && x[0] != 0x7c && x[0] != 0x20,
{
    let c = x[0];
    lemma_stands_byte(s, a, x, 0);
    assert(c != 0x0a);
    lemma_leading(s, a, x, c);
    let n = leading(x, c) as int;
    if c == 0x23 {
        if n < x.len() {
            lemma_stands_byte(s, a, x, n);
        }
    } else if c == 0x2d || c == 0x2a || c == 0x5f {
        lemma_rule(s, a, x, c);
        if x.len() > 1 {
            lemma_stands_byte(s, a, x, 1);
        }
    } else if 0x30 <= c <= 0x39 {
        lemma_leading_digits(s, a, x);
        let d = leading_digits(x) as int;
        if d < x.len() {
            lemma_stands_byte(s, a, x, d);
        }
        if d + 1 < x.len() {
            lemma_stands_byte(s, a, x, d + 1);
        }
    }
}

/// A line that is neither heading nor fence gets its kind.
proof fn lemma_plain_kind(s: Seq<u8>, m: MdState, l: LineText, classify: bool)
    requires
        l.valid(),
        plain(l),
        stands(s, m.st.pos, l.text() + seq![0x0au8]),
    ensures
        plain_line_kind(s, m.st.pos) == l.kind(),
        md_line(s, m, classify) == md_plain_line(s, m, classify),
{
    let p = m.st.pos;
    lemma_line_free(l);
    lemma_feed(s, p, l.text());
    match l {
        LineText::Blank(x) => {
            lemma_blank_marker(s, p, x, 4);
            lemma_blank(s, p, x);
        },
        LineText::Quote(indent, x) => {
            lemma_marker(s, p, indent, seq![0x3eu8] + x);
        },
        LineText::Row(indent, x) => {
            lemma_marker(s, p, indent, seq![0x7cu8] + x);
        },
        LineText::Bullet(indent, c, blank, x) => {
            let y = seq![c, blank] + x;
            lemma_marker(s, p, indent, y);
            lemma_stands_byte(s, p + indent, y, 1);
            assert(free_of_byte(y, 0x0a)) by {
                assert forall|i: int| 0 <= i < y.len() implies #[trigger] y[i] != 0x0a by {
                    if i >= 2 {
                        assert(y[i] == x[i - 2]);
                    }
                }
            }
            lemma_rule(s, p + indent, y, c);
            let k = choose|k: int|
                0 <= k < x.len() && !((#[trigger] x[k]) == c || x[k] == 0x20 || x[k] == 0x09 || x[k] == 0x0d);
            assert(y[k + 2] == x[k]);
            assert(!only_with_blanks(y, c));
        },
        LineText::Rule(indent, c, x) => {
            lemma_marker(s, p, indent, x);
            assert(free_of_byte(x, 0x0a)) by {
                assert forall|i: int| 0 <= i < x.len() implies #[trigger] x[i] != 0x0a by {}
            }
            lemma_rule(s, p + indent, x, c);
        },
        LineText::Ordered(indent, d, c, blank, x) => {
            let tail = seq![c, blank] + x;
            assert((d + tail)[0] == d[0]);
            lemma_marker(s, p, indent, d + tail);
            let a = p + indent;
            lemma_stands_parts(s, a, d, tail);
            lemma_stands_byte(s, a + d.len(), tail, 0);
            lemma_stands_byte(s, a + d.len(), tail, 1);
            lemma_digits(s, a, d);
            assert(ordered_marker(s, a) == Some((d.len() + 2) as u32));
        },
        LineText::Words(indent, pieces) => {
            let w = match pieces[0] {
                TextPiece::Words(x) => x,
                _ => Seq::empty(),
            };
            assert(pieces[0].valid());
            assert(pieces_text(pieces)[0] == w[0]);
            assert(w[0] != 0x0a);
            lemma_marker(s, p, indent, pieces_text(pieces));
            lemma_not_blank(s, p, indent);
        },
        LineText::Almost(indent, x) => {
            lemma_marker(s, p, indent, x);
            lemma_not_blank(s, p, indent);
            lemma_almost(s, p + indent, x);
        },
        _ => {},
    }
}

// --- states ---------------------------------------------------------

spec fn md_ok(m: MdState) -> bool {
    &&& m.st.paths.len() > 0
    &&& m.st.names.len() <= m.st.paths.len()
    &&& forall|k: int| 0 <= k < m.stack.len() ==> (#[trigger] m.stack[k]).0 < m.st.paths.len()
}

/// `e` is the entry of the heading `h`: start, level and title.
pub open spec fn is_head(e: PathEntry, names: Seq<Seq<u8>>, h: (int, nat, Seq<u8>)) -> bool {
    e.start == h.0 && (e.segment matches PathSegment::Heading { level, text } && level == h.1 && text < names.len()
        && names[text as int] == h.2)
}

spec fn md_adds(
    m: MdState,
    to: MdState,
    pos: int,
    kinds: Seq<BlockKind>,
    spans: Seq<StyleSpan>,
    heads: Seq<(int, nat, Seq<u8>)>,
) -> bool {
    let n = m.st.paths.len() as int;
    let b = m.blocks.len() as int;
    &&& to.st.pos == pos
    &&& to.blocks.len() == b + kinds.len()
    &&& forall|i: int| 0 <= i < b ==> (#[trigger] to.blocks[i]) == m.blocks[i]
    &&& forall|i: int| 0 <= i < kinds.len() ==> (#[trigger] to.blocks[b + i]).kind == kinds[i]
    &&& to.st.styles == m.st.styles + spans
    &&& to.st.paths.len() == n + heads.len()
    &&& forall|i: int|
        0 <= i < n ==> (#[trigger] to.st.paths[i]).start == m.st.paths[i].start && to.st.paths[i].segment
            == m.st.paths[i].segment
    &&& forall|i: int| 0 <= i < heads.len() ==> is_head(#[trigger] to.st.paths[n + i], to.st.names, heads[i])
    &&& m.st.names.len() <= to.st.names.len()
    &&& forall|i: int| 0 <= i < m.st.names.len() ==> (#[trigger] m.st.names[i]) == to.st.names[i]
    &&& md_ok(to)
}

proof fn lemma_md_trans(
    a: MdState,
    b: MdState,
    c: MdState,
    p1: int,
    p2: int,
    k1: Seq<BlockKind>,
    k2: Seq<BlockKind>,
    s1: Seq<StyleSpan>,
    s2: Seq<StyleSpan>,
    h1: Seq<(int, nat, Seq<u8>)>,
    h2: Seq<(int, nat, Seq<u8>)>,
)
    requires
        md_adds(a, b, p1, k1, s1, h1),
        md_adds(b, c, p2, k2, s2, h2),
    ensures
        md_adds(a, c, p2, k1 + k2, s1 + s2, h1 + h2),
{
    let n = a.st.paths.len() as int;
    let nb = a.blocks.len() as int;
    assert(c.st.styles =~= a.st.styles + (s1 + s2));
    assert forall|i: int| 0 <= i < nb implies (#[trigger] c.blocks[i]) == a.blocks[i] by {
        assert(c.blocks[i] == b.blocks[i]);
    }
    let k = k1 + k2;
    assert forall|i: int| 0 <= i < k.len() implies (#[trigger] c.blocks[nb + i]).kind == k[i] by {
        if i < k1.len() {
            assert(c.blocks[nb + i] == b.blocks[nb + i]);
        } else {
            assert(c.blocks[b.blocks.len() + (i - k1.len())].kind == k2[i - k1.len()]);
        }
    }
    assert forall|i: int| 0 <= i < n implies (#[trigger] c.st.paths[i]).start == a.st.paths[i].start
        && c.st.paths[i].segment == a.st.paths[i].segment by {
        assert(b.st.paths[i].start == a.st.paths[i].start);
    }
    let h = h1 + h2;
    assert forall|i: int| 0 <= i < h.len() implies is_head(#[trigger] c.st.paths[n + i], c.st.names, h[i]) by {
        if i < h1.len() {
            assert(is_head(b.st.paths[n + i], b.st.names, h1[i]));
            assert(c.st.paths[n + i].start == b.st.paths[n + i].start);
            assert(h[i] == h1[i]);
            if let PathSegment::Heading { level, text } = b.st.paths[n + i].segment {
                assert(b.st.names[text as int] == c.st.names[text as int]);
            }
        } else {
            let j = i - h1.len();
            assert(is_head(c.st.paths[b.st.paths.len() + j], c.st.names, h2[j]));
            assert(h[i] == h2[j]);
        }
    }
    assert forall|i: int| 0 <= i < a.st.names.len() implies (#[trigger] a.st.names[i]) == c.st.names[i] by {
        assert(b.st.names[i] == a.st.names[i]);
    }
}

proof fn lemma_close_keeps(m: MdState, level: u32, end: int)
    requires
        md_ok(m),
    ensures
        ({
            let to = close_headings(m, level, end);
            md_adds(m, to, m.st.pos, Seq::empty(), Seq::empty(), Seq::empty()) && to.st.names == m.st.names
                && to.blocks == m.blocks && to.st.styles == m.st.styles && to.st.paths.len() == m.st.paths.len()
        }),
    decreases m.stack.len(),
{
    assert(m.st.styles + Seq::<StyleSpan>::empty() =~= m.st.styles);
    if !(m.stack.len() == 0 || m.stack.last().1 < level) {
        let top = m.stack.last().0 as int;
        assert(m.stack[m.stack.len() - 1].0 < m.st.paths.len());
        let next = MdState { st: m.st.closed_at(top, end), stack: m.stack.drop_last(), ..m };
        assert forall|k: int| 0 <= k < next.stack.len() implies (#[trigger] next.stack[k]).0 < next.st.paths.len() by {
            assert(next.stack[k] == m.stack[k]);
        }
        lemma_close_keeps(next, level, end);
        let to = close_headings(next, level, end);
        assert forall|i: int| 0 <= i < m.st.paths.len() implies (#[trigger] to.st.paths[i]).start == m.st.paths[i].start
            && to.st.paths[i].segment == m.st.paths[i].segment by {
            assert(to.st.paths[i].start == next.st.paths[i].start);
        }
    }
}

/// A heading line is read.
proof fn lemma_heading_line(s: Seq<u8>, m: MdState, a: int, level: nat, text_len: nat, title: Seq<u8>)
    requires
        md_ok(m),
        m.st.paths.len() < u32::MAX,
        s.len() < u32::MAX,
        0 <= m.st.pos,
        1 <= level <= 6,
        m.st.pos + text_len < s.len(),
        ({
            let text = title_start(s, a);
            let end = m.st.pos + text_len;
            &&& index_from(s, text, 0x0a) == end
            &&& past_byte(s, end, 0x0a) == end + 1
            &&& title_of(s.subrange(text, end)) == title
        }),
    ensures
        md_adds(
            m,
            md_heading(s, m, a, level as u32),
            m.st.pos + text_len + 1,
            seq![BlockKind::Heading { level: level as u32 }],
            seq![
                StyleSpan {
                    start: m.st.pos as u32,
                    end: (m.st.pos + text_len) as u32,
                    kind: StyleKind::Heading,
                },
            ],
            seq![(m.st.pos, level, title)],
        ),
{
    let line = m.st.pos;
    let end = line + text_len;
    let id = intern_id(m.st.names, title);
    let noted = m.line(s, BlockKind::Heading { level: level as u32 });
    let named = MdState { st: m.st.with_name(title), ..noted };
    assert(interned(m.st.names, title)[id] == title);
    assert(id < interned(m.st.names, title).len());
    let with_room = MdState { st: ScanState { names: m.st.names, ..named.st }, ..named };
    lemma_close_names(named, m.st.names, level as u32, line);
    lemma_close_keeps(with_room, level as u32, line);
    let closed = close_headings(named, level as u32, line);
    let to = md_heading(s, m, a, level as u32);
    assert(to.blocks =~= m.blocks.push(noted.blocks.last()));
    assert(to.st.styles =~= m.st.styles + seq![
        StyleSpan { start: line as u32, end: end as u32, kind: StyleKind::Heading },
    ]);
    let n = m.st.paths.len() as int;
    assert forall|i: int| 0 <= i < n implies (#[trigger] to.st.paths[i]).start == m.st.paths[i].start
        && to.st.paths[i].segment == m.st.paths[i].segment by {
        assert(to.st.paths[i] == closed.st.paths[i]);
    }
    assert forall|k: int| 0 <= k < to.stack.len() implies (#[trigger] to.stack[k]).0 < to.st.paths.len() by {
        if k < closed.stack.len() {
            assert(to.stack[k] == closed.stack[k]);
            let other = close_headings(with_room, level as u32, line);
            assert(other.stack[k].0 < other.st.paths.len());
            assert(other.stack == closed.stack);
        }
    }
    assert(is_head(to.st.paths[n], to.st.names, (line, level, title)));
}

/// Names play no part in closing headings.
proof fn lemma_close_names(m: MdState, names: Seq<Seq<u8>>, level: u32, end: int)
    ensures
        ({
            let other = MdState { st: ScanState { names, ..m.st }, ..m };
            let a = close_headings(m, level, end);
            let b = close_headings(other, level, end);
            &&& a.st.names == m.st.names
            &&& b == (MdState { st: ScanState { names, ..a.st }, ..a })
        }),
    decreases m.stack.len(),
{
    if !(m.stack.len() == 0 || m.stack.last().1 < level) {
        let next = MdState {
            st: m.st.closed_at(m.stack.last().0 as int, end),
            stack: m.stack.drop_last(),
            ..m
        };
        lemma_close_names(next, names, level, end);
    }
}

proof fn lemma_feed_from(s: Seq<u8>, p: int, x: Seq<u8>, i: int)
    requires
        stands(s, p, x + seq![0x0au8]),
        free_of_byte(x, 0x0a),
        0 <= i <= x.len(),
    ensures
        index_from(s, p + i, 0x0a) == p + x.len(),
        past_byte(s, p + i, 0x0a) == p + x.len() + 1,
{
    lemma_feed(s, p, x);
    lemma_index_from(s, p + i, 0x0a);
    let k = index_from(s, p + i, 0x0a);
    if k < p + x.len() {
        lemma_stands_byte(s, p, x, k - p);
    }
}

proof fn lemma_heading(s: Seq<u8>, m: MdState, l: LineText, classify: bool)
    requires
        l.valid(),
        !plain(l),
        md_ok(m),
        stands(s, m.st.pos, l.text() + seq![0x0au8]),
        m.st.paths.len() < u32::MAX,
        s.len() < u32::MAX,
    ensures
        md_adds(
            m,
            md_line(s, m, classify),
            m.st.pos + l.text().len() + 1,
            seq![l.kind()],
            l.spans(m.st.pos),
            l.heads(m.st.pos),
        ),
{
    let p = m.st.pos;
    let x = l.text();
    lemma_line_free(l);
    lemma_feed(s, p, x);
    let (indent, level, rest) = match l {
        LineText::Heading(indent, level, gap, title, close_gap, close, tail) => (
            indent,
            level,
            gap + title + close_gap + times(0x23, close) + tail,
        ),
        LineText::Untitled(indent, level, tail) => (indent, level, tail),
        _ => (0, 0, Seq::empty()),
    };
    let hashes = times(0x23, level);
    assert((hashes + rest)[0] == 0x23);
    lemma_marker(s, p, indent, hashes + rest);
    let a = p + indent;
    let h = a + level;
    lemma_stands_parts(s, a, hashes, rest);
    let end = p + x.len();
    assert(h + rest.len() == end);
    if rest.len() > 0 {
        lemma_stands_byte(s, h, rest, 0);
        if let LineText::Heading(_, _, gap, _, _, _, _) = l {
            assert(rest[0] == gap[0]);
        }
    }
    lemma_run(s, a, 0x23, level);
    assert(heading_level(s, a) == Some(level as u32));
    let text = title_start(s, a);
    let cut = text - h;
    assert(cut == 0 || cut == 1);
    lemma_feed_from(s, p, x, text - p);
    lemma_feed_from(s, p, x, x.len() as int);
    let raw = s.subrange(text, end);
    assert(raw =~= rest.skip(cut)) by {
        assert(s.subrange(h, end) == rest);
        assert(s.subrange(h, end).skip(cut) =~= raw);
    }
    match l {
        LineText::Heading(_, _, gap, title, close_gap, close, tail) => {
            assert(cut == 1);
            let lead = gap.skip(1);
            assert forall|i: int| 0 <= i < lead.len() implies (#[trigger] lead[i]) == 0x20 || lead[i] == 0x09 by {
                assert(lead[i] == gap[i + 1]);
            }
            assert(raw =~= lead + title + close_gap + times(0x23, close) + tail);
            law_title(lead, title, close_gap, close, tail);
            lemma_heading_line(s, m, a, level, x.len(), title);
        },
        LineText::Untitled(_, _, tail) => {
            assert forall|i: int| 0 <= i < raw.len() implies (#[trigger] raw[i]) == 0x20 || raw[i] == 0x09 || raw[i]
                == 0x0d by {
                assert(raw[i] == tail[i + cut]);
            }
            lemma_no_title(raw);
            lemma_heading_line(s, m, a, level, x.len(), Seq::empty());
        },
        _ => {},
    }
    assert(md_line(s, m, classify) == md_heading(s, m, a, level as u32));
}

// --- text lines -----------------------------------------------------

proof fn lemma_code_closes(s: Seq<u8>, p: int, x: Seq<u8>, n: nat)
    requires
        stands(s, p, x + times(0x60, n)),
        free_of_byte(x, 0x60),
        free_of_byte(x, 0x0a),
        n > 0,
        p + x.len() + n < s.len() ==> s[p + x.len() + n] != 0x60,
    ensures
        code_close(s, p, n as int) == Some(p + x.len() + n),
    decreases x.len(),
{
    lemma_stands_parts(s, p, x, times(0x60, n));
    if x.len() > 0 {
        lemma_stands_byte(s, p, x, 0);
        assert(x + times(0x60, n) =~= seq![x[0]] + (x.skip(1) + times(0x60, n)));
        lemma_stands_parts(s, p, seq![x[0]], x.skip(1) + times(0x60, n));
        lemma_code_closes(s, p + 1, x.skip(1), n);
    } else {
        lemma_stands_byte(s, p, times(0x60, n), 0);
        lemma_run(s, p, 0x60, n);
    }
}

proof fn lemma_words_skip(s: Seq<u8>, st: ScanState, x: Seq<u8>)
    requires
        stands(s, st.pos, x),
        free_of_byte(x, 0x60),
        free_of_byte(x, 0x0a),
    ensures
        inline_code(s, st) == inline_code(s, st.at(st.pos + x.len())),
    decreases x.len(),
{
    if x.len() > 0 {
        lemma_stands_byte(s, st.pos, x, 0);
        assert(x =~= seq![x[0]] + x.skip(1));
        lemma_stands_parts(s, st.pos, seq![x[0]], x.skip(1));
        let next = st.at(st.pos + 1);
        lemma_words_skip(s, next, x.skip(1));
        assert(next.at(next.pos + x.skip(1).len()) == st.at(st.pos + x.len()));
    } else {
        assert(st.at(st.pos + x.len()) == st);
    }
}

proof fn lemma_text_pieces(s: Seq<u8>, st: ScanState, pieces: Seq<TextPiece>)
    requires
        pieces_valid(pieces),
        stands(s, st.pos, pieces_text(pieces) + seq![0x0au8]),
    ensures
        inline_code(s, st) == (ScanState {
            pos: st.pos + pieces_text(pieces).len(),
            styles: st.styles + pieces_spans(pieces, st.pos),
            ..st
        }),
    decreases pieces.len(),
{
    let p = st.pos;
    lemma_stands_parts(s, p, pieces_text(pieces), seq![0x0au8]);
    if pieces.len() == 0 {
        lemma_stands_byte(s, p, seq![0x0au8], 0);
        assert(st.styles + Seq::<StyleSpan>::empty() =~= st.styles);
    } else {
        let piece = pieces[0];
        let rest = pieces.skip(1);
        assert(piece.valid());
        let q = p + piece.text().len();
        let tail = pieces_text(rest) + seq![0x0au8];
        assert(pieces_text(pieces) + seq![0x0au8] =~= piece.text() + tail);
        lemma_stands_parts(s, p, piece.text(), tail);
        assert forall|k: int| 0 <= k < rest.len() implies (#[trigger] rest[k]).valid() by {
            assert(rest[k] == pieces[k + 1]);
        }
        assert forall|k: int, j: int| 0 <= k < rest.len() - 1 && j == k + 1 implies !((#[trigger] rest[k]) is Code && (
        #[trigger] rest[j]) is Code) by {
            assert(rest[k] == pieces[k + 1] && rest[j] == pieces[j + 1]);
        }
        match piece {
            TextPiece::Words(x) => {
                lemma_words_skip(s, st, x);
                lemma_text_pieces(s, st.at(q), rest);
            },
            TextPiece::Code(n, x) => {
                let marks = times(0x60, n);
                lemma_stands_parts(s, p, marks, x + marks);
                lemma_stands_parts(s, p + n, x, marks);
                lemma_stands_byte(s, p, marks, 0);
                lemma_stands_byte(s, p + n, x, 0);
                lemma_run(s, p, 0x60, n);
                lemma_stands_byte(s, q, tail, 0);
                if rest.len() > 0 {
                    assert(rest[0] == pieces[1]);
                    assert(!(pieces[0] is Code && pieces[1] is Code));
                    assert(rest[0].valid());
                    assert(tail[0] == rest[0].text()[0]);
                } else {
                    assert(tail[0] == 0x0a);
                }
                lemma_code_closes(s, p + n, x, n);
                let next = st.styled(p, q, StyleKind::Code).at(q);
                assert(inline_code(s, st) == inline_code(s, next));
                lemma_text_pieces(s, next, rest);
                let span = StyleSpan { start: p as u32, end: q as u32, kind: StyleKind::Code };
                assert(next.styles + pieces_spans(rest, q) =~= st.styles + pieces_spans(pieces, p));
            },
        }
    }
}

/// A line that is neither heading nor fence is read.
proof fn lemma_plain_line(s: Seq<u8>, m: MdState, l: LineText, classify: bool)
    requires
        l.valid(),
        plain(l),
        md_ok(m),
        stands(s, m.st.pos, l.text() + seq![0x0au8]),
        !classify && !(l is Words) && !(l is Almost) ==> free_of_byte(l.text(), 0x60),
    ensures
        md_adds(
            m,
            md_line(s, m, classify),
            m.st.pos + l.text().len() + 1,
            seq![l.kind()],
            l.spans(m.st.pos),
            Seq::empty(),
        ),
{
    let p = m.st.pos;
    let x = l.text();
    lemma_line_free(l);
    lemma_feed(s, p, x);
    lemma_feed_from(s, p, x, x.len() as int);
    lemma_plain_kind(s, m, l, classify);
    let to = md_line(s, m, classify);
    let noted = m.line(s, l.kind());
    match l {
        LineText::Words(indent, pieces) => {
            let body = pieces_text(pieces);
            let sp = times(0x20, indent);
            lemma_stands_parts(s, p, sp, body);
            assert(x + seq![0x0au8] =~= sp + (body + seq![0x0au8]));
            lemma_stands_parts(s, p, sp, body + seq![0x0au8]);
            lemma_words_skip(s, m.st, sp);
            lemma_text_pieces(s, m.st.at(p + indent), pieces);
            assert(l.kind() == BlockKind::Paragraph);
        },
        _ => {
            assert(l.spans(p) =~= Seq::empty());
            assert(m.st.styles + Seq::<StyleSpan>::empty() =~= m.st.styles);
            if let LineText::Almost(indent, t) = l {
                assert forall|i: int| 0 <= i < x.len() implies #[trigger] x[i] != 0x60 by {
                    if i >= indent {
                        assert(x[i] == t[i - indent]);
                    }
                }
            }
            if !classify || l is Almost {
                lemma_words_skip(s, m.st, x);
                let e = m.st.at(p + x.len());
                assert(inline_code(s, e) == e);
            }
        },
    }
    assert(to.blocks =~= m.blocks.push(noted.blocks.last()));
}

// --- fences ---------------------------------------------------------

proof fn lemma_not_closing(s: Seq<u8>, p: int, x: Seq<u8>, c: u8, count: int)
    requires
        stands(s, p, x + seq![0x0au8]),
        free_of_byte(x, c),
        free_of_byte(x, 0x0a),
        c == 0x60 || c == 0x7e,
    ensures
        !closes_fence(s, p, c, count),
{
    lemma_feed(s, p, x);
    if let Some(a) = marker_at(s, p) {
        crate::markdown_core::lemma_spaces_at(s, p, 4);
        let k = a - p;
        if k <= x.len() {
            lemma_stands_byte(s, p, x + seq![0x0au8], k);
        } else {
            assert(s[p + x.len()] == 0x20);
        }
    }
}

proof fn lemma_fence_lines(s: Seq<u8>, m: MdState, f: FenceText, lines: Seq<Seq<u8>>)
    requires
        f.valid(),
        md_ok(m),
        forall|i: int|
            0 <= i < lines.len() ==> free_of_byte(#[trigger] lines[i], 0x0a) && free_of_byte(lines[i], f.mark),
        stands(s, m.st.pos, lines_fed(lines) + (f.closing() + seq![0x0au8])),
    ensures
        md_adds(
            m,
            md_fence_lines(s, m, f.mark, f.count as int),
            m.st.pos + lines_fed(lines).len() + f.closing().len() + 1,
            Seq::new(lines.len() + 1, |i: int| BlockKind::FencedCode),
            Seq::empty(),
            Seq::empty(),
        ),
    decreases lines.len(),
{
    let p = m.st.pos;
    let one = seq![BlockKind::FencedCode];
    let no_spans = Seq::<StyleSpan>::empty();
    let no_heads = Seq::<(int, nat, Seq<u8>)>::empty();
    assert(m.st.styles + no_spans =~= m.st.styles);
    let kinds = Seq::new(lines.len() + 1, |i: int| BlockKind::FencedCode);
    if lines.len() == 0 {
        let x = f.closing();
        assert(lines_fed(lines) + (x + seq![0x0au8]) =~= x + seq![0x0au8]);
        let marks = times(f.mark, f.close_count);
        let rest = marks + f.close_tail;
        assert forall|i: int| 0 <= i < x.len() implies #[trigger] x[i] != 0x0a by {
            if i >= f.close_indent + f.close_count {
                assert(x[i] == f.close_tail[i - f.close_indent - f.close_count]);
            }
        }
        lemma_feed(s, p, x);
        assert(rest[0] == f.mark);
        lemma_marker(s, p, f.close_indent, rest);
        let a = p + f.close_indent;
        lemma_stands_parts(s, a, marks, f.close_tail);
        let e = a + f.close_count;
        if f.close_tail.len() > 0 {
            lemma_stands_byte(s, e, f.close_tail, 0);
        }
        lemma_run(s, a, f.mark, f.close_count);
        lemma_blank(s, e, f.close_tail);
        assert(closes_fence(s, p, f.mark, f.count as int));
        let to = md_fence_lines(s, m, f.mark, f.count as int);
        assert(to == m.line(s, BlockKind::FencedCode).at(p + x.len() + 1));
        assert(kinds =~= one);
    } else {
        let x = lines[0];
        let rest = lines.skip(1);
        let tail = lines_fed(rest) + (f.closing() + seq![0x0au8]);
        assert(lines_fed(lines) + (f.closing() + seq![0x0au8]) =~= (x + seq![0x0au8]) + tail);
        lemma_stands_parts(s, p, x + seq![0x0au8], tail);
        assert(free_of_byte(x, 0x0a) && free_of_byte(x, f.mark));
        lemma_feed(s, p, x);
        lemma_not_closing(s, p, x, f.mark, f.count as int);
        let next = m.line(s, BlockKind::FencedCode).at(p + x.len() + 1);
        assert forall|i: int| 0 <= i < rest.len() implies free_of_byte(#[trigger] rest[i], 0x0a) && free_of_byte(
            rest[i],
            f.mark,
        ) by {
            assert(rest[i] == lines[i + 1]);
        }
        lemma_fence_lines(s, next, f, rest);
        let more = Seq::new(rest.len() + 1, |i: int| BlockKind::FencedCode);
        assert(md_adds(m, next, next.st.pos, one, no_spans, no_heads));
        let last = md_fence_lines(s, next, f.mark, f.count as int);
        lemma_md_trans(
            m,
            next,
            last,
            next.st.pos,
            last.st.pos,
            one,
            more,
            no_spans,
            no_spans,
            no_heads,
            no_heads,
        );
        assert(one + more =~= kinds);
        assert(no_spans + no_spans =~= no_spans);
        assert(no_heads + no_heads =~= no_heads);
        assert(md_fence_lines(s, m, f.mark, f.count as int) == last);
    }
}

proof fn lemma_fence(s: Seq<u8>, m: MdState, f: FenceText, classify: bool)
    requires
        f.valid(),
        md_ok(m),
        stands(s, m.st.pos, MdText::Fence(f).text()),
    ensures
        md_adds(
            m,
            md_line(s, m, classify),
            m.st.pos + MdText::Fence(f).text().len(),
            MdText::Fence(f).kinds(),
            MdText::Fence(f).spans(m.st.pos),
            Seq::empty(),
        ),
{
    let p = m.st.pos;
    let x = f.opening();
    let tail = lines_fed(f.lines) + (f.closing() + seq![0x0au8]);
    assert(MdText::Fence(f).text() =~= (x + seq![0x0au8]) + tail);
    lemma_stands_parts(s, p, x + seq![0x0au8], tail);
    let marks = times(f.mark, f.count);
    assert forall|i: int| 0 <= i < x.len() implies #[trigger] x[i] != 0x0a by {
        if i >= f.indent + f.count {
            assert(x[i] == f.info[i - f.indent - f.count]);
        }
    }
    lemma_feed(s, p, x);
    assert((marks + f.info)[0] == f.mark);
    lemma_marker(s, p, f.indent, marks + f.info);
    let a = p + f.indent;
    lemma_stands_parts(s, a, marks, f.info);
    if f.info.len() > 0 {
        lemma_stands_byte(s, a + f.count, f.info, 0);
    }
    lemma_run(s, a, f.mark, f.count);
    let next = m.line(s, BlockKind::FencedCode).at(p + x.len() + 1);
    lemma_fence_lines(s, next, f, f.lines);
    let one = seq![BlockKind::FencedCode];
    let more = Seq::new(f.lines.len() + 1, |i: int| BlockKind::FencedCode);
    let no_spans = Seq::<StyleSpan>::empty();
    let no_heads = Seq::<(int, nat, Seq<u8>)>::empty();
    assert(m.st.styles + no_spans =~= m.st.styles);
    assert(md_adds(m, next, next.st.pos, one, no_spans, no_heads));
    let inside = md_fence_lines(s, next, f.mark, f.count as int);
    lemma_md_trans(m, next, inside, next.st.pos, inside.st.pos, one, more, no_spans, no_spans, no_heads, no_heads);
    assert(one + more =~= MdText::Fence(f).kinds());
    assert(no_heads + no_heads =~= no_heads);
    assert(inside.st.styles =~= m.st.styles);
    let to = md_line(s, m, classify);
    assert(to == md_fence(s, m, f.mark, f.count as int));
    assert(to.st.styles =~= m.st.styles + MdText::Fence(f).spans(p));
}

// --- documents ------------------------------------------------------

pub open spec fn md_valid(items: Seq<MdText>, classify: bool) -> bool {
    forall|i: int|
        0 <= i < items.len() ==> (#[trigger] items[i]).valid() && (!classify ==> (items[i] matches MdText::Line(l)
            ==> l is Words || l is Almost || l.kind() is Heading || free_of_byte(l.text(), 0x60)))
}

proof fn lemma_items(s: Seq<u8>, m: MdState, items: Seq<MdText>, classify: bool)
    requires
        md_valid(items, classify),
        md_ok(m),
        stands(s, m.st.pos, md_text(items)),
        m.st.pos + md_text(items).len() == s.len(),
        m.st.paths.len() + md_text(items).len() < u32::MAX,
        s.len() < u32::MAX,
    ensures
        md_adds(
            m,
            md_lines(s, m, classify),
            s.len() as int,
            md_kinds(items),
            md_spans(items, m.st.pos),
            md_heads(items, m.st.pos),
        ),
    decreases items.len(),
{
    let p = m.st.pos;
    if items.len() == 0 {
        assert(m.st.styles + Seq::<StyleSpan>::empty() =~= m.st.styles);
    } else {
        let item = items[0];
        let rest = items.skip(1);
        assert(item.valid());
        lemma_stands_parts(s, p, item.text(), md_text(rest));
        let next = md_line(s, m, classify);
        let q = p + item.text().len();
        match item {
            MdText::Line(l) => {
                if plain(l) {
                    lemma_plain_line(s, m, l, classify);
                } else {
                    lemma_heading(s, m, l, classify);
                }
            },
            MdText::Fence(f) => {
                lemma_fence(s, m, f, classify);
            },
        }
        assert(md_adds(m, next, q, item.kinds(), item.spans(p), item.heads(p)));
        assert(item.heads(p).len() <= 1);
        assert forall|i: int| 0 <= i < rest.len() implies (#[trigger] rest[i]).valid() && (!classify ==> (
        rest[i] matches MdText::Line(l) ==> l is Words || l is Almost || l.kind() is Heading || free_of_byte(l.text(), 0x60))) by {
            assert(rest[i] == items[i + 1]);
        }
        lemma_items(s, next, rest, classify);
        lemma_md_trans(
            m,
            next,
            md_lines(s, next, classify),
            q,
            s.len() as int,
            item.kinds(),
            md_kinds(rest),
            item.spans(p),
            md_spans(rest, q),
            item.heads(p),
            md_heads(rest, q),
        );
    }
}

/// A written document is read as its lines were meant: each line has the
/// block it was written as, each heading an entry with its level and
/// title where it starts, and headings, code spans and fenced blocks have
/// their style spans.
pub proof fn law_markdown_reads_text(items: Seq<MdText>, classify: bool)
    requires
        md_valid(items, classify),
        md_text(items).len() + 2 < u32::MAX,
    ensures
        ({
            let s = md_text(items);
            let doc = md_document(s, classify);
            let kinds = md_kinds(items);
            let heads = md_heads(items, 0);
            &&& doc.blocks.len() == kinds.len()
            &&& forall|i: int| 0 <= i < kinds.len() ==> (#[trigger] doc.blocks[i]).kind == kinds[i]
            &&& doc.st.styles == md_spans(items, 0)
            &&& doc.st.paths.len() == 1 + heads.len()
            &&& forall|i: int|
                1 <= i < doc.st.paths.len() ==> is_head(#[trigger] doc.st.paths[i], doc.st.names, heads[i - 1])
        }),
{
    let s = md_text(items);
    let m = md_start();
    assert(s.subrange(0, s.len() as int) =~= s);
    lemma_items(s, m, items, classify);
    let read = md_lines(s, m, classify);
    lemma_close_keeps(read, 0, s.len() as int);
    let closed = close_headings(read, 0, s.len() as int);
    let doc = md_document(s, classify);
    let kinds = md_kinds(items);
    let heads = md_heads(items, 0);
    assert forall|i: int| 0 <= i < kinds.len() implies (#[trigger] doc.blocks[i]).kind == kinds[i] by {
        assert(read.blocks[0 + i].kind == kinds[i]);
    }
    assert(doc.st.styles =~= md_spans(items, 0));
    assert forall|i: int| 1 <= i < doc.st.paths.len() implies is_head(
        #[trigger] doc.st.paths[i],
        doc.st.names,
        heads[i - 1],
    ) by {
        assert(is_head(read.st.paths[1 + (i - 1)], read.st.names, heads[i - 1]));
        assert(closed.st.paths[i].start == read.st.paths[i].start);
        assert(doc.st.paths[i] == closed.st.paths[i]);
    }
}

// --- section paths --------------------------------------------------

/// A section's path is that of the section it is in, a slash and its own
/// title; one replacement character stands for a title that is not UTF-8.
pub proof fn law_section_path(segments: Seq<PathSegment>, names: Seq<Seq<u8>>, level: u32, text: u32)
    requires
        forall|i: int| 0 <= i < segments.len() ==> (#[trigger] segments[i]) is Heading,
    ensures
        section_path(Seq::empty(), names) == seq!['/'],
        section_path(segments.push(PathSegment::Heading { level, text }), names) == (if segments.len() == 0 {
            Seq::empty()
        } else {
            section_path(segments, names)
        }) + seq!['/'] + (if valid_utf8(names[text as int]) {
            decode_utf8(names[text as int])
        } else {
            seq!['\u{fffd}']
        }),
{
    let more = segments.push(PathSegment::Heading { level, text });
    assert(more.drop_last() =~= segments);
    let before = heading_steps(segments, names);
    let title = if valid_utf8(names[text as int]) {
        decode_utf8(names[text as int])
    } else {
        seq!['\u{fffd}']
    };
    if segments.len() == 0 {
        assert(before =~= Seq::empty());
        assert(section_path(more, names) =~= Seq::<char>::empty() + seq!['/'] + title);
    } else {
        assert(segments[segments.len() - 1] is Heading);
        assert(before.len() > 0);
        assert(section_path(more, names) =~= before + seq!['/'] + title);
    }
}

} // verus!
