//! Markdown structure parser shared by the markdown views.
//!
//! Walks the source once and produces:
//!
//! * `line_starts`: byte offset of each line;
//! * `paths`: the heading tree, so clicking text shows the section path;
//! * `styles`: header / inline-code / fenced-code style spans;
//! * `blocks`: per-line block classification (paragraph, heading, list
//!   item, blockquote, fenced code, table, hr, blank).

use vstd::prelude::*;
use vstd::slice::slice_subrange;

use crate::ascii::{BACKTICK, CR, DOT, GT, HASH, LF, MINUS, PIPE, RPAREN, SPACE, STAR, TAB, TILDE, UNDERSCORE};
use crate::bytes::{
    find_byte, find_past_byte, index_from, is_digit, is_digit_byte, lemma_index_from, line_starts_in,
    lemma_line_starts, past_byte, trim_bytes, trimmed,
};
use crate::format::cursor::{byte_at, Cursor};
use crate::format::nesting::{entries_named, laminar, segment_named, styles_ordered};
use crate::format::{entry_text, intern_id, line_starts_ok, slice_of_entry, ScanState};
use crate::markdown_laws::law_markdown_indexes;
use crate::text::{chars_of, push_utf8, text_or_replacement, texts, trim_chars, trimmed_text};

pub use crate::format::{
    NameInterner, Offset, ParseError, ParseErrorKind, PathEntry, PathIndex, PathSegment, ProgressSink, StyleKind,
    StyleSpan, PROGRESS_GRANULARITY, ROOT_PARENT,
};

verus! {

/// Per-source-line block kind. Inline markers like emphasis or links are
/// not classified here.
#[derive(Debug, Clone, Copy, PartialEq, Eq, Structural)]
pub enum BlockKind {
    Blank,
    Heading { level: u32 },
    Paragraph,
    BlockquoteLine,
    ListItem { ordered: bool, marker_len: u32 },
    /// A line inside a fenced code block (including the open/close fence lines).
    FencedCode,
    /// A line that's part of a contiguous table block.
    TableLine,
    /// A `---` / `***` / `___` horizontal-rule line.
    HorizontalRule,
}

#[derive(Debug, Clone, Copy, PartialEq, Eq, Structural)]
pub struct BlockLine {
    pub line_index: u32,
    pub kind: BlockKind,
}

#[derive(Debug)]
pub struct ParseOutput {
    pub line_starts: Vec<Offset>,
    pub paths: PathIndex,
    pub styles: Vec<StyleSpan>,
    pub blocks: Vec<BlockLine>,
    pub names: NameInterner,
    pub error: Option<ParseError>,
    pub bytes: usize,
}

// --- grammar --------------------------------------------------------

/// Number of spaces at `i`, counting no further than `most`.
pub open spec fn spaces_at(s: Seq<u8>, i: int, most: nat) -> nat
    decreases most,
{
    if most > 0 && byte_at(s, i) == Some(SPACE) {
        1 + spaces_at(s, i + 1, (most - 1) as nat)
    } else {
        0
    }
}

/// Position of a line's first character if at most three spaces indent
/// it; four or more would make it an indented code block.
pub open spec fn marker_at(s: Seq<u8>, line: int) -> Option<int> {
    let n = spaces_at(s, line, 4);
    if n < 4 {
        Some(line + n)
    } else {
        None
    }
}

/// End of the run of `b` at `i`.
pub open spec fn run_of(s: Seq<u8>, i: int, b: u8) -> int
    decreases s.len() - i,
{
    if 0 <= i < s.len() && s[i] == b {
        run_of(s, i + 1, b)
    } else {
        i
    }
}

/// Nothing but spaces, tabs and carriage returns from `i` to the end of
/// the line.
pub open spec fn blank_from(s: Seq<u8>, i: int) -> bool
    decreases s.len() - i,
{
    if i < 0 || i >= s.len() || s[i] == LF {
        true
    } else {
        (s[i] == SPACE || s[i] == TAB || s[i] == CR) && blank_from(s, i + 1)
    }
}

/// An ATX heading whose hashes start at `a`: one to six of them, then a
/// space, tab, end of line or end of input. Yields the level.
pub open spec fn heading_level(s: Seq<u8>, a: int) -> Option<u32> {
    let p = run_of(s, a, HASH);
    if 1 <= p - a <= 6 && (match byte_at(s, p) {
        Some(b) => b == LF || b == SPACE || b == TAB || b == CR,
        None => true,
    }) {
        Some((p - a) as u32)
    } else {
        None
    }
}

/// Where a heading's text starts: after the hashes and one separating
/// space or tab.
pub open spec fn title_start(s: Seq<u8>, a: int) -> int {
    let p = run_of(s, a, HASH);
    if byte_at(s, p) == Some(SPACE) || byte_at(s, p) == Some(TAB) {
        p + 1
    } else {
        p
    }
}

pub open spec fn is_blank_byte(b: u8) -> bool {
    b == SPACE || b == TAB
}

pub open spec fn skip_blanks(s: Seq<u8>, i: int) -> int
    decreases s.len() - i,
{
    if 0 <= i < s.len() && is_blank_byte(s[i]) {
        skip_blanks(s, i + 1)
    } else {
        i
    }
}

/// `hi` without the blanks before it, and with `cr` without the carriage
/// returns too.
pub open spec fn drop_blanks(s: Seq<u8>, lo: int, hi: int, cr: bool) -> int
    decreases hi,
{
    if lo < hi && 0 < hi <= s.len() && (is_blank_byte(s[hi - 1]) || (cr && s[hi - 1] == CR)) {
        drop_blanks(s, lo, hi - 1, cr)
    } else {
        hi
    }
}

pub open spec fn drop_hashes(s: Seq<u8>, lo: int, hi: int) -> int
    decreases hi,
{
    if lo < hi && 0 < hi <= s.len() && s[hi - 1] == HASH {
        drop_hashes(s, lo, hi - 1)
    } else {
        hi
    }
}

/// A heading's title: surrounding blanks dropped, and an optional
/// closing run of hashes that a blank precedes.
pub open spec fn title_of(raw: Seq<u8>) -> Seq<u8> {
    let lo = skip_blanks(raw, 0);
    let hi = drop_blanks(raw, lo, raw.len() as int, true);
    let k = drop_hashes(raw, lo, hi);
    if k < hi && (k == lo || is_blank_byte(raw[k - 1])) {
        raw.subrange(lo, drop_blanks(raw, lo, k, false))
    } else {
        raw.subrange(lo, hi)
    }
}

/// The line at `line` closes a fence of `count` times `c`: at least as
/// many of them, indented by at most three spaces, and nothing else.
pub open spec fn closes_fence(s: Seq<u8>, line: int, c: u8, count: int) -> bool {
    match marker_at(s, line) {
        Some(a) => byte_at(s, a) == Some(c) && run_of(s, a, c) - a >= count && blank_from(s, run_of(s, a, c)),
        None => false,
    }
}

/// A horizontal rule: `c` at least three times on the line, with nothing
/// but whitespace between. Counts from `i` on.
pub open spec fn rule_count(s: Seq<u8>, i: int, c: u8) -> Option<nat>
    decreases s.len() - i,
{
    if i < 0 || i >= s.len() || s[i] == LF {
        Some(0)
    } else if s[i] == c {
        match rule_count(s, i + 1, c) {
            Some(n) => Some(n + 1),
            None => None,
        }
    } else if s[i] == SPACE || s[i] == TAB || s[i] == CR {
        rule_count(s, i + 1, c)
    } else {
        None
    }
}

pub open spec fn rule_or_item(s: Seq<u8>, a: int) -> Option<BlockKind> {
    if rule_count(s, a, s[a]) matches Some(n) && n >= 3 {
        Some(BlockKind::HorizontalRule)
    } else if (s[a] == MINUS || s[a] == STAR) && (byte_at(s, a + 1) == Some(SPACE) || byte_at(s, a + 1) == Some(TAB)) {
        Some(BlockKind::ListItem { ordered: false, marker_len: 2 })
    } else {
        None
    }
}

/// End of the run of digits at `i`.
pub open spec fn digits_end(s: Seq<u8>, i: int) -> int
    decreases s.len() - i,
{
    if 0 <= i < s.len() && is_digit(s[i]) {
        digits_end(s, i + 1)
    } else {
        i
    }
}

/// Length of an ordered-list marker at `a` with the blank after it: one
/// to nine digits, `.` or `)`, then a space or tab.
pub open spec fn ordered_marker(s: Seq<u8>, a: int) -> Option<u32> {
    let p = digits_end(s, a);
    if 1 <= p - a <= 9 && (byte_at(s, p) == Some(DOT) || byte_at(s, p) == Some(RPAREN)) && (byte_at(s, p + 1) == Some(
        SPACE,
    ) || byte_at(s, p + 1) == Some(TAB)) {
        Some((p + 2 - a) as u32)
    } else {
        None
    }
}

/// Kind of a line that is neither a heading nor a fence; a paragraph
/// when nothing else fits.
pub open spec fn plain_line_kind(s: Seq<u8>, line: int) -> BlockKind {
    let special = match marker_at(s, line) {
        Some(a) => match byte_at(s, a) {
            Some(b) => if b == GT {
                Some(BlockKind::BlockquoteLine)
            } else if b == MINUS || b == STAR || b == UNDERSCORE {
                rule_or_item(s, a)
            } else if is_digit(b) {
                match ordered_marker(s, a) {
                    Some(marker_len) => Some(BlockKind::ListItem { ordered: true, marker_len }),
                    None => None,
                }
            } else if b == PIPE {
                Some(BlockKind::TableLine)
            } else {
                None
            },
            None => None,
        },
        None => None,
    };
    match special {
        Some(kind) => kind,
        None => if blank_from(s, line) {
            BlockKind::Blank
        } else {
            BlockKind::Paragraph
        },
    }
}

/// End of the run of exactly `count` backticks that closes a code span,
/// searched from `i` to the end of the line.
pub open spec fn code_close(s: Seq<u8>, i: int, count: int) -> Option<int>
    decreases s.len() - i,
{
    proof {
        if 0 <= i < s.len() {
            lemma_run_of(s, i, BACKTICK);
        }
    }
    if i < 0 || i >= s.len() || s[i] == LF {
        None
    } else if s[i] == BACKTICK {
        let q = run_of(s, i, BACKTICK);
        if q - i == count {
            Some(q)
        } else {
            code_close(s, q, count)
        }
    } else {
        code_close(s, i + 1, count)
    }
}

/// Inline code spans from the position to the end of the line.
pub open spec fn inline_code(s: Seq<u8>, st: ScanState) -> ScanState
    decreases s.len() - st.pos,
{
    proof {
        if 0 <= st.pos < s.len() {
            lemma_run_of(s, st.pos, BACKTICK);
            lemma_code_close(
                s,
                run_of(s, st.pos, BACKTICK),
                run_of(s, st.pos, BACKTICK) - st.pos,
            );
        }
    }
    let p = st.pos;
    if p < 0 || p >= s.len() || s[p] == LF {
        st
    } else if s[p] == BACKTICK {
        let e = run_of(s, p, BACKTICK);
        match code_close(s, e, e - p) {
            Some(end) => inline_code(s, st.styled(p, end, StyleKind::Code).at(end)),
            None => inline_code(s, st.at(e)),
        }
    } else {
        inline_code(s, st.at(p + 1))
    }
}

/// Parser state: the indexes, the open headings with their levels, and
/// the block of each line so far.
pub struct MdState {
    pub st: ScanState,
    pub stack: Seq<(u32, u32)>,
    pub blocks: Seq<BlockLine>,
}

impl MdState {
    pub open spec fn at(self, pos: int) -> MdState {
        MdState { st: self.st.at(pos), ..self }
    }

    /// Records the kind of the line at the position.
    pub open spec fn line(self, s: Seq<u8>, kind: BlockKind) -> MdState {
        MdState {
            blocks: self.blocks.push(
                BlockLine { line_index: (line_starts_in(s, self.st.pos).len() - 1) as u32, kind },
            ),
            ..self
        }
    }
}

/// Closes, at `end`, the open headings of level `level` and deeper.
pub open spec fn close_headings(m: MdState, level: u32, end: int) -> MdState
    decreases m.stack.len(),
{
    if m.stack.len() == 0 || m.stack.last().1 < level {
        m
    } else {
        close_headings(
            MdState {
                st: m.st.closed_at(m.stack.last().0 as int, end),
                stack: m.stack.drop_last(),
                ..m
            },
            level,
            end,
        )
    }
}

/// The entry a new heading hangs under.
pub open spec fn heading_parent(m: MdState) -> u32 {
    if m.stack.len() == 0 {
        0
    } else {
        m.stack.last().0
    }
}

/// A heading line with its hashes at `a`.
pub open spec fn md_heading(s: Seq<u8>, m: MdState, a: int, level: u32) -> MdState {
    let line = m.st.pos;
    let text = title_start(s, a);
    let end = index_from(s, text, LF);
    let title = title_of(s.subrange(text, end));
    let id = intern_id(m.st.names, title) as u32;
    let noted = m.line(s, BlockKind::Heading { level });
    let closed = close_headings(MdState { st: m.st.with_name(title), ..noted }, level, line);
    let entry = closed.st.paths.len() as u32;
    MdState {
        st: closed.st.styled(line, end, StyleKind::Heading).opened(
            line,
            heading_parent(closed),
            PathSegment::Heading { level, text: id },
        ).at(past_byte(s, end, LF)),
        stack: closed.stack.push((entry, level)),
        ..closed
    }
}

/// The lines inside a fence, up to and including the closing line.
pub open spec fn md_fence_lines(s: Seq<u8>, m: MdState, c: u8, count: int) -> MdState
    decreases s.len() - m.st.pos,
{
    proof {
        if 0 <= m.st.pos < s.len() {
            lemma_index_from(s, m.st.pos, LF);
        }
    }
    let p = m.st.pos;
    if p < 0 || p >= s.len() {
        m
    } else {
        let next = m.line(s, BlockKind::FencedCode).at(past_byte(s, p, LF));
        if closes_fence(s, p, c, count) {
            next
        } else {
            md_fence_lines(s, next, c, count)
        }
    }
}

/// A fenced code block opened by `count` times `c`.
pub open spec fn md_fence(s: Seq<u8>, m: MdState, c: u8, count: int) -> MdState {
    let line = m.st.pos;
    let inside = md_fence_lines(
        s,
        m.line(s, BlockKind::FencedCode).at(past_byte(s, line, LF)),
        c,
        count,
    );
    MdState { st: inside.st.styled(line, inside.st.pos, StyleKind::CodeBlock), ..inside }
}

/// A line that is neither a heading nor a fence. With `classify`, only
/// paragraph lines are searched for inline code; without, all of them.
pub open spec fn md_plain_line(s: Seq<u8>, m: MdState, classify: bool) -> MdState {
    let kind = plain_line_kind(s, m.st.pos);
    let noted = m.line(s, kind);
    if !classify || kind == BlockKind::Paragraph {
        let st = inline_code(s, m.st);
        MdState { st: st.at(past_byte(s, st.pos, LF)), ..noted }
    } else {
        noted.at(past_byte(s, m.st.pos, LF))
    }
}

pub open spec fn md_line(s: Seq<u8>, m: MdState, classify: bool) -> MdState {
    match marker_at(s, m.st.pos) {
        Some(a) => match byte_at(s, a) {
            Some(b) => if b == HASH {
                match heading_level(s, a) {
                    Some(level) => md_heading(s, m, a, level),
                    None => md_plain_line(s, m, classify),
                }
            } else if (b == BACKTICK || b == TILDE) && run_of(s, a, b) - a >= 3 {
                md_fence(s, m, b, run_of(s, a, b) - a)
            } else {
                md_plain_line(s, m, classify)
            },
            None => md_plain_line(s, m, classify),
        },
        None => md_plain_line(s, m, classify),
    }
}

pub open spec fn md_lines(s: Seq<u8>, m: MdState, classify: bool) -> MdState
    decreases s.len() - m.st.pos,
{
    if m.st.pos < 0 || m.st.pos >= s.len() {
        m
    } else {
        let next = md_line(s, m, classify);
        if m.st.pos < next.st.pos <= s.len() {
            md_lines(s, next, classify)
        } else {
            next
        }
    }
}

pub open spec fn md_start() -> MdState {
    MdState {
        st: ScanState::empty().opened(0, ROOT_PARENT, PathSegment::Root),
        stack: Seq::empty(),
        blocks: Seq::empty(),
    }
}

/// The whole document: headings still open at the end, and the root,
/// extend to the end of the input.
pub open spec fn md_document(s: Seq<u8>, classify: bool) -> MdState {
    let m = close_headings(md_lines(s, md_start(), classify), 0, s.len() as int);
    MdState { st: m.st.closed_at(0, s.len() as int), ..m }
}

pub proof fn lemma_run_of(s: Seq<u8>, i: int, b: u8)
    requires
        0 <= i <= s.len(),
    ensures
        i <= run_of(s, i, b) <= s.len(),
        i < s.len() && s[i] == b ==> i < run_of(s, i, b),
        forall|k: int| i <= k < run_of(s, i, b) ==> #[trigger] s[k] == b,
    decreases s.len() - i,
{
    if i < s.len() && s[i] == b {
        lemma_run_of(s, i + 1, b);
    }
}

pub proof fn lemma_spaces_at(s: Seq<u8>, i: int, most: nat)
    requires
        0 <= i <= s.len(),
    ensures
        spaces_at(s, i, most) <= most,
        i + spaces_at(s, i, most) <= s.len(),
        forall|k: int| i <= k < i + spaces_at(s, i, most) ==> #[trigger] s[k] == SPACE,
    decreases most,
{
    if most > 0 && byte_at(s, i) == Some(SPACE) {
        lemma_spaces_at(s, i + 1, (most - 1) as nat);
    }
}

pub proof fn lemma_code_close(s: Seq<u8>, i: int, count: int)
    requires
        0 <= i <= s.len(),
    ensures
        code_close(s, i, count) matches Some(e) ==> i < e <= s.len(),
    decreases s.len() - i,
{
    if i < s.len() && s[i] != LF {
        lemma_run_of(s, i, BACKTICK);
        if s[i] == BACKTICK {
            lemma_code_close(s, run_of(s, i, BACKTICK), count);
        } else {
            lemma_code_close(s, i + 1, count);
        }
    }
}

pub proof fn lemma_inline_code(s: Seq<u8>, st: ScanState)
    requires
        0 <= st.pos <= s.len(),
    ensures
        st.pos <= inline_code(s, st).pos <= s.len(),
        inline_code(s, st).paths == st.paths,
        inline_code(s, st).names == st.names,
    decreases s.len() - st.pos,
{
    let p = st.pos;
    if p < s.len() && s[p] != LF {
        if s[p] == BACKTICK {
            lemma_run_of(s, p, BACKTICK);
            let e = run_of(s, p, BACKTICK);
            lemma_code_close(s, e, e - p);
            match code_close(s, e, e - p) {
                Some(end) => lemma_inline_code(s, st.styled(p, end, StyleKind::Code).at(end)),
                None => lemma_inline_code(s, st.at(e)),
            }
        } else {
            lemma_inline_code(s, st.at(p + 1));
        }
    }
}

pub proof fn lemma_digits_end(s: Seq<u8>, i: int)
    requires
        0 <= i <= s.len(),
    ensures
        i <= digits_end(s, i) <= s.len(),
    decreases s.len() - i,
{
    if i < s.len() && is_digit(s[i]) {
        lemma_digits_end(s, i + 1);
    }
}

// --- scanning -------------------------------------------------------

fn find_run_end(s: &[u8], i: usize, b: u8) -> (r: usize)
    requires
        i <= s@.len(),
    ensures
        r == run_of(s@, i as int, b),
        i <= r <= s@.len(),
        i < s@.len() && s@[i as int] == b ==> i < r,
{
    proof {
        lemma_run_of(s@, i as int, b);
    }
    let mut j: usize = i;
    while j < s.len() && s[j] == b
        invariant
            i <= j <= s@.len(),
            run_of(s@, j as int, b) == run_of(s@, i as int, b),
        decreases s@.len() - j,
    {
        j += 1;
    }
    j
}

fn find_marker(s: &[u8], line: usize) -> (r: Option<usize>)
    requires
        line <= s@.len(),
    ensures
        r matches Some(a) ==> marker_at(s@, line as int) == Some(a as int) && line <= a <= s@.len(),
        r is None ==> marker_at(s@, line as int) is None,
{
    let mut n: usize = 0;
    proof {
        lemma_spaces_at(s@, line as int, 4);
    }
    while n < 4 && n < s.len() - line && s[line + n] == SPACE
        invariant
            n <= 4,
            line + n <= s@.len(),
            spaces_at(s@, line as int, 4) == n + spaces_at(s@, line + n, (4 - n) as nat),
        decreases 4 - n,
    {
        n += 1;
    }
    if n < 4 {
        Some(line + n)
    } else {
        None
    }
}

/// Whether nothing but whitespace is left on the line from `i` on.
fn is_blank_line(s: &[u8], i: usize) -> (r: bool)
    requires
        i <= s@.len(),
    ensures
        r == blank_from(s@, i as int),
{
    let mut j: usize = i;
    while j < s.len() && s[j] != LF
        invariant
            i <= j <= s@.len(),
            blank_from(s@, j as int) == blank_from(s@, i as int),
        decreases s@.len() - j,
    {
        if s[j] != SPACE && s[j] != TAB && s[j] != CR {
            return false;
        }
        j += 1;
    }
    true
}

fn find_heading_level(s: &[u8], a: usize) -> (r: Option<u32>)
    requires
        a <= s@.len(),
    ensures
        r == heading_level(s@, a as int),
{
    let p = find_run_end(s, a, HASH);
    let level: usize = p - a;
    if level < 1 || level > 6 {
        return None;
    }
    if p < s.len() && s[p] != LF && s[p] != SPACE && s[p] != TAB && s[p] != CR {
        return None;
    }
    Some(level as u32)
}

/// Trim the title bytes between an ATX heading's hashes and end-of-line:
/// strip leading separator whitespace, then trailing whitespace, then an
/// optional closing `#` run preceded by whitespace.
pub fn strip_atx_trailing(raw: &[u8]) -> (r: &[u8])
    ensures
        r@ == title_of(raw@),
{
    let mut start: usize = 0;
    while start < raw.len() && (raw[start] == SPACE || raw[start] == TAB)
        invariant
            start <= raw@.len(),
            skip_blanks(raw@, start as int) == skip_blanks(raw@, 0),
        decreases raw@.len() - start,
    {
        start += 1;
    }
    let mut end: usize = raw.len();
    while end > start && (raw[end - 1] == SPACE || raw[end - 1] == TAB || raw[end - 1] == CR)
        invariant
            start <= end <= raw@.len(),
            drop_blanks(raw@, start as int, end as int, true) == drop_blanks(
                raw@,
                start as int,
                raw@.len() as int,
                true,
            ),
        decreases end,
    {
        end -= 1;
    }
    let mut k: usize = end;
    while k > start && raw[k - 1] == HASH
        invariant
            start <= k <= end <= raw@.len(),
            drop_hashes(raw@, start as int, k as int) == drop_hashes(raw@, start as int, end as int),
        decreases k,
    {
        k -= 1;
    }
    if k < end && (k == start || raw[k - 1] == SPACE || raw[k - 1] == TAB) {
        end = k;
        while end > start && (raw[end - 1] == SPACE || raw[end - 1] == TAB)
            invariant
                start <= end <= k <= raw@.len(),
                drop_blanks(raw@, start as int, end as int, false) == drop_blanks(
                    raw@,
                    start as int,
                    k as int,
                    false,
                ),
            decreases end,
        {
            end -= 1;
        }
    }
    slice_subrange(raw, start, end)
}

fn is_closing_fence(s: &[u8], line: usize, c: u8, count: usize) -> (r: bool)
    requires
        line <= s@.len(),
    ensures
        r == closes_fence(s@, line as int, c, count as int),
{
    match find_marker(s, line) {
        Some(a) => {
            if a >= s.len() || s[a] != c {
                return false;
            }
            let e = find_run_end(s, a, c);
            e - a >= count && is_blank_line(s, e)
        },
        None => false,
    }
}

fn classify_hr_or_list(s: &[u8], a: usize) -> (r: Option<BlockKind>)
    requires
        a < s@.len(),
    ensures
        r == rule_or_item(s@, a as int),
{
    let c = s[a];
    let mut count: usize = 0;
    let mut p: usize = a;
    let mut only_marker = true;
    let ghost goal = rule_count(s@, a as int, c);
    while only_marker && p < s.len() && s[p] != LF
        invariant
            a <= p <= s@.len(),
            count <= p - a,
            goal == rule_count(s@, a as int, c),
            only_marker ==> (match rule_count(s@, p as int, c) {
                Some(n) => goal == Some((n + count) as nat),
                None => goal is None,
            }),
            !only_marker ==> goal is None,
        decreases s@.len() - p + (if only_marker { 1int } else { 0int }),
    {
        let b = s[p];
        if b == c {
            count += 1;
            p += 1;
        } else if b == SPACE || b == TAB || b == CR {
            p += 1;
        } else {
            only_marker = false;
        }
    }
    if only_marker && count >= 3 {
        return Some(BlockKind::HorizontalRule);
    }
    // List item only if `-` or `*` (not `_`) followed by space/tab.
    if (c == MINUS || c == STAR) && a + 1 < s.len() && (s[a + 1] == SPACE || s[a + 1] == TAB) {
        return Some(BlockKind::ListItem { ordered: false, marker_len: 2 });
    }
    None
}

fn try_ordered_list_marker(s: &[u8], a: usize) -> (r: Option<u32>)
    requires
        a <= s@.len(),
    ensures
        r == ordered_marker(s@, a as int),
{
    proof {
        lemma_digits_end(s@, a as int);
    }
    let mut p: usize = a;
    while p < s.len() && is_digit_byte(s[p])
        invariant
            a <= p <= s@.len(),
            digits_end(s@, p as int) == digits_end(s@, a as int),
        decreases s@.len() - p,
    {
        p += 1;
    }
    if p - a < 1 || p - a > 9 {
        return None;
    }
    if p >= s.len() || (s[p] != DOT && s[p] != RPAREN) {
        return None;
    }
    if p + 1 >= s.len() || (s[p + 1] != SPACE && s[p + 1] != TAB) {
        return None;
    }
    Some((p - a + 2) as u32)
}

fn classify_plain_line(s: &[u8], line: usize) -> (r: BlockKind)
    requires
        line <= s@.len(),
    ensures
        r == plain_line_kind(s@, line as int),
{
    if let Some(a) = find_marker(s, line) {
        if a < s.len() {
            let b = s[a];
            if b == GT {
                return BlockKind::BlockquoteLine;
            } else if b == MINUS || b == STAR || b == UNDERSCORE {
                if let Some(kind) = classify_hr_or_list(s, a) {
                    return kind;
                }
            } else if is_digit_byte(b) {
                if let Some(marker_len) = try_ordered_list_marker(s, a) {
                    return BlockKind::ListItem { ordered: true, marker_len };
                }
            } else if b == PIPE {
                return BlockKind::TableLine;
            }
        }
    }
    if is_blank_line(s, line) {
        BlockKind::Blank
    } else {
        BlockKind::Paragraph
    }
}

fn find_code_close(s: &[u8], i: usize, count: usize) -> (r: Option<usize>)
    requires
        i <= s@.len(),
    ensures
        r matches Some(e) ==> code_close(s@, i as int, count as int) == Some(e as int) && i < e <= s@.len(),
        r is None ==> code_close(s@, i as int, count as int) is None,
{
    let mut j: usize = i;
    while j < s.len() && s[j] != LF
        invariant
            i <= j <= s@.len(),
            code_close(s@, j as int, count as int) == code_close(s@, i as int, count as int),
        decreases s@.len() - j,
    {
        if s[j] == BACKTICK {
            let q = find_run_end(s, j, BACKTICK);
            if q - j == count {
                return Some(q);
            }
            j = q;
        } else {
            j += 1;
        }
    }
    None
}

// --- parser ---------------------------------------------------------

struct Parser<'a> {
    cur: Cursor<'a>,
    paths: Vec<PathEntry>,
    styles: Vec<StyleSpan>,
    blocks: Vec<BlockLine>,
    names: NameInterner,
    /// Open headings: entry and level. A heading at level L closes every
    /// open one with level >= L.
    heading_stack: Vec<(u32, u32)>,
}

impl<'a> View for Parser<'a> {
    type V = MdState;

    closed spec fn view(&self) -> MdState {
        MdState {
            st: ScanState {
                pos: self.cur.pos as int,
                paths: self.paths@,
                styles: self.styles@,
                names: self.names@,
            },
            stack: self.heading_stack@,
            blocks: self.blocks@,
        }
    }
}

impl<'a> Parser<'a> {
    spec fn wf(&self) -> bool {
        &&& self.cur.wf()
        &&& self.names.wf()
        &&& self.names@.len() <= self.cur.pos
        &&& self.paths@.len() <= self.cur.pos + 1
        &&& self.paths@.len() > 0
        &&& forall|k: int| 0 <= k < self.heading_stack@.len() ==> (#[trigger] self.heading_stack@[k]).0
            < self.paths@.len()
    }

    spec fn keeps(&self, before: &Self) -> bool {
        &&& self.wf()
        &&& self.cur.input@ == before.cur.input@
    }

    fn record_block(&mut self, kind: BlockKind)
        requires
            old(self).wf(),
        ensures
            final(self).keeps(old(self)),
            final(self)@ == old(self)@.line(old(self).cur.input@, kind),
            final(self).cur == old(self).cur,
    {
        proof {
            lemma_line_starts(self.cur.input@, self.cur.pos as int);
        }
        let line_index: u32 = (self.cur.line_starts.len() - 1) as u32;
        self.blocks.push(BlockLine { line_index, kind });
    }

    /// Moves past the end of the current line.
    fn consume_line(&mut self)
        requires
            old(self).wf(),
        ensures
            final(self).keeps(old(self)),
            final(self)@ == old(self)@.at(past_byte(old(self).cur.input@, old(self)@.st.pos, LF)),
            old(self).cur.pos < old(self).cur.input@.len() ==> old(self).cur.pos < final(self).cur.pos,
            old(self).cur.pos <= final(self).cur.pos,
    {
        proof {
            lemma_index_from(self.cur.input@, self.cur.pos as int, LF);
        }
        let next = find_past_byte(self.cur.input, self.cur.pos, LF);
        self.cur.advance_to(next);
    }

    fn close_headings(&mut self, level: u32, end: usize)
        requires
            old(self).wf(),
            end <= u32::MAX,
        ensures
            final(self).keeps(old(self)),
            final(self)@ == close_headings(old(self)@, level, end as int),
            final(self).cur == old(self).cur,
            final(self).paths@.len() == old(self).paths@.len(),
    {
        while self.heading_stack.len() > 0 && self.heading_stack[self.heading_stack.len() - 1].1 >= level
            invariant
                self.keeps(old(self)),
                end <= u32::MAX,
                self.cur == old(self).cur,
                self.paths@.len() == old(self).paths@.len(),
                close_headings(self@, level, end as int) == close_headings(old(self)@, level, end as int),
            decreases self.heading_stack@.len(),
        {
            let ghost before = self@;
            let (idx, _) = self.heading_stack[self.heading_stack.len() - 1];
            let mut entry = self.paths[idx as usize];
            entry.end = end as u32;
            self.paths[idx as usize] = entry;
            self.heading_stack.pop();
            proof {
                assert(self.heading_stack@ =~= before.stack.drop_last());
            }
        }
    }

    fn parse_heading(&mut self, a: usize, level: u32)
        requires
            old(self).wf(),
            old(self).cur.pos <= a < old(self).cur.input@.len(),
            heading_level(old(self).cur.input@, a as int) == Some(level),
        ensures
            final(self).keeps(old(self)),
            final(self)@ == md_heading(old(self).cur.input@, old(self)@, a as int, level),
            old(self).cur.pos < final(self).cur.pos,
    {
        let input = self.cur.input;
        let line: usize = self.cur.pos;
        self.record_block(BlockKind::Heading { level });
        let mut text = find_run_end(input, a, HASH);
        if text < input.len() && (input[text] == SPACE || input[text] == TAB) {
            text += 1;
        }
        let end = find_byte(input, text, LF);
        let title = strip_atx_trailing(slice_subrange(input, text, end));
        let title_id = self.names.intern(title);
        let ghost named = self.names@;
        let next = find_past_byte(input, end, LF);
        let ghost noted = self@;
        self.cur.advance_to(next);
        proof {
            assert(next > line);
        }
        self.close_headings(level, line);
        proof {
            lemma_close_headings_at(noted, level, line as int, next as int);
        }
        let parent: u32 = if self.heading_stack.len() == 0 {
            0
        } else {
            self.heading_stack[self.heading_stack.len() - 1].0
        };
        self.styles.push(StyleSpan { start: line as u32, end: end as u32, kind: StyleKind::Heading });
        let entry: usize = self.paths.len();
        self.paths.push(
            PathEntry {
                start: line as u32,
                end: 0,
                parent,
                segment: PathSegment::Heading { level, text: title_id },
            },
        );
        self.heading_stack.push((entry as u32, level));
    }

    fn parse_fence(&mut self, c: u8, count: usize)
        requires
            old(self).wf(),
            old(self).cur.pos < old(self).cur.input@.len(),
        ensures
            final(self).keeps(old(self)),
            final(self)@ == md_fence(old(self).cur.input@, old(self)@, c, count as int),
            old(self).cur.pos < final(self).cur.pos,
    {
        let line: usize = self.cur.pos;
        let ghost input = self.cur.input@;
        self.record_block(BlockKind::FencedCode);
        self.consume_line();
        let ghost goal = md_fence_lines(input, self@, c, count as int);
        let mut closed = false;
        while !closed && self.cur.pos < self.cur.input.len()
            invariant
                self.keeps(old(self)),
                input == self.cur.input@,
                line < self.cur.pos,
                closed ==> goal == self@,
                !closed ==> goal == md_fence_lines(input, self@, c, count as int),
            decreases input.len() - self.cur.pos + (if closed { 0int } else { 1int }),
        {
            closed = is_closing_fence(self.cur.input, self.cur.pos, c, count);
            self.record_block(BlockKind::FencedCode);
            self.consume_line();
        }
        let end: usize = self.cur.pos;
        self.styles.push(StyleSpan { start: line as u32, end: end as u32, kind: StyleKind::CodeBlock });
    }

    /// Styles the inline code spans up to the end of the line.
    fn scan_inline_code(&mut self)
        requires
            old(self).wf(),
        ensures
            final(self).keeps(old(self)),
            final(self)@ == (MdState { st: inline_code(old(self).cur.input@, old(self)@.st), ..old(self)@ }),
            old(self).cur.pos <= final(self).cur.pos,
    {
        let ghost input = self.cur.input@;
        while self.cur.pos < self.cur.input.len() && self.cur.input[self.cur.pos] != LF
            invariant
                self.keeps(old(self)),
                input == self.cur.input@,
                input == old(self).cur.input@,
                old(self).cur.pos <= self.cur.pos,
                self@ == (MdState { st: self@.st, ..old(self)@ }),
                inline_code(input, self@.st) == inline_code(input, old(self)@.st),
            decreases input.len() - self.cur.pos,
        {
            let p: usize = self.cur.pos;
            if self.cur.input[p] == BACKTICK {
                let e = find_run_end(self.cur.input, p, BACKTICK);
                match find_code_close(self.cur.input, e, e - p) {
                    Some(end) => {
                        self.cur.advance_to(end);
                        self.styles.push(StyleSpan { start: p as u32, end: end as u32, kind: StyleKind::Code });
                    },
                    // Dangling backticks are plain text.
                    None => self.cur.advance_to(e),
                }
            } else {
                self.cur.advance();
            }
        }
    }

    fn parse_plain_line(&mut self, classify: bool)
        requires
            old(self).wf(),
            old(self).cur.pos < old(self).cur.input@.len(),
        ensures
            final(self).keeps(old(self)),
            final(self)@ == md_plain_line(old(self).cur.input@, old(self)@, classify),
            old(self).cur.pos < final(self).cur.pos,
    {
        let kind = classify_plain_line(self.cur.input, self.cur.pos);
        self.record_block(kind);
        let ghost from = self@;
        if !classify || kind == BlockKind::Paragraph {
            self.scan_inline_code();
            proof {
                let s = old(self).cur.input@;
                if s[from.st.pos] != LF {
                    lemma_inline_progress(s, from.st);
                }
            }
            self.consume_line();
        } else {
            self.consume_line();
        }
    }

    fn parse_line(&mut self, classify: bool)
        requires
            old(self).wf(),
            old(self).cur.pos < old(self).cur.input@.len(),
        ensures
            final(self).keeps(old(self)),
            final(self)@ == md_line(old(self).cur.input@, old(self)@, classify),
            old(self).cur.pos < final(self).cur.pos,
    {
        let input = self.cur.input;
        if let Some(a) = find_marker(input, self.cur.pos) {
            if a < input.len() {
                let b = input[a];
                if b == HASH {
                    if let Some(level) = find_heading_level(input, a) {
                        self.parse_heading(a, level);
                        return;
                    }
                } else if b == BACKTICK || b == TILDE {
                    let count = find_run_end(input, a, b) - a;
                    if count >= 3 {
                        self.parse_fence(b, count);
                        return;
                    }
                }
            }
        }
        self.parse_plain_line(classify);
    }
}

pub proof fn lemma_inline_progress(s: Seq<u8>, st: ScanState)
    requires
        0 <= st.pos < s.len(),
        s[st.pos] != LF,
    ensures
        st.pos < inline_code(s, st).pos,
{
    let p = st.pos;
    lemma_run_of(s, p, BACKTICK);
    let e = run_of(s, p, BACKTICK);
    lemma_code_close(s, e, e - p);
    if s[p] == BACKTICK {
        match code_close(s, e, e - p) {
            Some(end) => lemma_inline_code(s, st.styled(p, end, StyleKind::Code).at(end)),
            None => lemma_inline_code(s, st.at(e)),
        }
    } else {
        lemma_inline_code(s, st.at(p + 1));
    }
}

/// Closing headings does not look at the position.
proof fn lemma_close_headings_at(m: MdState, level: u32, end: int, pos: int)
    ensures
        close_headings(m.at(pos), level, end) == close_headings(m, level, end).at(pos),
    decreases m.stack.len(),
{
    if m.stack.len() > 0 && m.stack.last().1 >= level {
        let next = MdState {
            st: m.st.closed_at(m.stack.last().0 as int, end),
            stack: m.stack.drop_last(),
            ..m
        };
        lemma_close_headings_at(next, level, end, pos);
    }
}

/// What one pass over a document yields.
pub(crate) struct Scan {
    pub line_starts: Vec<Offset>,
    pub paths: Vec<PathEntry>,
    pub styles: Vec<StyleSpan>,
    pub blocks: Vec<BlockLine>,
    pub names: NameInterner,
}

impl Scan {
    pub(crate) open spec fn shows(&self, input: Seq<u8>, m: MdState) -> bool {
        &&& self.line_starts@ == line_starts_in(input, m.st.pos)
        &&& self.paths@ == m.st.paths
        &&& self.styles@ == m.st.styles
        &&& self.blocks@ == m.blocks
        &&& self.names.wf()
        &&& self.names@ == m.st.names
    }
}

/// Walks the document line by line.
pub(crate) fn scan(input: &[u8], classify: bool, progress: Option<&ProgressSink>) -> (out: Scan)
    requires
        input@.len() < u32::MAX,
    ensures
        out.shows(input@, md_document(input@, classify)),
{
    let mut p = Parser {
        cur: Cursor::new(input, progress),
        paths: Vec::new(),
        styles: Vec::new(),
        blocks: Vec::new(),
        names: NameInterner::new(),
        heading_stack: Vec::new(),
    };
    p.paths.push(PathEntry { start: 0, end: 0, parent: ROOT_PARENT, segment: PathSegment::Root });
    proof {
        assert(p@ == md_start());
    }
    while p.cur.pos < p.cur.input.len()
        invariant
            p.wf(),
            p.cur.input@ == input@,
            md_lines(input@, md_start(), classify) == md_lines(input@, p@, classify),
        decreases input@.len() - p.cur.pos,
    {
        p.parse_line(classify);
    }
    let end: usize = input.len();
    p.close_headings(0, end);
    let mut root = p.paths[0];
    root.end = end as u32;
    p.paths[0] = root;
    if let Some(sink) = progress {
        sink.publish(input.len() as u64);
    }
    Scan { line_starts: p.cur.line_starts, paths: p.paths, styles: p.styles, blocks: p.blocks, names: p.names }
}

impl ParseOutput {
    /// The indexes are well formed, for a document of `len` bytes.
    pub open spec fn wf(&self, len: int) -> bool {
        &&& self.paths.wf()
        &&& laminar(self.paths.entries@)
        &&& styles_ordered(self.styles@)
        &&& self.names.wf()
        &&& entries_named(self.paths.entries@, self.names@.len())
        &&& line_starts_ok(self.line_starts@, len)
        &&& self.bytes == len
    }

    /// This output is exactly what `m` says about `input`.
    pub open spec fn reports(&self, input: Seq<u8>, m: MdState) -> bool {
        &&& self.line_starts@ == line_starts_in(input, m.st.pos)
        &&& self.paths.entries@ == m.st.paths
        &&& self.styles@ == m.st.styles
        &&& self.blocks@ == m.blocks
        &&& self.names.wf()
        &&& self.names@ == m.st.names
        &&& self.error is None
        &&& self.bytes == input.len()
    }
}

/// Parses a markdown document. Every input parses.
pub fn parse(input: &[u8], progress: Option<&ProgressSink>) -> (out: ParseOutput)
    requires
        input@.len() < u32::MAX,
    ensures
        out.reports(input@, md_document(input@, true)),
        out.wf(input@.len() as int),
{
    proof {
        law_markdown_indexes(input@, true);
        lemma_line_starts(input@, input@.len() as int);
    }
    let scanned = scan(input, true, progress);
    ParseOutput {
        line_starts: scanned.line_starts,
        paths: PathIndex { entries: scanned.paths },
        styles: scanned.styles,
        blocks: scanned.blocks,
        names: scanned.names,
        error: None,
        bytes: input.len(),
    }
}

/// Markdown has no canonical form. Prettify returns the input verbatim,
/// so a prettify toggle is a no-op.
pub fn prettify(input: &[u8]) -> (out: Vec<u8>)
    ensures
        out@ == input@,
{
    vstd::slice::slice_to_vec(input)
}

// --- path expression ------------------------------------------------

/// `/title` per heading on the path.
pub open spec fn heading_steps(segments: Seq<PathSegment>, names: Seq<Seq<u8>>) -> Seq<char>
    decreases segments.len(),
{
    if segments.len() == 0 {
        Seq::empty()
    } else {
        let before = heading_steps(segments.drop_last(), names);
        match segments.last() {
            PathSegment::Heading { text, .. } => before.push('/') + text_or_replacement(names[text as int]),
            _ => before,
        }
    }
}

/// The section path; `/` outside any heading.
pub open spec fn section_path(segments: Seq<PathSegment>, names: Seq<Seq<u8>>) -> Seq<char> {
    if heading_steps(segments, names).len() == 0 {
        seq!['/']
    } else {
        heading_steps(segments, names)
    }
}

/// The headings that lead to a section, each behind a slash.
pub fn path_expression(segments: &[PathSegment], names: &NameInterner) -> (r: String)
    requires
        names.wf(),
        forall|i: int| 0 <= i < segments@.len() ==> segment_named(#[trigger] segments@[i], names@.len()),
    ensures
        r@ == section_path(segments@, names@),
{
    let mut out = String::new();
    let mut k: usize = 0;
    proof {
        assert(segments@.take(0) =~= Seq::<PathSegment>::empty());
    }
    while k < segments.len()
        invariant
            k <= segments@.len(),
            names.wf(),
            forall|i: int| 0 <= i < segments@.len() ==> segment_named(#[trigger] segments@[i], names@.len()),
            out@ == heading_steps(segments@.take(k as int), names@),
        decreases segments@.len() - k,
    {
        proof {
            assert(segments@.take(k + 1).drop_last() =~= segments@.take(k as int));
            assert(segment_named(segments@[k as int], names@.len()));
        }
        if let PathSegment::Heading { text, .. } = segments[k] {
            out.push('/');
            push_utf8(&mut out, names.get(text));
        }
        k += 1;
    }
    proof {
        assert(segments@.take(segments@.len() as int) =~= segments@);
    }
    if out.as_str().is_empty() {
        out.push('/');
        assert(out@ =~= seq!['/']);
    }
    out
}

/// Bytes that stand for `entry`: its section, the root without
/// surrounding whitespace.
pub open spec fn section_bytes(bytes: Seq<u8>, entry: PathEntry) -> Seq<u8> {
    if entry.segment is Root {
        trimmed(entry_text(bytes, entry))
    } else {
        entry_text(bytes, entry)
    }
}

/// Bytes to copy for `entry`: the text of its section.
pub fn value_bytes_for_entry<'a>(bytes: &'a [u8], entry: &PathEntry) -> (r: &'a [u8])
    ensures
        r@ == section_bytes(bytes@, *entry),
{
    let text = slice_of_entry(bytes, entry);
    match entry.segment {
        PathSegment::Root => trim_bytes(text),
        _ => text,
    }
}

// --- tables ---------------------------------------------------------

/// End of the run of table lines at `i`.
pub open spec fn table_end(blocks: Seq<BlockLine>, i: int) -> int
    decreases blocks.len() - i,
{
    if 0 <= i < blocks.len() && blocks[i].kind == BlockKind::TableLine {
        table_end(blocks, i + 1)
    } else {
        i
    }
}

/// Walk a block-level table run. Returns the first and one past the last
/// index of the contiguous table block beginning at `start_index`, or
/// `None` if that line isn't a table line.
pub fn find_table_run(blocks: &[BlockLine], start_index: usize) -> (r: Option<(usize, usize)>)
    ensures
        r is Some <==> start_index < blocks@.len() && blocks@[start_index as int].kind == BlockKind::TableLine,
        r matches Some((a, b)) ==> a == start_index && b == table_end(blocks@, start_index as int) && a < b
            <= blocks@.len(),
{
    if start_index >= blocks.len() || blocks[start_index].kind != BlockKind::TableLine {
        return None;
    }
    let mut end: usize = start_index + 1;
    while end < blocks.len() && blocks[end].kind == BlockKind::TableLine
        invariant
            start_index < end <= blocks@.len(),
            table_end(blocks@, end as int) == table_end(blocks@, start_index as int),
        decreases blocks@.len() - end,
    {
        end += 1;
    }
    Some((start_index, end))
}

/// Column alignment derived from the `| :--: |` separator row.
#[derive(Debug, Clone, Copy, PartialEq, Eq, Structural)]
pub enum CellAlign {
    Left,
    Center,
    Right,
}

/// End of the run of spaces and tabs at `i`.
pub open spec fn skip_blank_chars(t: Seq<char>, i: int) -> int
    decreases t.len() - i,
{
    if 0 <= i < t.len() && (t[i] == ' ' || t[i] == '\t') {
        skip_blank_chars(t, i + 1)
    } else {
        i
    }
}

/// Splits `t` from `i` on at its pipes: the trimmed cells that a pipe
/// ends, after `cells`, and what follows the last pipe, after `cur`. An
/// escaped pipe belongs to its cell; carriage returns are dropped.
pub open spec fn split_cells(t: Seq<char>, i: int, cells: Seq<Seq<char>>, cur: Seq<char>) -> (
    Seq<Seq<char>>,
    Seq<char>,
)
    decreases (if i < t.len() { t.len() - i } else { 0 }),
{
    if i < 0 || i >= t.len() {
        (cells, cur)
    } else if t[i] == '\\' && i + 1 < t.len() && t[i + 1] == '|' {
        split_cells(t, i + 2, cells, cur.push('|'))
    } else if t[i] == '|' {
        split_cells(t, i + 1, cells.push(trimmed_text(cur)), Seq::empty())
    } else if t[i] == '\r' {
        split_cells(t, i + 1, cells, cur)
    } else {
        split_cells(t, i + 1, cells, cur.push(t[i]))
    }
}

/// The cells of a table row: leading and trailing pipes do not make
/// empty cells.
pub open spec fn row_cells(t: Seq<char>) -> Seq<Seq<char>> {
    let a = skip_blank_chars(t, 0);
    let piped = 0 <= a < t.len() && t[a] == '|';
    let (cells, rest) = split_cells(
        t,
        if piped {
            a + 1
        } else {
            a
        },
        Seq::empty(),
        Seq::empty(),
    );
    let last = trimmed_text(rest);
    if last.len() == 0 && cells.len() > 0 {
        cells
    } else {
        cells.push(last)
    }
}

/// Split a table row on `|`. Leading and trailing pipes (and surrounding
/// whitespace) are stripped, and a backslash-escaped pipe (`\|`) is
/// treated as a literal cell character rather than a separator.
pub fn split_table_row(line: &str) -> (r: Vec<String>)
    ensures
        texts(r@) == row_cells(line@),
{
    let chars = chars_of(line);
    let ghost t = line@;
    let mut cells: Vec<String> = Vec::new();
    let mut cur: Vec<char> = Vec::new();
    let mut i: usize = 0;
    while i < chars.len() && (chars[i] == ' ' || chars[i] == '\t')
        invariant
            chars@ == t,
            i <= t.len(),
            skip_blank_chars(t, i as int) == skip_blank_chars(t, 0),
        decreases t.len() - i,
    {
        i += 1;
    }
    let piped = i < chars.len() && chars[i] == '|';
    if piped {
        i += 1;
    }
    let ghost goal = split_cells(t, i as int, Seq::empty(), Seq::empty());
    proof {
        assert(texts(cells@) =~= Seq::<Seq<char>>::empty());
        assert(cur@ =~= Seq::<char>::empty());
    }
    while i < chars.len()
        invariant
            chars@ == t,
            i <= t.len(),
            goal == split_cells(t, i as int, texts(cells@), cur@),
        decreases t.len() - i,
    {
        let c = chars[i];
        if c == '\\' && i + 1 < chars.len() && chars[i + 1] == '|' {
            cur.push('|');
            i += 2;
        } else if c == '|' {
            let ghost before = texts(cells@);
            let cell = trim_chars(cur.as_slice());
            cells.push(cell);
            cur = Vec::new();
            i += 1;
            proof {
                assert(texts(cells@) =~= before.push(cell@));
                assert(cur@ =~= Seq::<char>::empty());
            }
        } else if c == '\r' {
            i += 1;
        } else {
            cur.push(c);
            i += 1;
        }
    }
    let last = trim_chars(cur.as_slice());
    // If the row ended on a trailing pipe, only whitespace is left and the
    // real last cell is already there.
    if !(last.as_str().is_empty() && cells.len() > 0) {
        let ghost before = texts(cells@);
        cells.push(last);
        assert(texts(cells@) =~= before.push(last@));
    }
    cells
}

/// Alignment that a separator cell states: dashes, at least one, with an
/// optional colon on either side.
pub open spec fn cell_align(t: Seq<char>) -> Option<CellAlign> {
    let left = t.len() > 0 && t[0] == ':';
    let right = t.len() > 0 && t.last() == ':';
    let a = if left {
        1int
    } else {
        0int
    };
    let b = if right {
        t.len() - 1
    } else {
        t.len() as int
    };
    if a < b && forall|i: int| a <= i < b ==> #[trigger] t[i] == '-' {
        Some(
            if left && right {
                CellAlign::Center
            } else if right {
                CellAlign::Right
            } else {
                CellAlign::Left
            },
        )
    } else {
        None
    }
}

fn parse_separator_cell(cell: &str) -> (r: Option<CellAlign>)
    ensures
        r == cell_align(cell@),
{
    let chars = chars_of(cell);
    let n: usize = chars.len();
    let left = n > 0 && chars[0] == ':';
    let right = n > 0 && chars[n - 1] == ':';
    let a: usize = if left {
        1
    } else {
        0
    };
    let b: usize = if right {
        n - 1
    } else {
        n
    };
    if b <= a {
        return None;
    }
    let mut i: usize = a;
    while i < b
        invariant
            chars@ == cell@,
            a <= i <= b <= n == chars@.len(),
            left == (n > 0 && cell@[0] == ':'),
            right == (n > 0 && cell@[n - 1] == ':'),
            a == if left {
                1int
            } else {
                0int
            },
            b == if right {
                n - 1
            } else {
                n as int
            },
            forall|k: int| a <= k < i ==> #[trigger] cell@[k] == '-',
        decreases b - i,
    {
        if chars[i] != '-' {
            proof {
                assert(cell@[i as int] != '-');
            }
            return None;
        }
        i += 1;
    }
    if left && right {
        Some(CellAlign::Center)
    } else if right {
        Some(CellAlign::Right)
    } else {
        Some(CellAlign::Left)
    }
}

/// Recognise a table-separator row like `| :--- | ---: | :---: |`.
/// Returns the per-column alignments if every cell states one.
pub fn parse_table_separator(line: &str) -> (r: Option<Vec<CellAlign>>)
    ensures
        r is Some <==> forall|i: int|
            0 <= i < row_cells(line@).len() ==> cell_align(#[trigger] row_cells(line@)[i]) is Some,
        r matches Some(aligns) ==> aligns@.len() == row_cells(line@).len() && forall|i: int|
            0 <= i < aligns@.len() ==> cell_align(row_cells(line@)[i]) == Some(#[trigger] aligns@[i]),
{
    let cells = split_table_row(line);
    let mut out: Vec<CellAlign> = Vec::new();
    let mut i: usize = 0;
    while i < cells.len()
        invariant
            i <= cells@.len(),
            texts(cells@) == row_cells(line@),
            out@.len() == i,
            forall|k: int| 0 <= k < i ==> cell_align(row_cells(line@)[k]) == Some(#[trigger] out@[k]),
        decreases cells@.len() - i,
    {
        proof {
            assert(row_cells(line@)[i as int] == cells@[i as int]@);
        }
        match parse_separator_cell(cells[i].as_str()) {
            Some(align) => out.push(align),
            None => {
                return None;
            },
        }
        i += 1;
    }
    proof {
        assert forall|k: int| 0 <= k < row_cells(line@).len() implies cell_align(
            #[trigger] row_cells(line@)[k],
        ) is Some by {
            assert(cell_align(row_cells(line@)[k]) == Some(out@[k]));
        }
    }
    Some(out)
}

} // verus!
