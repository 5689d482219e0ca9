//! State and layout logic of the document view.
//!
//! The view shows the open document line by line in a monospace font, so
//! everything here is in lines, character columns and UTF-16 units; the
//! host turns those into pixels and draws.

use std::sync::Arc;
use vstd::prelude::*;
use vstd::slice::slice_subrange;
use vstd::utf8::{encode_utf8, valid_utf8};

use crate::columns::{
    byte_offset_to_char_col, bytes_before, char_col, char_range_to_byte_range, chars_of_line, clip_col,
    law_column_round_trip, lemma_line_chars, lemma_prefix_bytes, line_chars, prefix_bytes, span_ranges, utf16_spans,
};
use crate::doc::{line_text, Document};
use crate::format::nesting::covers;
use crate::format::csv::{
    byte_at_col, byte_of_visual_col, cells_between, cells_ok, display_char, empty_row, glyphs, lemma_cells_between_ok,
    path_col, path_row, record_cells, render_row, row_from, visual_col, visual_col_of_byte, xsv_pipeline, CsvMeta,
};
use crate::format::{
    entry_text, expression_of, lemma_path_named, line_starts_ok, lookup_spec, path_to, value_of, PathSegment,
    StyleKind, StyleSpan,
};
use crate::search::{next_index, occurrences, prev_index, MAX_MATCHES};
use crate::sorted::{count_at_most, count_le, lemma_count_at_most, line_of, nondecreasing};
use crate::text::{chars_of, shown_text, string_of, utf8_lossy};

pub use crate::search::SearchState;
pub use crate::sorted::line_for_offset;

verus! {

/// Widest line that the view makes room for, in characters.
pub const MAX_LINE_CHARS_FOR_LAYOUT: u32 = 8_000;

// --- what the view shows --------------------------------------------

/// Start of the line after `line`; `u32::MAX` after the last one.
pub open spec fn next_line_start(starts: Seq<u32>, line: int) -> int {
    if line + 1 < starts.len() {
        starts[line + 1] as int
    } else {
        u32::MAX as int
    }
}

/// The cells of the record on `line`.
pub open spec fn line_cells(doc: Document, line: int) -> Seq<(u32, u32)> {
    cells_between(
        doc.output.paths.entries@,
        doc.output.line_starts@[line] as int,
        next_line_start(doc.output.line_starts@, line),
    )
}

/// The entry a click at `offset` resolves to.
pub open spec fn entry_at(doc: Document, offset: int) -> Option<int> {
    lookup_spec(doc.output.paths.entries@, offset)
}

/// The cell or data row of a table that the click landed in.
pub open spec fn cell_or_row_at(doc: Document, offset: int) -> Option<int> {
    match entry_at(doc, offset) {
        Some(i) => if covers(doc.output.paths.entries@, i, offset) && !(doc.output.paths.entries@[i].segment is Root) {
            Some(i)
        } else {
            None
        },
        None => None,
    }
}

/// Bytes of the record on `line` of a table, from its first cell to the
/// end of its last; the whole document where the line holds no record.
pub open spec fn record_text(doc: Document, line: int) -> Seq<u8> {
    let cells = line_cells(doc, line);
    if cells.len() == 0 {
        doc.bytes@
    } else {
        doc.bytes@.subrange(cells[0].0 as int, cells.last().1 as int)
    }
}

/// Path of the record on `line` of a table: the row number; empty for
/// the header and where the line holds no record.
pub open spec fn record_path(doc: Document, line: int) -> Seq<PathSegment> {
    if line > 0 && line_cells(doc, line).len() > 0 {
        seq![PathSegment::Index((line - 1) as u32)]
    } else {
        Seq::empty()
    }
}

/// Bytes of the sub-tree at the click; the whole document when nothing
/// has been clicked or no entry contains the click. In a table, the cell
/// if the click landed in one, else its record.
pub open spec fn subtree_at(doc: Document, click: Option<u32>) -> Seq<u8> {
    match click {
        None => doc.bytes@,
        Some(offset) => if doc.output.csv is Some {
            match cell_or_row_at(doc, offset as int) {
                Some(i) => entry_text(doc.bytes@, doc.output.paths.entries@[i]),
                None => record_text(doc, line_of(doc.output.line_starts@, offset as int)),
            }
        } else {
            match entry_at(doc, offset as int) {
                Some(i) => if covers(doc.output.paths.entries@, i, offset as int) {
                    value_of(doc.format, doc.bytes@, doc.output.paths.entries@[i])
                } else {
                    doc.bytes@
                },
                None => doc.bytes@,
            }
        },
    }
}

/// Path of the click: empty when nothing has been clicked. In a table,
/// the path of the cell if the click landed in one, else of its record.
pub open spec fn path_at(doc: Document, click: Option<u32>) -> Seq<PathSegment> {
    match click {
        Some(off) => if doc.output.csv is Some {
            match cell_or_row_at(doc, off as int) {
                Some(i) => path_to(doc.output.paths.entries@, i),
                None => record_path(doc, line_of(doc.output.line_starts@, off as int)),
            }
        } else {
            match entry_at(doc, off as int) {
                Some(i) => path_to(doc.output.paths.entries@, i),
                None => Seq::empty(),
            }
        },
        None => Seq::empty(),
    }
}

/// Path expression of the click, in the document's dialect.
pub open spec fn expression_at(doc: Document, click: Option<u32>) -> Seq<char> {
    let segments = path_at(doc, click);
    if doc.output.csv is Some {
        xsv_pipeline(
            path_row(segments),
            match path_col(segments) {
                Some(k) => Some(shown_text(doc.output.names@[k as int])),
                None => None,
            },
        )
    } else {
        expression_of(doc.format, segments, doc.output.names@)
    }
}

/// Line and byte column of the cursor.
pub open spec fn cursor_at(starts: Seq<u32>, click: Option<u32>) -> (int, int) {
    match click {
        Some(off) => (line_of(starts, off as int), off - starts[line_of(starts, off as int)]),
        None => (0, 0),
    }
}

/// `x` brought into `lo..=hi`.
pub open spec fn bounded_by(x: int, lo: int, hi: int) -> int {
    if x < lo {
        lo
    } else if x > hi {
        hi
    } else {
        x
    }
}

/// Offset of the position nearest to `line` and `col`: the line must
/// exist, the column must not pass the end of its text.
pub open spec fn offset_near(doc: Document, line: int, col: int) -> int {
    let starts = doc.output.line_starts@;
    let l = bounded_by(line, 0, starts.len() - 1);
    starts[l] + bounded_by(col, 0, line_text(doc.bytes@, starts, l).len() as int)
}

/// Line and column of `offset` on screen: through the table layout in
/// table mode, else counting characters.
pub open spec fn screen_pos(doc: Document, table: bool, offset: int) -> (int, int) {
    let starts = doc.output.line_starts@;
    let line = line_of(starts, offset);
    (
        line,
        match doc.output.csv {
            Some(meta) if table => visual_col(meta.col_widths@, line_cells(doc, line), doc.bytes@, offset),
            _ => char_col(line_text(doc.bytes@, starts, line), offset - starts[line]),
        },
    )
}

/// Byte offset under column `col` of `line`.
pub open spec fn offset_under(doc: Document, table: bool, line: int, col: int) -> Option<int> {
    let starts = doc.output.line_starts@;
    if line >= starts.len() {
        None
    } else {
        match doc.output.csv {
            Some(meta) if table => match byte_at_col(
                meta.col_widths@,
                meta.col_origins@,
                line_cells(doc, line),
                doc.bytes@,
                col,
            ) {
                Some(b) => Some(b),
                None => Some(starts[line] as int),
            },
            _ => {
                let t = line_chars(line_text(doc.bytes@, starts, line));
                Some(starts[line] + prefix_bytes(t, clip_col(t, col)))
            },
        }
    }
}

/// A click on a character of a plain line leads back to it: the offset
/// under a column is shown on that line, in that column or, past the end
/// of the text, behind its last character.
pub proof fn law_click_round_trip(doc: &Document, table: bool, line: int, col: int)
    requires
        doc.wf(),
        !table || doc.output.csv is None,
        0 <= line < doc.output.line_starts@.len(),
        0 <= col,
        valid_utf8(line_text(doc.bytes@, doc.output.line_starts@, line)),
    ensures
        ({
            let t = line_chars(line_text(doc.bytes@, doc.output.line_starts@, line));
            &&& offset_under(*doc, table, line, col) is Some
            &&& screen_pos(*doc, table, offset_under(*doc, table, line, col)->0) == (line, clip_col(t, col))
        }),
{
    let starts = doc.output.line_starts@;
    let text = line_text(doc.bytes@, starts, line);
    let t = line_chars(text);
    let k = clip_col(t, col);
    let n = prefix_bytes(t, k) as int;
    law_column_round_trip(text, k);
    lemma_line_chars(text);
    lemma_prefix_bytes(t, k, t.len() as int);
    lemma_line_text(doc, line);
    assert forall|i: int| line < i < starts.len() implies #[trigger] starts[i] > starts[line] + n by {
        if line + 1 < i {
            assert(starts[line + 1] < starts[i]);
        }
        assert(starts[line] < starts[line + 1]);
    }
    assert forall|i: int| 0 <= i < line + 1 implies #[trigger] starts[i] <= starts[line] + n by {
        if i < line {
            assert(starts[i] < starts[line]);
        }
    }
    lemma_count_at_most(starts, starts[line] + n, line + 1);
}

/// A search match on a line: the columns it covers, and whether it is
/// the focused one.
#[derive(Debug, Clone, Copy, PartialEq, Eq, Structural)]
pub struct MatchBand {
    pub col_start: u32,
    pub col_end: u32,
    pub current: bool,
}

/// Text to draw on a line, the column it starts at, and its colored
/// UTF-16 ranges.
#[derive(Debug)]
pub struct DrawnLine {
    pub col: u32,
    pub text: String,
    pub spans: Vec<(usize, usize, StyleKind)>,
}

/// Matches whose bytes touch `from..to`, as an index range.
pub open spec fn matches_touching(search: SearchState, from: int, to: int) -> (int, int) {
    (count_at_most(search.matches@, from - search.match_len), count_at_most(search.matches@, to - 1))
}

pub open spec fn min_int(a: int, b: int) -> int {
    if a < b {
        a
    } else {
        b
    }
}

pub open spec fn max_int(a: int, b: int) -> int {
    if a > b {
        a
    } else {
        b
    }
}

/// Band of match `idx` on a table row; nothing when truncation hides it.
pub open spec fn table_band(doc: Document, meta: CsvMeta, search: SearchState, line: int, idx: int) -> Option<MatchBand> {
    let starts = doc.output.line_starts@;
    let l_start = starts[line] as int;
    let l_end = l_start + line_text(doc.bytes@, starts, line).len();
    let m = search.matches@[idx] as int;
    let ca = visual_col(meta.col_widths@, line_cells(doc, line), doc.bytes@, max_int(m, l_start));
    let cb = visual_col(
        meta.col_widths@,
        line_cells(doc, line),
        doc.bytes@,
        min_int(m + search.match_len, l_end),
    );
    if cb <= ca {
        None
    } else {
        Some(MatchBand { col_start: ca as u32, col_end: cb as u32, current: idx == search.current })
    }
}

/// Bands of the matches `idx..hi` on a table row.
pub open spec fn table_bands(doc: Document, meta: CsvMeta, search: SearchState, line: int, idx: int, hi: int) -> Seq<
    MatchBand,
>
    decreases hi - idx,
{
    if idx >= hi {
        Seq::empty()
    } else {
        match table_band(doc, meta, search, line, idx) {
            Some(band) => seq![band] + table_bands(doc, meta, search, line, idx + 1, hi),
            None => table_bands(doc, meta, search, line, idx + 1, hi),
        }
    }
}

/// Band of match `idx` on a plain line of which the first `shown` bytes
/// reach into view.
pub open spec fn plain_band(doc: Document, search: SearchState, line: int, shown: int, idx: int) -> MatchBand {
    let starts = doc.output.line_starts@;
    let l_start = starts[line] as int;
    let text = line_text(doc.bytes@, starts, line);
    let m = search.matches@[idx] as int;
    MatchBand {
        col_start: char_col(text.take(shown), max_int(m, l_start) - l_start) as u32,
        col_end: char_col(text.take(shown), min_int(m + search.match_len, l_start + text.len()) - l_start) as u32,
        current: idx == search.current,
    }
}

/// Bands of the search matches on `line` within the visible columns.
pub open spec fn bands_on(doc: Document, table: bool, search: SearchState, line: int, vis_start: int, vis_end: int) -> Seq<
    MatchBand,
> {
    let starts = doc.output.line_starts@;
    let l_start = starts[line] as int;
    let text = line_text(doc.bytes@, starts, line);
    match doc.output.csv {
        Some(meta) if table => {
            let (lo, hi) = matches_touching(search, l_start, l_start + text.len());
            table_bands(doc, meta, search, line, lo, hi)
        },
        _ => {
            let t = line_chars(text);
            let from = prefix_bytes(t, clip_col(t, vis_start));
            let shown = prefix_bytes(t, clip_col(t, vis_end));
            let (lo, hi) = matches_touching(search, l_start + from, l_start + shown);
            if lo < hi {
                Seq::new((hi - lo) as nat, |k: int| plain_band(doc, search, line, shown as int, lo + k))
            } else {
                Seq::empty()
            }
        },
    }
}

pub open spec fn span_starts(styles: Seq<StyleSpan>) -> Seq<u32> {
    Seq::new(styles.len(), |i: int| styles[i].start)
}

pub open spec fn span_ends(styles: Seq<StyleSpan>) -> Seq<u32> {
    Seq::new(styles.len(), |i: int| styles[i].end)
}

/// The style spans that touch the bytes `from..to`.
pub open spec fn styles_touching(styles: Seq<StyleSpan>, from: int, to: int) -> Seq<StyleSpan> {
    let lo = count_at_most(span_ends(styles), from);
    let hi = count_at_most(span_starts(styles), to - 1);
    if lo < hi {
        styles.subrange(lo, hi)
    } else {
        Seq::empty()
    }
}

/// The characters of a plain line within the visible columns.
pub open spec fn visible_chars(t: Seq<char>, vis_start: int, vis_end: int) -> Seq<char> {
    t.subrange(clip_col(t, vis_start), clip_col(t, vis_end))
}

/// What is drawn of a plain line: its visible characters, colored by the
/// style spans that touch them. CSV records show control characters as
/// picture glyphs.
pub open spec fn drawn_plain(doc: Document, line: int, vis_start: int, vis_end: int) -> (
    Seq<char>,
    Seq<(usize, usize, StyleKind)>,
) {
    let starts = doc.output.line_starts@;
    let t = line_chars(line_text(doc.bytes@, starts, line));
    let shown = visible_chars(t, vis_start, vis_end);
    let from = starts[line] + prefix_bytes(t, clip_col(t, vis_start));
    let to = starts[line] + prefix_bytes(t, clip_col(t, vis_end));
    (
        if doc.output.csv is Some {
            glyphs(shown)
        } else {
            shown
        },
        span_ranges(shown, from, styles_touching(doc.output.styles@, from, to), 0, 0),
    )
}

/// The view's documents are small enough to count UTF-16 units in a
/// `usize`.
pub open spec fn countable(doc: Document) -> bool {
    &&& 2 * doc.bytes@.len() <= usize::MAX
    &&& doc.output.csv matches Some(meta) ==> 2 * meta.table_width <= usize::MAX
}

// --- keys -----------------------------------------------------------

/// What a key press means to the view.
#[derive(Debug, Clone, Copy, PartialEq, Eq, Structural)]
pub enum KeyAction {
    Ignore,
    Move { dline: i64, dcol: i64 },
    LineStart,
    LineEnd,
    Top,
    Bottom,
    NextMatch,
    PrevMatch,
    ShowSearch,
}

/// Meaning of an arrow key.
pub open spec fn arrow_key(raw: Seq<char>) -> Option<KeyAction> {
    if raw == seq!['\u{f702}'] {
        Some(KeyAction::Move { dline: 0, dcol: (-1) as i64 })
    } else if raw == seq!['\u{f703}'] {
        Some(KeyAction::Move { dline: 0, dcol: 1 })
    } else if raw == seq!['\u{f700}'] {
        Some(KeyAction::Move { dline: (-1) as i64, dcol: 0 })
    } else if raw == seq!['\u{f701}'] {
        Some(KeyAction::Move { dline: 1, dcol: 0 })
    } else {
        None
    }
}

/// Meaning of a typed character.
pub open spec fn char_key(c: char) -> KeyAction {
    if c == 'h' {
        KeyAction::Move { dline: 0, dcol: (-1) as i64 }
    } else if c == 'l' {
        KeyAction::Move { dline: 0, dcol: 1 }
    } else if c == 'k' {
        KeyAction::Move { dline: (-1) as i64, dcol: 0 }
    } else if c == 'j' {
        KeyAction::Move { dline: 1, dcol: 0 }
    } else if c == '0' {
        KeyAction::LineStart
    } else if c == '$' {
        KeyAction::LineEnd
    } else if c == 'n' {
        KeyAction::NextMatch
    } else if c == 'N' {
        KeyAction::PrevMatch
    } else if c == 'g' {
        KeyAction::Top
    } else if c == 'G' {
        KeyAction::Bottom
    } else if c == '/' {
        KeyAction::ShowSearch
    } else {
        KeyAction::Ignore
    }
}

/// Meaning of a key press: nothing while Command is held; arrow keys by
/// the characters without modifiers; other keys by the typed character.
pub open spec fn key_meaning(command: bool, chars: Seq<char>, raw: Seq<char>) -> KeyAction {
    if command {
        KeyAction::Ignore
    } else {
        match arrow_key(raw) {
            Some(action) => action,
            None => if chars.len() == 1 {
                char_key(chars[0])
            } else {
                KeyAction::Ignore
            },
        }
    }
}

/// Meaning of a key press whose characters are `chars`, and `raw` without
/// modifiers.
pub fn key_action(command: bool, chars: &str, raw: &str) -> (r: KeyAction)
    ensures
        r == key_meaning(command, chars@, raw@),
{
    if command {
        return KeyAction::Ignore;
    }
    let raw_chars = chars_of(raw);
    if raw_chars.len() == 1 {
        let c = raw_chars[0];
        assert(raw@ =~= seq![c]);
        proof {
            assert(forall|d: char| seq![c] == #[trigger] seq![d] ==> seq![c][0] == seq![d][0]);
        }
        if c == '\u{f702}' {
            return KeyAction::Move { dline: 0, dcol: -1 };
        } else if c == '\u{f703}' {
            return KeyAction::Move { dline: 0, dcol: 1 };
        } else if c == '\u{f700}' {
            return KeyAction::Move { dline: -1, dcol: 0 };
        } else if c == '\u{f701}' {
            return KeyAction::Move { dline: 1, dcol: 0 };
        }
    }
    let typed = chars_of(chars);
    if typed.len() != 1 {
        return KeyAction::Ignore;
    }
    let c = typed[0];
    if c == 'h' {
        KeyAction::Move { dline: 0, dcol: -1 }
    } else if c == 'l' {
        KeyAction::Move { dline: 0, dcol: 1 }
    } else if c == 'k' {
        KeyAction::Move { dline: -1, dcol: 0 }
    } else if c == 'j' {
        KeyAction::Move { dline: 1, dcol: 0 }
    } else if c == '0' {
        KeyAction::LineStart
    } else if c == '$' {
        KeyAction::LineEnd
    } else if c == 'n' {
        KeyAction::NextMatch
    } else if c == 'N' {
        KeyAction::PrevMatch
    } else if c == 'g' {
        KeyAction::Top
    } else if c == 'G' {
        KeyAction::Bottom
    } else if c == '/' {
        KeyAction::ShowSearch
    } else {
        KeyAction::Ignore
    }
}

// --- the view -------------------------------------------------------

/// State of the document view: the open document, the offset of the last
/// click, the search, and whether CSV is drawn as an aligned table.
#[derive(Debug)]
pub struct DocView {
    pub doc: Option<Arc<Document>>,
    pub last_click: Option<u32>,
    pub search: SearchState,
    pub csv_table: bool,
}

/// Line starts of a well-formed document never decrease.
proof fn lemma_starts_nondecreasing(starts: Seq<u32>, len: int)
    requires
        line_starts_ok(starts, len),
    ensures
        nondecreasing(starts),
{
    assert forall|i: int, j: int| 0 <= i <= j < starts.len() implies (#[trigger] starts[i]) <= (
    #[trigger] starts[j]) by {
        if i < j {
            assert(starts[i] < starts[j]);
        }
    }
}

/// A line's text lies in the document, from its start on.
proof fn lemma_line_text(doc: &Document, line: int)
    requires
        doc.wf(),
        0 <= line < doc.output.line_starts@.len(),
    ensures
        doc.output.line_starts@[line] + line_text(doc.bytes@, doc.output.line_starts@, line).len()
            <= doc.bytes@.len(),
{
    let starts = doc.output.line_starts@;
    if line + 1 < starts.len() {
        assert(starts[line] < starts[line + 1]);
        assert(starts[line + 1] <= doc.bytes@.len());
    }
    assert(starts[line] <= doc.bytes@.len());
}

/// `at` moved by `d`, as far as an `i64` goes.
fn moved_by(at: i64, d: i64) -> (r: i64)
    requires
        0 <= at,
    ensures
        r == min_int(at + d, i64::MAX as int),
{
    if d > i64::MAX - at {
        i64::MAX
    } else {
        at + d
    }
}

impl DocView {
    pub open spec fn wf(&self) -> bool {
        &&& self.search.wf()
        &&& self.doc matches Some(d) ==> d.wf()
    }

    pub fn new() -> (r: Self)
        ensures
            r.wf(),
            r.doc is None,
            r.last_click is None,
            r.search.is_clear(),
            r.csv_table,
    {
        DocView { doc: None, last_click: None, search: SearchState::default(), csv_table: true }
    }

    /// Shows `doc`. Click, search and view mode stay.
    pub fn set_document(&mut self, doc: Arc<Document>)
        requires
            old(self).wf(),
            doc.wf(),
        ensures
            final(self).wf(),
            final(self).doc == Some(doc),
            final(self).last_click == old(self).last_click,
            final(self).search == old(self).search,
            final(self).csv_table == old(self).csv_table,
    {
        self.doc = Some(doc);
    }

    /// Back to table mode, for a new document.
    pub fn reset_table_mode(&mut self)
        requires
            old(self).wf(),
        ensures
            final(self).wf(),
            final(self).csv_table,
            final(self).doc == old(self).doc,
            final(self).last_click == old(self).last_click,
            final(self).search == old(self).search,
    {
        self.csv_table = true;
    }

    pub fn csv_table_mode(&self) -> (r: bool)
        ensures
            r == self.csv_table,
    {
        self.csv_table
    }

    pub fn set_csv_table_mode(&mut self, on: bool)
        requires
            old(self).wf(),
        ensures
            final(self).wf(),
            final(self).csv_table == on,
            final(self).doc == old(self).doc,
            final(self).last_click == old(self).last_click,
            final(self).search == old(self).search,
    {
        self.csv_table = on;
    }

    /// Width to make room for, in characters: the table's in table mode,
    /// else the longest line's, up to a limit.
    pub fn layout_chars(&self) -> (r: u32)
        requires
            self.wf(),
        ensures
            r == match self.doc {
                Some(d) => min_int(
                    match d.output.csv {
                        Some(meta) if self.csv_table => meta.table_width as int,
                        _ => d.max_line_bytes as int,
                    },
                    MAX_LINE_CHARS_FOR_LAYOUT as int,
                ),
                None => 0,
            },
    {
        match &self.doc {
            Some(d) => {
                let width: u32 = match active_csv_meta(d, self.csv_table) {
                    Some(meta) => meta.table_width,
                    None => d.max_line_bytes,
                };
                if width < MAX_LINE_CHARS_FOR_LAYOUT {
                    width
                } else {
                    MAX_LINE_CHARS_FOR_LAYOUT
                }
            },
            None => 0,
        }
    }

    pub fn last_click_offset(&self) -> (r: Option<u32>)
        ensures
            r == self.last_click,
    {
        self.last_click
    }

    pub fn set_last_click_offset(&mut self, offset: Option<u32>)
        requires
            old(self).wf(),
        ensures
            final(self).wf(),
            final(self).last_click == offset,
            final(self).doc == old(self).doc,
            final(self).search == old(self).search,
            final(self).csv_table == old(self).csv_table,
    {
        self.last_click = offset;
    }

    /// Run a case-insensitive search. Returns the match count.
    pub fn search(&mut self, query: &str) -> (n: usize)
        requires
            old(self).wf(),
            encode_utf8(query@).len() <= u32::MAX,
        ensures
            final(self).wf(),
            final(self).doc == old(self).doc,
            final(self).last_click == old(self).last_click,
            final(self).csv_table == old(self).csv_table,
            n == final(self).search.matches@.len(),
            match old(self).doc {
                Some(d) if query@.len() > 0 => {
                    &&& final(self).search.matches@ == occurrences(
                        d.bytes@,
                        encode_utf8(query@),
                        0,
                        MAX_MATCHES as nat,
                    )
                    &&& final(self).search.match_len == encode_utf8(query@).len()
                    &&& final(self).search.current == 0
                },
                _ => final(self).search.is_clear(),
            },
    {
        self.search.clear();
        if query.is_empty() {
            return 0;
        }
        match &self.doc {
            Some(d) => self.search.run(d.bytes.as_slice(), query.as_bytes()),
            None => 0,
        }
    }

    /// Clear all search highlights.
    pub fn clear_search(&mut self)
        requires
            old(self).wf(),
        ensures
            final(self).wf(),
            final(self).search.is_clear(),
            final(self).doc == old(self).doc,
            final(self).last_click == old(self).last_click,
            final(self).csv_table == old(self).csv_table,
    {
        self.search.clear();
    }

    /// Focuses the next match and moves the click to it. Returns its index
    /// and the number of matches, or `None` if there are none.
    pub fn search_next(&mut self) -> (r: Option<(usize, usize)>)
        requires
            old(self).wf(),
        ensures
            final(self).wf(),
            final(self).doc == old(self).doc,
            final(self).csv_table == old(self).csv_table,
            final(self).search.matches == old(self).search.matches,
            final(self).search.match_len == old(self).search.match_len,
            final(self).search.current == next_index(
                old(self).search.current as int,
                old(self).search.matches@.len() as int,
            ),
            old(self).search.matches@.len() == 0 ==> r is None && final(self).last_click == old(self).last_click,
            old(self).search.matches@.len() > 0 ==> r == Some(
                (final(self).search.current, old(self).search.matches@.len() as usize),
            ) && final(self).last_click == Some(
                old(self).search.matches@[final(self).search.current as int],
            ),
    {
        match self.search.next() {
            Some(offset) => {
                self.last_click = Some(offset);
                Some((self.search.current, self.search.matches.len()))
            },
            None => None,
        }
    }

    /// Focuses the previous match and moves the click to it.
    pub fn search_prev(&mut self) -> (r: Option<(usize, usize)>)
        requires
            old(self).wf(),
        ensures
            final(self).wf(),
            final(self).doc == old(self).doc,
            final(self).csv_table == old(self).csv_table,
            final(self).search.matches == old(self).search.matches,
            final(self).search.match_len == old(self).search.match_len,
            final(self).search.current == prev_index(
                old(self).search.current as int,
                old(self).search.matches@.len() as int,
            ),
            old(self).search.matches@.len() == 0 ==> r is None && final(self).last_click == old(self).last_click,
            old(self).search.matches@.len() > 0 ==> r == Some(
                (final(self).search.current, old(self).search.matches@.len() as usize),
            ) && final(self).last_click == Some(
                old(self).search.matches@[final(self).search.current as int],
            ),
    {
        match self.search.prev() {
            Some(offset) => {
                self.last_click = Some(offset);
                Some((self.search.current, self.search.matches.len()))
            },
            None => None,
        }
    }

    /// Moves the click to the focused match and returns its offset, for
    /// the host to scroll to.
    pub fn scroll_to_current_match(&mut self) -> (r: Option<u32>)
        requires
            old(self).wf(),
        ensures
            final(self).wf(),
            final(self).doc == old(self).doc,
            final(self).search == old(self).search,
            final(self).csv_table == old(self).csv_table,
            old(self).search.matches@.len() == 0 ==> r is None && final(self).last_click == old(self).last_click,
            old(self).search.matches@.len() > 0 ==> r == Some(
                old(self).search.matches@[old(self).search.current as int],
            ) && final(self).last_click == r,
    {
        if self.search.current < self.search.matches.len() {
            let offset = self.search.matches[self.search.current];
            self.last_click = Some(offset);
            Some(offset)
        } else {
            None
        }
    }

    /// Line and column at which `offset` is drawn, for the host to scroll
    /// to.
    pub fn scroll_target(&self, offset: u32) -> (r: Option<(usize, u32)>)
        requires
            self.wf(),
        ensures
            match self.doc {
                Some(d) => r matches Some((line, col)) && (line as int, col as int) == screen_pos(
                    *d,
                    self.csv_table,
                    offset as int,
                ),
                None => r is None,
            },
    {
        let d = match &self.doc {
            Some(d) => d,
            None => {
                return None;
            },
        };
        proof {
            lemma_starts_nondecreasing(d.output.line_starts@, d.bytes@.len() as int);
        }
        let line = line_for_offset(offset, d.output.line_starts.as_slice());
        match active_csv_meta(d, self.csv_table) {
            Some(meta) => {
                let cells = cells_on_line(d, line);
                Some((line, visual_col_of_byte(meta, cells.as_slice(), d.bytes.as_slice(), offset)))
            },
            None => {
                let start = d.output.line_starts[line];
                Some((line, byte_offset_to_char_col(d.line_bytes(line), offset - start)))
            },
        }
    }

    /// Drops the document and the click.
    pub fn clear_document(&mut self)
        requires
            old(self).wf(),
        ensures
            final(self).wf(),
            final(self).doc is None,
            final(self).last_click is None,
            final(self).search == old(self).search,
            final(self).csv_table == old(self).csv_table,
    {
        self.doc = None;
        self.last_click = None;
    }

    /// Bytes of the sub-tree at the last click. `None` without a document.
    pub fn subtree_bytes(&self) -> (r: Option<&[u8]>)
        requires
            self.wf(),
        ensures
            match self.doc {
                Some(d) => r matches Some(s) && s@ == subtree_at(*d, self.last_click),
                None => r is None,
            },
    {
        let d = match &self.doc {
            Some(d) => d,
            None => {
                return None;
            },
        };
        let bytes = d.bytes.as_slice();
        let offset: u32 = match self.last_click {
            Some(off) => off,
            None => {
                return Some(bytes);
            },
        };
        if d.output.csv.is_some() {
            return Some(match landed_entry(d, offset) {
                Some(i) => crate::format::csv::value_bytes_for_entry(bytes, &d.output.paths.entries[i as usize]),
                None => {
                    let cells = cells_on_line(d, clicked_record(d, offset));
                    let n: usize = cells.len();
                    if n == 0 {
                        bytes
                    } else {
                        proof {
                            assert(cells@[0].0 <= cells@[n - 1].0);
                        }
                        slice_subrange(bytes, cells[0].0 as usize, cells[n - 1].1 as usize)
                    }
                },
            });
        }
        match d.output.paths.lookup(offset) {
            Some(i) => {
                let entry = d.output.paths.entries[i as usize];
                if entry.start <= offset && offset < entry.end {
                    Some(crate::format::value_bytes_for_entry(d.format, bytes, &entry))
                } else {
                    Some(bytes)
                }
            },
            None => Some(bytes),
        }
    }

    /// Sub-tree at the last-clicked offset, as text. Falls back to the
    /// entire document when there's no click (or no entry containing it).
    /// In a table, the cell if the click landed in one, else its record.
    /// `None` when no document is loaded.
    pub fn current_subtree(&self) -> (r: Option<String>)
        requires
            self.wf(),
        ensures
            match self.doc {
                Some(d) => r matches Some(s) && s@ == shown_text(subtree_at(*d, self.last_click)),
                None => r is None,
            },
    {
        match self.subtree_bytes() {
            Some(bytes) => Some(utf8_lossy(bytes)),
            None => None,
        }
    }

    /// Path expression for the last-clicked offset: jq for JSON, XPath for
    /// XML, an xsv pipeline for CSV. Without a click the format's
    /// empty-path expression; `.` without a document.
    pub fn current_path_expression(&self) -> (r: String)
        requires
            self.wf(),
        ensures
            r@ == match self.doc {
                Some(d) => expression_at(*d, self.last_click),
                None => seq!['.'],
            },
    {
        let d = match &self.doc {
            Some(d) => d,
            None => {
                let mut out = String::new();
                out.push('.');
                assert(out@ =~= seq!['.']);
                return out;
            },
        };
        let mut segments: Vec<PathSegment> = Vec::new();
        if let Some(offset) = self.last_click {
            let found: Option<u32> = if d.output.csv.is_some() {
                landed_entry(d, offset)
            } else {
                d.output.paths.lookup(offset)
            };
            if let Some(entry) = found {
                segments = d.output.paths.path_of(entry);
                proof {
                    lemma_path_named(d.output.paths.entries@, entry as int, d.output.names@.len());
                }
            } else if d.output.csv.is_some() {
                let line = clicked_record(d, offset);
                if line > 0 && cells_on_line(d, line).len() > 0 {
                    segments.push(PathSegment::Index((line - 1) as u32));
                }
            }
        }
        proof {
            assert(segments@ =~= path_at(**d, self.last_click));
        }
        if d.output.csv.is_some() {
            crate::format::csv::path_expression(segments.as_slice(), &d.output.names)
        } else {
            crate::format::path_expression(d.format, segments.as_slice(), &d.output.names)
        }
    }

    /// Moves the cursor by lines and bytes, staying in the document.
    pub fn move_cursor(&mut self, dline: i64, dcol: i64)
        requires
            old(self).wf(),
        ensures
            final(self).wf(),
            final(self).doc == old(self).doc,
            final(self).search == old(self).search,
            final(self).csv_table == old(self).csv_table,
            match old(self).doc {
                Some(d) => {
                    let (line, col) = cursor_at(d.output.line_starts@, old(self).last_click);
                    let to = offset_near(*d, line + dline, col + dcol);
                    final(self).last_click == Some(to as u32) && 0 <= to <= d.bytes@.len()
                },
                None => final(self).last_click == old(self).last_click,
            },
    {
        let (line, col): (i64, i64) = match &self.doc {
            Some(d) => match self.last_click {
                Some(off) => {
                    proof {
                        lemma_starts_nondecreasing(d.output.line_starts@, d.bytes@.len() as int);
                    }
                    let line = line_for_offset(off, d.output.line_starts.as_slice());
                    proof {
                        lemma_line_count(&**d);
                    }
                    (line as i64, off as i64 - d.output.line_starts[line] as i64)
                },
                None => (0, 0),
            },
            None => {
                return;
            },
        };
        self.move_cursor_to(moved_by(line, dline), moved_by(col, dcol));
    }

    /// Moves the cursor to the start of its line.
    pub fn move_cursor_bol(&mut self)
        requires
            old(self).wf(),
        ensures
            final(self).wf(),
            final(self).doc == old(self).doc,
            final(self).search == old(self).search,
            final(self).csv_table == old(self).csv_table,
            match old(self).doc {
                Some(d) => {
                    let starts = d.output.line_starts@;
                    final(self).last_click == Some(starts[cursor_at(starts, old(self).last_click).0])
                },
                None => final(self).last_click == old(self).last_click,
            },
    {
        if let Some(d) = &self.doc {
            proof {
                lemma_starts_nondecreasing(d.output.line_starts@, d.bytes@.len() as int);
                lemma_line_zero(&**d);
            }
            let off: u32 = match self.last_click {
                Some(off) => off,
                None => 0,
            };
            let line = line_for_offset(off, d.output.line_starts.as_slice());
            self.last_click = Some(d.output.line_starts[line]);
        }
    }

    /// Moves the cursor to the end of its line's text.
    pub fn move_cursor_eol(&mut self)
        requires
            old(self).wf(),
        ensures
            final(self).wf(),
            final(self).doc == old(self).doc,
            final(self).search == old(self).search,
            final(self).csv_table == old(self).csv_table,
            match old(self).doc {
                Some(d) => {
                    let starts = d.output.line_starts@;
                    let line = cursor_at(starts, old(self).last_click).0;
                    let to = starts[line] + line_text(d.bytes@, starts, line).len();
                    final(self).last_click == Some(to as u32) && to <= d.bytes@.len()
                },
                None => final(self).last_click == old(self).last_click,
            },
    {
        if let Some(d) = &self.doc {
            proof {
                lemma_starts_nondecreasing(d.output.line_starts@, d.bytes@.len() as int);
                lemma_line_zero(&**d);
            }
            let off: u32 = match self.last_click {
                Some(off) => off,
                None => 0,
            };
            let line = line_for_offset(off, d.output.line_starts.as_slice());
            proof {
                lemma_line_text(&**d, line as int);
            }
            self.last_click = Some(d.output.line_starts[line] + d.line_bytes(line).len() as u32);
        }
    }

    /// Moves the cursor to the position nearest to `line` and `col`.
    pub fn move_cursor_to(&mut self, line: i64, col: i64)
        requires
            old(self).wf(),
        ensures
            final(self).wf(),
            final(self).doc == old(self).doc,
            final(self).search == old(self).search,
            final(self).csv_table == old(self).csv_table,
            match old(self).doc {
                Some(d) => {
                    let to = offset_near(*d, line as int, col as int);
                    final(self).last_click == Some(to as u32) && 0 <= to <= d.bytes@.len()
                },
                None => final(self).last_click == old(self).last_click,
            },
    {
        if let Some(d) = &self.doc {
            let n: usize = d.line_count();
            proof {
                lemma_line_count(&**d);
            }
            let l: usize = if line < 0 {
                0
            } else if line as u64 > (n - 1) as u64 {
                n - 1
            } else {
                line as usize
            };
            proof {
                lemma_line_text(&**d, l as int);
            }
            let text_len: usize = d.line_bytes(l).len();
            let c: usize = if col < 0 {
                0
            } else if col as u64 > text_len as u64 {
                text_len
            } else {
                col as usize
            };
            self.last_click = Some(d.output.line_starts[l] + c as u32);
        }
    }

    /// Performs the cursor movement a key asks for; other actions are the
    /// host's.
    pub fn apply_key(&mut self, action: KeyAction)
        requires
            old(self).wf(),
        ensures
            final(self).wf(),
            final(self).doc == old(self).doc,
            final(self).search == old(self).search,
            final(self).csv_table == old(self).csv_table,
            final(self).last_click == match old(self).doc {
                Some(d) => {
                    let starts = d.output.line_starts@;
                    let (line, col) = cursor_at(starts, old(self).last_click);
                    match action {
                        KeyAction::Move { dline, dcol } => Some(offset_near(*d, line + dline, col + dcol) as u32),
                        KeyAction::LineStart => Some(starts[line]),
                        KeyAction::LineEnd => Some((starts[line] + line_text(d.bytes@, starts, line).len()) as u32),
                        KeyAction::Top => Some(offset_near(*d, 0, 0) as u32),
                        KeyAction::Bottom => Some(offset_near(*d, starts.len() - 1, 0) as u32),
                        _ => old(self).last_click,
                    }
                },
                None => old(self).last_click,
            },
    {
        match action {
            KeyAction::Move { dline, dcol } => self.move_cursor(dline, dcol),
            KeyAction::LineStart => self.move_cursor_bol(),
            KeyAction::LineEnd => self.move_cursor_eol(),
            KeyAction::Top => self.move_cursor_to(0, 0),
            KeyAction::Bottom => {
                let last: Option<usize> = match &self.doc {
                    Some(d) => {
                        proof {
                            lemma_line_count(&**d);
                        }
                        Some(d.line_count() - 1)
                    },
                    None => None,
                };
                if let Some(last) = last {
                    self.move_cursor_to(last as i64, 0);
                }
            },
            _ => {},
        }
    }

    /// Byte offset for a click on `line` at character column `col`.
    pub fn point_to_byte_offset(&self, line: usize, col: u32) -> (r: Option<u32>)
        requires
            self.wf(),
        ensures
            match self.doc {
                Some(d) => match offset_under(*d, self.csv_table, line as int, col as int) {
                    Some(off) => r == Some(off as u32) && 0 <= off <= u32::MAX,
                    None => r is None,
                },
                None => r is None,
            },
    {
        let d = match &self.doc {
            Some(d) => d,
            None => {
                return None;
            },
        };
        if line >= d.line_count() {
            return None;
        }
        let start = d.output.line_starts[line];
        match active_csv_meta(d, self.csv_table) {
            Some(meta) => {
                let cells = cells_on_line(d, line);
                match byte_of_visual_col(meta, cells.as_slice(), d.bytes.as_slice(), col) {
                    Some(b) => Some(b),
                    None => Some(start),
                }
            },
            None => {
                let text = d.line_bytes(line);
                let chars = chars_of_line(text);
                proof {
                    lemma_line_text(&**d, line as int);
                    lemma_shown_bytes(text@, clip_col(chars@, col as int));
                }
                Some(start + bytes_before(chars.as_slice(), col as usize) as u32)
            },
        }
    }

    /// Line that the last click is on, for the row highlight.
    pub fn clicked_line(&self) -> (r: Option<usize>)
        requires
            self.wf(),
        ensures
            match (self.doc, self.last_click) {
                (Some(d), Some(off)) => r == Some(line_of(d.output.line_starts@, off as int) as usize),
                _ => r is None,
            },
    {
        match (&self.doc, self.last_click) {
            (Some(d), Some(off)) => {
                proof {
                    lemma_starts_nondecreasing(d.output.line_starts@, d.bytes@.len() as int);
                }
                Some(line_for_offset(off, d.output.line_starts.as_slice()))
            },
            _ => None,
        }
    }

    /// Bands to draw behind the search matches on `line`, within the
    /// visible columns.
    pub fn match_bands(&self, line: usize, vis_start: u32, vis_end: u32) -> (r: Vec<MatchBand>)
        requires
            self.wf(),
            vis_start <= vis_end,
        ensures
            r@ == match self.doc {
                Some(d) => if line < d.output.line_starts@.len() {
                    bands_on(*d, self.csv_table, self.search, line as int, vis_start as int, vis_end as int)
                } else {
                    Seq::empty()
                },
                None => Seq::empty(),
            },
    {
        let d = match &self.doc {
            Some(d) => d,
            None => {
                return Vec::new();
            },
        };
        if line >= d.line_count() {
            return Vec::new();
        }
        match active_csv_meta(d, self.csv_table) {
            Some(meta) => table_match_bands(d, meta, &self.search, line),
            None => plain_match_bands(d, &self.search, line, vis_start, vis_end),
        }
    }

    /// What to draw on `line` within the visible columns: `None` when
    /// there is nothing.
    pub fn drawn_line(&self, line: usize, vis_start: u32, vis_end: u32) -> (r: Option<DrawnLine>)
        requires
            self.wf(),
            vis_start <= vis_end,
            self.doc matches Some(d) ==> countable(*d),
        ensures
            match self.doc {
                Some(d) if line < d.output.line_starts@.len() => match d.output.csv {
                    Some(meta) if self.csv_table => {
                        let row = row_from(
                            meta.col_widths@,
                            line_cells(*d, line as int),
                            d.bytes@,
                            line == 0,
                            vis_start as int,
                            vis_end as int,
                            0,
                            empty_row(),
                        );
                        if row.text.len() == 0 {
                            r is None
                        } else {
                            r matches Some(x) && x.text@ == row.text && x.spans@ == row.spans && x.col
                                == match row.base {
                                Some(b) => b,
                                None => 0,
                            }
                        }
                    },
                    _ => if line_chars(line_text(d.bytes@, d.output.line_starts@, line as int)).len() == 0 {
                        r is None
                    } else {
                        r matches Some(x) && x.col == vis_start && (x.text@, x.spans@) == drawn_plain(
                            *d,
                            line as int,
                            vis_start as int,
                            vis_end as int,
                        )
                    },
                },
                _ => r is None,
            },
    {
        let d = match &self.doc {
            Some(d) => d,
            None => {
                return None;
            },
        };
        if line >= d.line_count() {
            return None;
        }
        match active_csv_meta(d, self.csv_table) {
            Some(meta) => {
                let cells = cells_on_line(d, line);
                let row = render_row(
                    meta,
                    cells.as_slice(),
                    d.bytes.as_slice(),
                    line == 0,
                    vis_start,
                    vis_end,
                );
                if row.text.as_str().is_empty() {
                    None
                } else {
                    Some(DrawnLine { col: row.origin_chars, text: row.text, spans: row.spans })
                }
            },
            None => drawn_plain_line(d, line, vis_start, vis_end),
        }
    }
}

/// A document has at most as many lines as `u32` can count.
proof fn lemma_line_count(doc: &Document)
    requires
        doc.wf(),
    ensures
        doc.output.line_starts@.len() <= u32::MAX,
{
    let starts = doc.output.line_starts@;
    lemma_index_below(starts, starts.len() - 1);
    assert(starts[starts.len() - 1] <= doc.bytes@.len());
}

/// In a strictly growing list the element at `i` is at least `i`.
proof fn lemma_index_below(starts: Seq<u32>, i: int)
    requires
        0 <= i < starts.len(),
        forall|a: int, b: int| 0 <= a < b < starts.len() ==> (#[trigger] starts[a]) < (#[trigger] starts[b]),
    ensures
        i <= starts[i],
    decreases i,
{
    if i > 0 {
        lemma_index_below(starts, i - 1);
        assert(starts[i - 1] < starts[i]);
    }
}

/// Offset zero is on the first line.
proof fn lemma_line_zero(doc: &Document)
    requires
        doc.wf(),
    ensures
        line_of(doc.output.line_starts@, 0) == 0,
{
    let starts = doc.output.line_starts@;
    assert forall|k: int| 1 <= k < starts.len() implies (#[trigger] starts[k]) > 0 by {
        assert(starts[0] < starts[k]);
    }
    crate::sorted::lemma_count_at_most(starts, 0, 1);
}

/// The visible bytes of a line do not pass its end.
proof fn lemma_shown_bytes(line: Seq<u8>, k: int)
    requires
        0 <= k <= line_chars(line).len(),
    ensures
        prefix_bytes(line_chars(line), k) <= line.len(),
        prefix_bytes(line_chars(line), line_chars(line).len() as int) <= line.len(),
{
    lemma_line_chars(line);
    lemma_prefix_bytes(line_chars(line), k, line_chars(line).len() as int);
}

/// Table layout to apply when drawing or mapping `doc`, if any: present
/// only for CSV documents with table mode on.
fn active_csv_meta(doc: &Document, table_on: bool) -> (r: Option<&CsvMeta>)
    ensures
        match doc.output.csv {
            Some(meta) if table_on => r == Some(&meta),
            _ => r is None,
        },
{
    if table_on {
        doc.output.csv.as_ref()
    } else {
        None
    }
}

/// The cell or data row of a table that a click at `offset` lands in.
fn landed_entry(doc: &Document, offset: u32) -> (r: Option<u32>)
    requires
        doc.wf(),
    ensures
        match cell_or_row_at(*doc, offset as int) {
            Some(i) => r == Some(i as u32) && 0 <= i < doc.output.paths.entries@.len(),
            None => r is None,
        },
{
    match doc.output.paths.lookup(offset) {
        Some(i) => {
            let entry = doc.output.paths.entries[i as usize];
            match entry.segment {
                PathSegment::Root => None,
                _ => if entry.start <= offset && offset < entry.end {
                    Some(i)
                } else {
                    None
                },
            }
        },
        None => None,
    }
}

/// The line of a table that a click at `offset` is on.
fn clicked_record(doc: &Document, offset: u32) -> (r: usize)
    requires
        doc.wf(),
    ensures
        r == line_of(doc.output.line_starts@, offset as int),
        r < doc.output.line_starts@.len(),
{
    proof {
        lemma_starts_nondecreasing(doc.output.line_starts@, doc.bytes@.len() as int);
        lemma_line_count(doc);
    }
    line_for_offset(offset, doc.output.line_starts.as_slice())
}

fn cells_on_line(doc: &Document, line: usize) -> (r: Vec<(u32, u32)>)
    requires
        doc.wf(),
        doc.output.csv is Some,
        line < doc.output.line_starts@.len(),
    ensures
        r@ == line_cells(*doc, line as int),
        cells_ok(r@, doc.bytes@),
{
    let starts = &doc.output.line_starts;
    let n: usize = starts.len();
    let next: u32 = if line + 1 < n {
        starts[line + 1]
    } else {
        u32::MAX
    };
    proof {
        lemma_cells_between_ok(
            doc.output.paths.entries@,
            doc.bytes@,
            starts@[line as int] as int,
            next as int,
        );
    }
    record_cells(doc.output.paths.entries.as_slice(), starts[line], next)
}

/// Match starts never decrease.
proof fn lemma_matches_nondecreasing(search: &SearchState)
    requires
        search.wf(),
    ensures
        nondecreasing(search.matches@),
{
    assert forall|i: int, j: int| 0 <= i <= j < search.matches@.len() implies (#[trigger] search.matches@[i]) <= (
    #[trigger] search.matches@[j]) by {
        if i < j {
            assert(search.matches@[i] + search.match_len <= search.matches@[j]);
        }
    }
}

fn table_match_bands(d: &Document, meta: &CsvMeta, search: &SearchState, line: usize) -> (r: Vec<MatchBand>)
    requires
        d.wf(),
        d.output.csv == Some(*meta),
        search.wf(),
        line < d.output.line_starts@.len(),
    ensures
        r@ == bands_on(*d, true, *search, line as int, 0, 0),
{
    let cells = cells_on_line(d, line);
    let bytes = d.bytes.as_slice();
    let l_start = d.output.line_starts[line];
    proof {
        lemma_line_text(d, line as int);
        lemma_matches_nondecreasing(search);
    }
    let l_end: u32 = l_start + d.line_bytes(line).len() as u32;
    let lo = count_le(search.matches.as_slice(), l_start as i64 - search.match_len as i64);
    let hi = count_le(search.matches.as_slice(), l_end as i64 - 1);
    let mut out: Vec<MatchBand> = Vec::new();
    let mut idx: usize = lo;
    let ghost goal = table_bands(*d, *meta, *search, line as int, lo as int, hi as int);
    proof {
        assert(out@ + goal =~= goal);
    }
    while idx < hi
        invariant
            d.wf(),
            d.output.csv == Some(*meta),
            search.wf(),
            line < d.output.line_starts@.len(),
            hi <= search.matches@.len(),
            lo <= idx,
            cells@ == line_cells(*d, line as int),
            cells_ok(cells@, d.bytes@),
            bytes@ == d.bytes@,
            l_start == d.output.line_starts@[line as int],
            l_end == l_start + line_text(d.bytes@, d.output.line_starts@, line as int).len(),
            goal == out@ + table_bands(*d, *meta, *search, line as int, idx as int, hi as int),
        decreases hi - idx,
    {
        let m = search.matches[idx];
        proof {
            assert(search.matches@[idx as int] + search.match_len <= u32::MAX);
        }
        let from: u32 = if m > l_start {
            m
        } else {
            l_start
        };
        let to: u32 = if m + search.match_len < l_end {
            m + search.match_len
        } else {
            l_end
        };
        let ca = visual_col_of_byte(meta, cells.as_slice(), bytes, from);
        let cb = visual_col_of_byte(meta, cells.as_slice(), bytes, to);
        let ghost before = out@;
        if cb > ca {
            out.push(MatchBand { col_start: ca, col_end: cb, current: idx == search.current });
        }
        proof {
            let rest = table_bands(*d, *meta, *search, line as int, idx + 1, hi as int);
            if let Some(band) = table_band(*d, *meta, *search, line as int, idx as int) {
                assert(before + (seq![band] + rest) =~= out@ + rest);
            }
        }
        idx += 1;
    }
    proof {
        assert(out@ + Seq::<MatchBand>::empty() =~= out@);
    }
    out
}

fn plain_match_bands(d: &Document, search: &SearchState, line: usize, vis_start: u32, vis_end: u32) -> (r: Vec<
    MatchBand,
>)
    requires
        d.wf(),
        search.wf(),
        line < d.output.line_starts@.len(),
        vis_start <= vis_end,
    ensures
        r@ == bands_on(*d, false, *search, line as int, vis_start as int, vis_end as int),
{
    let l_start = d.output.line_starts[line];
    let text = d.line_bytes(line);
    let chars = chars_of_line(text);
    proof {
        lemma_line_text(d, line as int);
        lemma_matches_nondecreasing(search);
        lemma_shown_bytes(text@, clip_col(chars@, vis_start as int));
        lemma_shown_bytes(text@, clip_col(chars@, vis_end as int));
    }
    let (from, shown) = char_range_to_byte_range(chars.as_slice(), vis_start as usize, vis_end as usize);
    let lo = count_le(search.matches.as_slice(), l_start as i64 + from as i64 - search.match_len as i64);
    let hi = count_le(search.matches.as_slice(), l_start as i64 + shown as i64 - 1);
    let head = slice_subrange(text, 0, shown);
    assert(head@ =~= text@.take(shown as int));
    let l_end: u32 = l_start + text.len() as u32;
    let mut out: Vec<MatchBand> = Vec::new();
    let mut idx: usize = lo;
    while idx < hi
        invariant
            d.wf(),
            search.wf(),
            line < d.output.line_starts@.len(),
            hi <= search.matches@.len(),
            lo <= idx,
            lo < hi ==> idx <= hi,
            lo >= hi ==> idx == lo,
            l_start == d.output.line_starts@[line as int],
            text@ == line_text(d.bytes@, d.output.line_starts@, line as int),
            l_end == l_start + text@.len(),
            l_end <= d.bytes@.len(),
            shown <= text@.len(),
            head@ == text@.take(shown as int),
            forall|k: int| 0 <= k < hi ==> (#[trigger] search.matches@[k]) <= l_start + shown - 1,
            forall|k: int|
                lo <= k < search.matches@.len() ==> (#[trigger] search.matches@[k]) > l_start + from
                    - search.match_len,
            out@.len() == idx - lo,
            forall|k: int|
                0 <= k < out@.len() ==> #[trigger] out@[k] == plain_band(
                    *d,
                    *search,
                    line as int,
                    shown as int,
                    lo + k,
                ),
        decreases hi - idx,
    {
        let m = search.matches[idx];
        proof {
            assert(search.matches@[idx as int] + search.match_len <= u32::MAX);
            assert(search.matches@[idx as int] <= l_start + shown - 1);
            assert(search.matches@[idx as int] > l_start + from - search.match_len);
        }
        let a: u32 = if m > l_start {
            m - l_start
        } else {
            0
        };
        let b: u32 = if m + search.match_len < l_end {
            m + search.match_len - l_start
        } else {
            l_end - l_start
        };
        out.push(
            MatchBand {
                col_start: byte_offset_to_char_col(head, a),
                col_end: byte_offset_to_char_col(head, b),
                current: idx == search.current,
            },
        );
        idx += 1;
    }
    proof {
        assert(out@ =~= bands_on(*d, false, *search, line as int, vis_start as int, vis_end as int));
    }
    out
}

/// Leading spans that end at or before `x`, and those that start at or
/// before it.
fn count_spans(styles: &[StyleSpan], x: i64, by_end: bool) -> (n: usize)
    requires
        crate::format::nesting::styles_ordered(styles@),
    ensures
        n == count_at_most(
            if by_end {
                span_ends(styles@)
            } else {
                span_starts(styles@)
            },
            x as int,
        ),
        n <= styles@.len(),
{
    let ghost keys = if by_end {
        span_ends(styles@)
    } else {
        span_starts(styles@)
    };
    let mut lo: usize = 0;
    let mut hi: usize = styles.len();
    while lo < hi
        invariant
            lo <= hi <= styles@.len(),
            crate::format::nesting::styles_ordered(styles@),
            keys == (if by_end {
                span_ends(styles@)
            } else {
                span_starts(styles@)
            }),
            forall|k: int| 0 <= k < lo ==> (#[trigger] keys[k]) <= x,
            forall|k: int| hi <= k < styles@.len() ==> (#[trigger] keys[k]) > x,
        decreases hi - lo,
    {
        let mid: usize = lo + (hi - lo) / 2;
        let key: u32 = if by_end {
            styles[mid].end
        } else {
            styles[mid].start
        };
        proof {
            assert forall|k: int| 0 <= k < styles@.len() && k != mid implies (k < mid ==> #[trigger] keys[k] <= key)
                && (k > mid ==> keys[k] >= key) by {
                if k < mid {
                    assert(styles@[k].end <= styles@[mid as int].start);
                    assert(styles@[k].start <= styles@[k].end);
                    assert(styles@[mid as int].start <= styles@[mid as int].end);
                } else {
                    assert(styles@[mid as int].end <= styles@[k].start);
                    assert(styles@[k].start <= styles@[k].end);
                    assert(styles@[mid as int].start <= styles@[mid as int].end);
                }
            }
        }
        if key as i64 <= x {
            lo = mid + 1;
        } else {
            hi = mid;
        }
    }
    proof {
        crate::sorted::lemma_count_at_most(keys, x as int, lo as int);
    }
    lo
}

fn drawn_plain_line(d: &Document, line: usize, vis_start: u32, vis_end: u32) -> (r: Option<DrawnLine>)
    requires
        d.wf(),
        countable(*d),
        line < d.output.line_starts@.len(),
        vis_start <= vis_end,
    ensures
        if line_chars(line_text(d.bytes@, d.output.line_starts@, line as int)).len() == 0 {
            r is None
        } else {
            r matches Some(x) && x.col == vis_start && (x.text@, x.spans@) == drawn_plain(
                *d,
                line as int,
                vis_start as int,
                vis_end as int,
            )
        },
{
    let l_start = d.output.line_starts[line];
    let line_text_bytes = d.line_bytes(line);
    let chars = chars_of_line(line_text_bytes);
    if chars.len() == 0 {
        return None;
    }
    let ghost t = chars@;
    let a: usize = if (vis_start as usize) < chars.len() {
        vis_start as usize
    } else {
        chars.len()
    };
    let b: usize = if (vis_end as usize) < chars.len() {
        vis_end as usize
    } else {
        chars.len()
    };
    proof {
        lemma_line_text(d, line as int);
        lemma_shown_bytes(line_text_bytes@, a as int);
        lemma_shown_bytes(line_text_bytes@, b as int);
        lemma_prefix_bytes(t, a as int, b as int);
    }
    let (from, to) = char_range_to_byte_range(chars.as_slice(), vis_start as usize, vis_end as usize);
    let shown = slice_subrange(chars.as_slice(), a, b);
    proof {
        lemma_subrange_bytes(t, a as int, b as int);
    }
    let text = if d.output.csv.is_some() {
        let mut drawn: Vec<char> = Vec::new();
        let mut k: usize = 0;
        while k < shown.len()
            invariant
                k <= shown@.len(),
                drawn@ == glyphs(shown@.take(k as int)),
            decreases shown@.len() - k,
        {
            drawn.push(display_char(shown[k]));
            k += 1;
            assert(drawn@ =~= glyphs(shown@.take(k as int)));
        }
        assert(shown@.take(shown@.len() as int) =~= shown@);
        let whole = string_of(drawn.as_slice(), 0, drawn.len());
        assert(whole@ =~= drawn@);
        whole
    } else {
        string_of(chars.as_slice(), a, b)
    };
    let abs_from: u32 = l_start + from as u32;
    let abs_to: u32 = l_start + to as u32;
    let styles = d.output.styles.as_slice();
    let lo = count_spans(styles, abs_from as i64, true);
    let hi = count_spans(styles, abs_to as i64 - 1, false);
    let touching = if lo < hi {
        slice_subrange(styles, lo, hi)
    } else {
        slice_subrange(styles, 0, 0)
    };
    proof {
        assert(touching@ =~= styles_touching(styles@, abs_from as int, abs_to as int));
    }
    let spans = utf16_spans(shown, abs_from, touching);
    Some(DrawnLine { col: vis_start, text, spans })
}

/// The bytes of a part of a text are those between its ends.
proof fn lemma_subrange_bytes(t: Seq<char>, a: int, b: int)
    requires
        0 <= a <= b <= t.len(),
    ensures
        prefix_bytes(t.subrange(a, b), b - a) == prefix_bytes(t, b) - prefix_bytes(t, a),
    decreases b - a,
{
    if a < b {
        lemma_subrange_bytes(t, a, b - 1);
        let whole = t.subrange(a, b);
        let part = t.subrange(a, b - 1);
        lemma_prefix_same(whole, part, b - 1 - a);
        assert(whole[b - 1 - a] == t[b - 1]);
    }
}

proof fn lemma_prefix_same(x: Seq<char>, y: Seq<char>, k: int)
    requires
        0 <= k <= x.len(),
        k <= y.len(),
        forall|i: int| 0 <= i < k ==> #[trigger] x[i] == y[i],
    ensures
        prefix_bytes(x, k) == prefix_bytes(y, k),
    decreases k,
{
    if k > 0 {
        lemma_prefix_same(x, y, k - 1);
        assert(x[k - 1] == y[k - 1]);
    }
}

} // verus!
