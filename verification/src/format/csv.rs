//! CSV/TSV tokenizer, xsv-style path formatter and table layout.
//!
//! CSV renders as an aligned table computed at *draw* time: the parser
//! records per-column content widths (capped at `MAX_COL_CHARS`) and
//! per-cell byte ranges, and the view lays each field out at its column
//! origin when painting. The raw bytes are never copied or padded, and
//! truncation past the column cap is visual only.
//!
//! One record per display line: `line_starts` holds *record* starts, so
//! a quoted field with an embedded newline does not split its row.
//!
//! The first record is the header row. Duplicate or empty header names
//! fall back to 1-based positional selectors.

use vstd::prelude::*;
use vstd::slice::slice_subrange;

use crate::ascii::{CR, DOT, LF, LOWER_E, MINUS, PLUS, QUOTE, UPPER_E};
use crate::bytes::{bom_len, is_digit_byte, push_bytes, skip_digits_from, trim_bytes, trimmed};
use crate::format::cursor::byte_at;
use crate::format::{
    entry_text, intern_id, progress_due, slice_of_entry, starts_sorted, NameInterner, ParseOutput, PathEntry,
    PathIndex, PathSegment, ProgressSink, ScanState, StyleKind, PROGRESS_GRANULARITY, ROOT_PARENT,
};
use crate::format::json::{is_ident, is_identifier};
use crate::format::csv_laws::{
    law_csv_entry_count, law_csv_indexes, lemma_fields_grow, lemma_record_grow, lemma_records_grow,
};
use crate::format::nesting::segment_named;
use crate::sorted::{count_at_most, lemma_count_at_most};
use crate::text::{
    decimal, decimal_bytes, lemma_utf16_len_bound, lemma_utf16_len_concat, lemma_utf16_len_push, len_utf16, shown_text,
    push_decimal, push_decimal_bytes, push_text, utf16_len, utf8_lossy,
};
use vstd::string::StrSliceExecFns;

verus! {

/// Widest a column may render, in characters. Longer fields draw
/// `MAX_COL_CHARS - 1` chars plus an ellipsis; the bytes underneath are
/// intact.
pub const MAX_COL_CHARS: u32 = 64;

/// Blank chars between columns.
pub const GUTTER_CHARS: u32 = 2;

/// With at most this many columns every table width fits in a `u32`.
pub const MAX_COLUMNS: u32 = 65_075_262;

/// Table layout computed by the parser: per-column display widths and
/// the char offset each column starts at. Everything is in character
/// columns.
#[derive(Debug)]
pub struct CsvMeta {
    /// Per-column display width in chars: max content width, capped.
    pub col_widths: Vec<u32>,
    /// Char column each column starts at (prefix sums incl. gutters).
    pub col_origins: Vec<u32>,
    /// Total table width in chars.
    pub table_width: u32,
}

/// Char column at which column `i` starts: the widths before it, each
/// with its gutter.
pub open spec fn origin_of(widths: Seq<u32>, i: int) -> int
    decreases i,
{
    if i <= 0 {
        0
    } else {
        origin_of(widths, i - 1) + widths[i - 1] + GUTTER_CHARS
    }
}

impl CsvMeta {
    /// One origin per width, each the sum of the widths and gutters
    /// before it, and the table as wide as its columns.
    pub open spec fn wf(&self) -> bool {
        let widths = self.col_widths@;
        &&& self.col_origins@.len() == widths.len()
        &&& forall|i: int| 0 <= i < widths.len() ==> 1 <= #[trigger] widths[i] <= MAX_COL_CHARS
        &&& forall|i: int| 0 <= i < widths.len() ==> #[trigger] self.col_origins@[i] == origin_of(widths, i)
        &&& origin_of(widths, widths.len() as int) <= u32::MAX
        &&& self.table_width == if widths.len() == 0 {
            0
        } else {
            origin_of(widths, widths.len() as int) - GUTTER_CHARS
        }
    }
}

// --- grammar --------------------------------------------------------

/// One past the quote that closes a quoted field whose contents start at
/// `i`; `""` stands for a quote. The end of the input when it is not
/// closed.
pub open spec fn quoted_field_end(s: Seq<u8>, i: int) -> int
    decreases (if i < s.len() { s.len() - i } else { 0 }),
{
    if i < 0 || i >= s.len() {
        s.len() as int
    } else if s[i] != QUOTE {
        quoted_field_end(s, i + 1)
    } else if byte_at(s, i + 1) == Some(QUOTE) {
        quoted_field_end(s, i + 2)
    } else {
        i + 1
    }
}

/// First delimiter or line feed at or after `i`, or the end of the
/// input.
pub open spec fn terminator_from(s: Seq<u8>, i: int, delimiter: u8) -> int
    decreases s.len() - i,
{
    if 0 <= i < s.len() && s[i] != delimiter && s[i] != LF {
        terminator_from(s, i + 1, delimiter)
    } else {
        i
    }
}

/// Position of what ends the field that starts at `i`.
pub open spec fn field_stop(s: Seq<u8>, i: int, delimiter: u8) -> int {
    if byte_at(s, i) == Some(QUOTE) {
        terminator_from(s, quoted_field_end(s, i + 1), delimiter)
    } else {
        terminator_from(s, i, delimiter)
    }
}

/// End of the field that starts at `i`: its terminator, without a
/// carriage return before a line feed or the end of the input.
pub open spec fn field_end(s: Seq<u8>, i: int, delimiter: u8) -> int {
    let stop = field_stop(s, i, delimiter);
    if byte_at(s, stop) != Some(delimiter) && stop > i && s[stop - 1] == CR {
        stop - 1
    } else {
        stop
    }
}

/// A byte that starts a character: not a UTF-8 continuation byte.
pub open spec fn starts_char(b: u8) -> bool {
    !(0x80 <= b < 0xc0)
}

/// Number of characters drawn for `s`: one per byte that is not a UTF-8
/// continuation byte.
pub open spec fn chars_in(s: Seq<u8>) -> nat
    decreases s.len(),
{
    if s.len() == 0 {
        0
    } else {
        chars_in(s.drop_last()) + if starts_char(s.last()) {
            1nat
        } else {
            0nat
        }
    }
}

/// Contents of the quoted text `s` from `i` on, with each doubled quote
/// made single.
pub open spec fn unescape_quotes(s: Seq<u8>, i: int) -> Seq<u8>
    decreases (if i < s.len() { s.len() - i } else { 0 }),
{
    if i < 0 || i >= s.len() {
        Seq::empty()
    } else if s[i] == QUOTE && byte_at(s, i + 1) == Some(QUOTE) {
        seq![QUOTE] + unescape_quotes(s, i + 2)
    } else {
        seq![s[i]] + unescape_quotes(s, i + 1)
    }
}

/// The value of a field: quotes stripped and `""` collapsed when it is
/// quoted, the raw bytes otherwise.
pub open spec fn field_value(raw: Seq<u8>) -> Seq<u8> {
    if raw.len() >= 2 && raw[0] == QUOTE && raw.last() == QUOTE {
        unescape_quotes(raw.subrange(1, raw.len() - 1), 0)
    } else {
        raw
    }
}

/// What the parser has built: the indexes, the record starts, and per
/// column the id of its selector and its widest content in chars.
pub struct CsvState {
    pub st: ScanState,
    pub lines: Seq<u32>,
    pub keys: Seq<u32>,
    pub chars: Seq<u32>,
}

impl CsvState {
    pub open spec fn at(self, pos: int) -> CsvState {
        CsvState { st: self.st.at(pos), ..self }
    }
}

/// The name that selects header column `col`: its own unless that is
/// empty or already selects an earlier column, else its 1-based number.
pub open spec fn header_name(c: CsvState, col: int, value: Seq<u8>) -> Seq<u8> {
    if value.len() == 0 || c.keys.contains(intern_id(c.st.names, value) as u32) {
        decimal_bytes((col + 1) as nat)
    } else {
        value
    }
}

/// The widest content per column after a field of `n` chars in `col`.
pub open spec fn widened(chars: Seq<u32>, col: int, n: nat) -> Seq<u32> {
    if col >= chars.len() {
        chars.push(n as u32)
    } else if n > chars[col] {
        chars.update(col, n as u32)
    } else {
        chars
    }
}

/// Records the field `s[a..e]` of column `col`: in the header row it
/// names the column, in a data row it is a cell of row entry `row`.
pub open spec fn noted(s: Seq<u8>, c: CsvState, header: bool, row: u32, col: int, a: int, e: int) -> CsvState {
    let raw = s.subrange(a, e);
    let chars = widened(c.chars, col, chars_in(raw));
    if header {
        let name = header_name(c, col, field_value(raw));
        let id = intern_id(c.st.names, name) as u32;
        CsvState {
            st: c.st.with_name(name).spanned(a, e, 0, PathSegment::Key(id)),
            keys: c.keys.push(id),
            chars,
            ..c
        }
    } else if col >= c.keys.len() {
        let name = decimal_bytes((col + 1) as nat);
        let id = intern_id(c.st.names, name) as u32;
        CsvState {
            st: c.st.with_name(name).spanned(a, e, row, PathSegment::Key(id)),
            keys: c.keys.push(id),
            chars,
            ..c
        }
    } else {
        CsvState { st: c.st.spanned(a, e, row, PathSegment::Key(c.keys[col])), chars, ..c }
    }
}

/// The fields of a record from `c.st.pos` on, the first in column `col`;
/// also the end of the last one.
pub open spec fn csv_fields(s: Seq<u8>, delimiter: u8, c: CsvState, header: bool, row: u32, col: int) -> (CsvState, int)
    decreases s.len() - c.st.pos,
{
    proof {
        if 0 <= c.st.pos <= s.len() {
            lemma_field_stop(s, c.st.pos, delimiter);
        }
    }
    let a = c.st.pos;
    let stop = field_stop(s, a, delimiter);
    let e = field_end(s, a, delimiter);
    let after = noted(s, c, header, row, col, a, e);
    if a < 0 || stop >= s.len() {
        (after.at(stop), e)
    } else if s[stop] == delimiter {
        csv_fields(s, delimiter, after.at(stop + 1), header, row, col + 1)
    } else {
        (CsvState { lines: c.lines.push((stop + 1) as u32), ..after.at(stop + 1) }, e)
    }
}

/// Record number `record`. Data rows get an entry of their own, the
/// parent of their cells; header cells stand directly under the root.
pub open spec fn csv_record(s: Seq<u8>, delimiter: u8, c: CsvState, record: int) -> CsvState {
    if record <= 0 {
        csv_fields(s, delimiter, c, true, 0, 0).0
    } else {
        let start = c.st.pos;
        let row = c.st.paths.len() as int;
        let opened = CsvState { st: c.st.opened(start, 0, PathSegment::Index((record - 1) as u32)), ..c };
        let (after, end) = csv_fields(s, delimiter, opened, false, row as u32, 0);
        CsvState { st: after.st.closed_at(row, end), ..after }
    }
}

pub open spec fn csv_records(s: Seq<u8>, delimiter: u8, c: CsvState, record: int) -> CsvState
    decreases s.len() - c.st.pos,
{
    if c.st.pos < 0 || c.st.pos >= s.len() {
        c
    } else {
        let next = csv_record(s, delimiter, c, record);
        if c.st.pos < next.st.pos <= s.len() {
            csv_records(s, delimiter, next, record + 1)
        } else {
            next
        }
    }
}

pub open spec fn csv_start(s: Seq<u8>) -> CsvState {
    CsvState {
        st: ScanState::empty().opened(0, ROOT_PARENT, PathSegment::Root).at(bom_len(s)),
        lines: seq![0u32],
        keys: Seq::empty(),
        chars: Seq::empty(),
    }
}

/// The whole document, under a root entry that spans the input.
pub open spec fn csv_document(s: Seq<u8>, delimiter: u8) -> CsvState {
    let c = csv_records(s, delimiter, csv_start(s), 0);
    CsvState { st: c.st.closed_at(0, s.len() as int), ..c }
}

/// Offsets and entry numbers of the document fit in `u32`.
pub open spec fn csv_fits(s: Seq<u8>, delimiter: u8) -> bool {
    s.len() < u32::MAX && csv_document(s, delimiter).st.paths.len() < ROOT_PARENT
}

/// Display width of a column whose widest content has `n` chars.
pub open spec fn col_width(n: u32) -> u32 {
    if n < 1 {
        1
    } else if n > MAX_COL_CHARS {
        MAX_COL_CHARS
    } else {
        n
    }
}

pub open spec fn col_widths_of(chars: Seq<u32>) -> Seq<u32> {
    Seq::new(chars.len(), |i: int| col_width(chars[i]))
}

pub proof fn lemma_quoted_field_end(s: Seq<u8>, i: int)
    requires
        0 <= i <= s.len(),
    ensures
        i <= quoted_field_end(s, i) <= s.len(),
    decreases s.len() - i,
{
    if i < s.len() {
        if s[i] != QUOTE {
            lemma_quoted_field_end(s, i + 1);
        } else if byte_at(s, i + 1) == Some(QUOTE) {
            lemma_quoted_field_end(s, i + 2);
        }
    }
}

pub proof fn lemma_terminator_from(s: Seq<u8>, i: int, delimiter: u8)
    requires
        0 <= i <= s.len(),
    ensures
        i <= terminator_from(s, i, delimiter) <= s.len(),
        forall|k: int| i <= k < terminator_from(s, i, delimiter) ==> #[trigger] s[k] != delimiter && s[k] != LF,
        terminator_from(s, i, delimiter) < s.len() ==> s[terminator_from(s, i, delimiter)] == delimiter
            || s[terminator_from(s, i, delimiter)] == LF,
    decreases s.len() - i,
{
    if i < s.len() && s[i] != delimiter && s[i] != LF {
        lemma_terminator_from(s, i + 1, delimiter);
    }
}

pub proof fn lemma_field_stop(s: Seq<u8>, i: int, delimiter: u8)
    requires
        0 <= i <= s.len(),
    ensures
        i <= field_end(s, i, delimiter) <= field_stop(s, i, delimiter) <= s.len(),
        field_stop(s, i, delimiter) < s.len() ==> s[field_stop(s, i, delimiter)] == delimiter
            || s[field_stop(s, i, delimiter)] == LF,
{
    if byte_at(s, i) == Some(QUOTE) {
        lemma_quoted_field_end(s, i + 1);
        lemma_terminator_from(s, quoted_field_end(s, i + 1), delimiter);
    } else {
        lemma_terminator_from(s, i, delimiter);
    }
}

pub proof fn lemma_chars_in_bound(s: Seq<u8>)
    ensures
        chars_in(s) <= s.len(),
    decreases s.len(),
{
    if s.len() > 0 {
        lemma_chars_in_bound(s.drop_last());
    }
}

// --- parser ---------------------------------------------------------

/// Position of what ends the field that starts at `i`. Quoted fields
/// may contain delimiters and newlines; an unterminated quote runs to the
/// end of the input.
fn scan_field(input: &[u8], i: usize, delimiter: u8) -> (r: usize)
    requires
        i <= input@.len(),
    ensures
        r == field_stop(input@, i as int, delimiter),
        i <= r <= input@.len(),
{
    let n: usize = input.len();
    let mut j: usize = i;
    if i < n && input[i] == QUOTE {
        j = i + 1;
        let mut open = true;
        while open && j < n
            invariant
                i < j <= n == input@.len(),
                open ==> quoted_field_end(input@, i + 1) == quoted_field_end(input@, j as int),
                !open ==> quoted_field_end(input@, i + 1) == j,
            decreases n - j + (if open { 1int } else { 0int }),
        {
            if input[j] != QUOTE {
                j += 1;
            } else if j + 1 < n && input[j + 1] == QUOTE {
                j += 2;
            } else {
                j += 1;
                open = false;
            }
        }
    }
    let ghost from = j as int;
    while j < n && input[j] != delimiter && input[j] != LF
        invariant
            i <= j <= n == input@.len(),
            terminator_from(input@, j as int, delimiter) == terminator_from(input@, from, delimiter),
        decreases n - j,
    {
        j += 1;
    }
    j
}

/// Unquotes a field: strips surrounding quotes and collapses `""`.
/// Unquoted fields copy through as they are.
fn decode_field(raw: &[u8], out: &mut Vec<u8>)
    ensures
        final(out)@ == field_value(raw@),
{
    out.clear();
    if raw.len() >= 2 && raw[0] == QUOTE && raw[raw.len() - 1] == QUOTE {
        let inner = slice_subrange(raw, 1, raw.len() - 1);
        let mut i: usize = 0;
        let ghost goal = unescape_quotes(inner@, 0);
        proof {
            assert(out@ + goal =~= goal);
        }
        while i < inner.len()
            invariant
                i <= inner@.len(),
                goal == out@ + unescape_quotes(inner@, i as int),
            decreases inner@.len() - i,
        {
            let ghost before = out@;
            let b = inner[i];
            out.push(b);
            if b == QUOTE && i + 1 < inner.len() && inner[i + 1] == QUOTE {
                i += 2;
            } else {
                i += 1;
            }
            proof {
                let rest = unescape_quotes(inner@, i as int);
                assert(before + (seq![b] + rest) =~= out@ + rest);
            }
        }
        proof {
            assert(out@ + Seq::<u8>::empty() =~= out@);
        }
    } else {
        push_bytes(out, raw);
        assert(out@ =~= raw@);
    }
}

/// Count characters the renderer will draw for `bytes`: one per
/// non-continuation byte.
pub fn char_count(bytes: &[u8]) -> (n: u32)
    requires
        bytes@.len() <= u32::MAX,
    ensures
        n == chars_in(bytes@),
{
    let mut n: u32 = 0;
    let mut i: usize = 0;
    proof {
        assert(bytes@.take(0) =~= Seq::<u8>::empty());
    }
    while i < bytes.len()
        invariant
            i <= bytes@.len() <= u32::MAX,
            n == chars_in(bytes@.take(i as int)),
            n <= i,
        decreases bytes@.len() - i,
    {
        proof {
            assert(bytes@.take(i + 1).drop_last() =~= bytes@.take(i as int));
        }
        if !(0x80 <= bytes[i] && bytes[i] < 0xc0) {
            n += 1;
        }
        i += 1;
    }
    proof {
        assert(bytes@.take(bytes@.len() as int) =~= bytes@);
    }
    n
}

struct Parser<'a> {
    input: &'a [u8],
    delimiter: u8,
    pos: usize,
    line_starts: Vec<u32>,
    paths: Vec<PathEntry>,
    names: NameInterner,
    /// Interned select-name id per column.
    col_keys: Vec<u32>,
    /// Max content chars seen per column (uncapped).
    col_chars: Vec<u32>,
    scratch: Vec<u8>,
    progress: Option<&'a ProgressSink>,
    next_progress_at: usize,
}

impl<'a> View for Parser<'a> {
    type V = CsvState;

    closed spec fn view(&self) -> CsvState {
        CsvState {
            st: ScanState {
                pos: self.pos as int,
                paths: self.paths@,
                styles: Seq::empty(),
                names: self.names@,
            },
            lines: self.line_starts@,
            keys: self.col_keys@,
            chars: self.col_chars@,
        }
    }
}

impl<'a> Parser<'a> {
    spec fn wf(&self) -> bool {
        &&& self.input@.len() < u32::MAX
        &&& self.pos <= self.input@.len()
        &&& self.names.wf()
        &&& self.names@.len() <= self.paths@.len()
        &&& self.col_keys@.len() == self.col_chars@.len()
        &&& self.col_keys@.len() <= self.pos + 1
        &&& forall|k: int| 0 <= k < self.col_keys@.len() ==> (#[trigger] self.col_keys@[k]) < self.names@.len()
    }

    spec fn keeps(&self, before: &Self) -> bool {
        &&& self.wf()
        &&& self.input@ == before.input@
        &&& self.delimiter == before.delimiter
    }

    /// Publishes the position to the sink, if there is one, and puts the
    /// next time off by a granule. Nothing else changes.
    fn flush_progress(&mut self)
        requires
            old(self).wf(),
        ensures
            final(self).keeps(old(self)),
            final(self)@ == old(self)@,
            *final(self) == (Parser { next_progress_at: progress_due(old(self).pos), ..*old(self) }),
    {
        if let Some(p) = self.progress {
            p.publish(self.pos as u64);
        }
        self.next_progress_at = if self.pos > usize::MAX - PROGRESS_GRANULARITY {
            usize::MAX
        } else {
            self.pos + PROGRESS_GRANULARITY
        };
    }

    /// Interns the 1-based number of column `col`.
    fn intern_position(&mut self, col: usize) -> (id: u32)
        requires
            old(self).names.wf(),
            old(self).names@.len() < u32::MAX,
            col < u32::MAX,
        ensures
            final(self).input == old(self).input,
            final(self).delimiter == old(self).delimiter,
            final(self).names.wf(),
            final(self)@ == (CsvState { st: old(self)@.st.with_name(decimal_bytes((col + 1) as nat)), ..old(self)@ }),
            id == intern_id(old(self)@.st.names, decimal_bytes((col + 1) as nat)),
    {
        self.scratch.clear();
        push_decimal_bytes(&mut self.scratch, col as u64 + 1);
        assert(self.scratch@ =~= decimal_bytes((col + 1) as nat));
        self.names.intern(self.scratch.as_slice())
    }

    fn note_field(&mut self, header: bool, row: u32, col: usize, start: usize, end: usize)
        requires
            old(self).wf(),
            start <= end <= old(self).input@.len(),
            col <= old(self).pos,
            header ==> col == old(self).col_keys@.len(),
            !header ==> col <= old(self).col_keys@.len(),
            old(self).paths@.len() + 1 < u32::MAX,
        ensures
            final(self).keeps(old(self)),
            final(self)@ == noted(old(self).input@, old(self)@, header, row, col as int, start as int, end as int),
    {
        let raw = slice_subrange(self.input, start, end);
        let chars = char_count(raw);
        proof {
            lemma_chars_in_bound(raw@);
        }
        if col >= self.col_chars.len() {
            self.col_chars.push(chars);
        } else if chars > self.col_chars[col] {
            self.col_chars[col] = chars;
        }
        let key: u32 = if header {
            decode_field(raw, &mut self.scratch);
            let ghost value = self.scratch@;
            let ghost before = self@;
            let mut fresh = self.scratch.len() > 0;
            let mut id: u32 = 0;
            if fresh {
                id = self.names.intern(self.scratch.as_slice());
                proof {
                    if before.keys.contains(id) {
                        let j = choose|j: int| 0 <= j < before.keys.len() && before.keys[j] == id;
                        assert(old(self).col_keys@[j] < old(self).names@.len());
                    }
                }
                let mut k: usize = 0;
                while k < self.col_keys.len()
                    invariant
                        k <= self.col_keys@.len(),
                        fresh == !self.col_keys@.take(k as int).contains(id),
                    decreases self.col_keys@.len() - k,
                {
                    proof {
                        let more = self.col_keys@.take(k + 1);
                        assert(more =~= self.col_keys@.take(k as int).push(self.col_keys@[k as int]));
                        assert(more[k as int] == self.col_keys@[k as int]);
                        if self.col_keys@.take(k as int).contains(id) {
                            let j = choose|j: int| 0 <= j < k && self.col_keys@.take(k as int)[j] == id;
                            assert(more[j] == id);
                        }
                    }
                    if self.col_keys[k] == id {
                        fresh = false;
                    }
                    k += 1;
                }
                assert(self.col_keys@.take(self.col_keys@.len() as int) =~= self.col_keys@);
            }
            if !fresh {
                // Empty header, or a duplicate: xsv resolves the name to
                // the first occurrence, so later ones go positional.
                id = self.intern_position(col);
            }
            self.col_keys.push(id);
            id
        } else if col >= self.col_keys.len() {
            let id = self.intern_position(col);
            self.col_keys.push(id);
            id
        } else {
            self.col_keys[col]
        };
        self.paths.push(
            PathEntry {
                start: start as u32,
                end: end as u32,
                parent: if header {
                    0
                } else {
                    row
                },
                segment: PathSegment::Key(key),
            },
        );
    }

    /// Parses the fields of one record; returns the end of the last one.
    fn parse_fields(&mut self, header: bool, row: u32) -> (record_end: usize)
        requires
            old(self).wf(),
            header ==> old(self).col_keys@.len() == 0,
            csv_fields(old(self).input@, old(self).delimiter, old(self)@, header, row, 0).0.st.paths.len() < ROOT_PARENT,
            old(self).pos < old(self).input@.len(),
        ensures
            final(self).keeps(old(self)),
            csv_fields(old(self).input@, old(self).delimiter, old(self)@, header, row, 0) == (
                final(self)@,
                record_end as int,
            ),
            final(self).pos > old(self).pos,
            record_end <= final(self).input@.len(),
            final(self).paths@.len() >= old(self).paths@.len(),
    {
        let ghost input = self.input@;
        let ghost goal = csv_fields(input, self.delimiter, self@, header, row, 0);
        let mut col: usize = 0;
        loop
            invariant
                self.keeps(old(self)),
                input == self.input@,
                goal.0.st.paths.len() < ROOT_PARENT,
                self.paths@.len() >= old(self).paths@.len(),
                col <= self.pos,
                header ==> col == self.col_keys@.len(),
                !header ==> col <= self.col_keys@.len(),
                old(self).pos < old(self).input@.len(),
                self.pos >= old(self).pos,
                col > 0 ==> self.pos > old(self).pos,
                goal == csv_fields(input, self.delimiter, self@, header, row, col as int),
                goal == csv_fields(input, old(self).delimiter, old(self)@, header, row, 0),
            decreases input.len() - self.pos,
        {
            if self.pos >= self.next_progress_at {
                self.flush_progress();
            }
            let start: usize = self.pos;
            proof {
                lemma_field_stop(input, start as int, self.delimiter);
                lemma_fields_grow(input, self.delimiter, self@, header, row, col as int);
            }
            let stop = scan_field(self.input, start, self.delimiter);
            let at_delimiter = stop < self.input.len() && self.input[stop] == self.delimiter;
            let mut end: usize = stop;
            // Strip the \r of a \r\n line ending off the last field.
            if !at_delimiter && stop > start && self.input[stop - 1] == CR {
                end = stop - 1;
            }
            self.note_field(header, row, col, start, end);
            self.pos = stop;
            col += 1;
            if at_delimiter {
                self.pos = stop + 1;
            } else if stop < self.input.len() {
                self.pos = stop + 1;
                self.line_starts.push(self.pos as u32);
                return end;
            } else {
                return end;
            }
        }
    }

    fn parse_record(&mut self, record: u32)
        requires
            old(self).wf(),
            record == 0 ==> old(self).col_keys@.len() == 0,
            csv_record(old(self).input@, old(self).delimiter, old(self)@, record as int).st.paths.len() < ROOT_PARENT,
            old(self).pos < old(self).input@.len(),
            old(self).paths@.len() > 0,
        ensures
            final(self).keeps(old(self)),
            final(self)@ == csv_record(old(self).input@, old(self).delimiter, old(self)@, record as int),
            final(self).pos > old(self).pos,
            final(self).paths@.len() > 0,
    {
        proof {
            lemma_record_grow(self.input@, self.delimiter, self@, true, 0, 0, record as int);
        }
        if record == 0 {
            self.parse_fields(true, 0);
        } else {
            let start: usize = self.pos;
            // Data rows get an entry so a click in the gutter still
            // resolves to `xsv slice -i N`.
            let row: usize = self.paths.len();
            self.paths.push(
                PathEntry { start: start as u32, end: 0, parent: 0, segment: PathSegment::Index(record - 1) },
            );
            let end = self.parse_fields(false, row as u32);
            let mut entry = self.paths[row];
            entry.end = end as u32;
            self.paths[row] = entry;
        }
    }
}

proof fn lemma_origin_bound(widths: Seq<u32>, i: int)
    requires
        0 <= i <= widths.len(),
        forall|k: int| 0 <= k < widths.len() ==> #[trigger] widths[k] <= MAX_COL_CHARS,
    ensures
        0 <= origin_of(widths, i) <= 66 * i,
    decreases i,
{
    if i > 0 {
        lemma_origin_bound(widths, i - 1);
    }
}

/// Column layout for the given content widths.
fn layout(col_chars: &Vec<u32>) -> (meta: CsvMeta)
    requires
        col_chars@.len() <= MAX_COLUMNS,
    ensures
        meta.wf(),
        meta.col_widths@ == col_widths_of(col_chars@),
{
    let mut col_widths: Vec<u32> = Vec::new();
    let mut col_origins: Vec<u32> = Vec::new();
    let mut acc: u32 = 0;
    let ghost widths = col_widths_of(col_chars@);
    let mut i: usize = 0;
    while i < col_chars.len()
        invariant
            i <= col_chars@.len() <= MAX_COLUMNS,
            widths == col_widths_of(col_chars@),
            col_widths@ == widths.take(i as int),
            col_origins@.len() == i,
            forall|k: int| 0 <= k < i ==> #[trigger] col_origins@[k] == origin_of(widths, k),
            acc == origin_of(widths, i as int),
        decreases col_chars@.len() - i,
    {
        let c = col_chars[i];
        let w: u32 = if c < 1 {
            1
        } else if c > MAX_COL_CHARS {
            MAX_COL_CHARS
        } else {
            c
        };
        proof {
            lemma_origin_bound(widths, i as int);
            assert(w == widths[i as int]);
            assert(widths.take(i + 1) =~= widths.take(i as int).push(w));
        }
        col_widths.push(w);
        col_origins.push(acc);
        acc += w + GUTTER_CHARS;
        i += 1;
    }
    proof {
        assert(widths.take(i as int) =~= widths);
        lemma_origin_bound(widths, widths.len() as int);
        if widths.len() > 0 {
            lemma_origin_bound(widths, widths.len() - 1);
        }
    }
    let table_width: u32 = if acc >= GUTTER_CHARS {
        acc - GUTTER_CHARS
    } else {
        0
    };
    CsvMeta { col_widths, col_origins, table_width }
}

/// Parses a CSV document with the given delimiter. Every input parses.
///
/// Entries are numbered with `u32`, and each byte can start a row and a
/// cell; the table's width in chars is a `u32` too.
pub fn parse(input: &[u8], delimiter: u8, progress: Option<&ProgressSink>) -> (out: ParseOutput)
    requires
        input@.len() < u32::MAX,
        2 * input@.len() + 3 < u32::MAX || csv_document(input@, delimiter).st.paths.len() < u32::MAX,
        input@.len() < MAX_COLUMNS || csv_document(input@, delimiter).chars.len() <= MAX_COLUMNS,
    ensures
        ({
            let doc = csv_document(input@, delimiter);
            &&& out.line_starts@ == doc.lines
            &&& out.paths.entries@ == doc.st.paths
            &&& out.styles@.len() == 0
            &&& out.names.wf()
            &&& out.names@ == doc.st.names
            &&& out.error is None
            &&& out.bytes == input@.len()
            &&& out.csv matches Some(meta) && meta.wf() && meta.col_widths@ == col_widths_of(doc.chars)
        }),
        out.wf(input@.len() as int),
{
    proof {
        law_csv_entry_count(input@, delimiter);
        law_csv_indexes(input@, delimiter);
    }
    let next_progress_at: usize = if progress.is_some() {
        PROGRESS_GRANULARITY
    } else {
        usize::MAX
    };
    let mut p = Parser {
        input,
        delimiter,
        pos: 0,
        line_starts: Vec::new(),
        paths: Vec::new(),
        names: NameInterner::new(),
        col_keys: Vec::new(),
        col_chars: Vec::new(),
        scratch: Vec::new(),
        progress,
        next_progress_at,
    };
    p.line_starts.push(0);
    // Root spans the whole input so a click anywhere resolves.
    p.paths.push(PathEntry { start: 0, end: 0, parent: ROOT_PARENT, segment: PathSegment::Root });
    if input.len() >= 3 && input[0] == 0xef && input[1] == 0xbb && input[2] == 0xbf {
        p.pos = 3;
    }
    let mut record: u32 = 0;
    proof {
        assert(p.line_starts@ =~= seq![0u32]);
        assert(p@ == csv_start(input@));
    }
    while p.pos < p.input.len()
        invariant
            p.wf(),
            p.input@ == input@,
            p.delimiter == delimiter,
            p.paths@.len() > 0,
            record <= p.pos,
            record == 0 ==> p.col_keys@.len() == 0,
            csv_fits(input@, delimiter),
            csv_records(input@, delimiter, csv_start(input@), 0) == csv_records(
                input@,
                delimiter,
                p@,
                record as int,
            ),
        decreases input@.len() - p.pos,
    {
        proof {
            lemma_record_grow(input@, delimiter, p@, true, 0, 0, record as int);
            lemma_records_grow(input@, delimiter, csv_record(input@, delimiter, p@, record as int), record + 1);
        }
        p.parse_record(record);
        record += 1;
    }
    let mut root = p.paths[0];
    root.end = input.len() as u32;
    p.paths[0] = root;
    if let Some(sink) = progress {
        sink.publish(input.len() as u64);
    }
    let meta = layout(&p.col_chars);
    ParseOutput {
        line_starts: p.line_starts,
        paths: PathIndex { entries: p.paths },
        // Colors are computed at draw time from the cell entries, so no
        // spans.
        styles: Vec::new(),
        names: p.names,
        error: None,
        bytes: input.len(),
        csv: Some(meta),
    }
}

// --- layout helpers -------------------------------------------------

/// Position at or after `i` of the character that `n` others precede, or
/// the length of `s`.
pub open spec fn char_start_from(s: Seq<u8>, i: int, n: int) -> int
    decreases s.len() - i,
{
    if i < 0 || i >= s.len() {
        s.len() as int
    } else if !starts_char(s[i]) {
        char_start_from(s, i + 1, n)
    } else if n <= 0 {
        i
    } else {
        char_start_from(s, i + 1, n - 1)
    }
}

/// Byte offset of the `n`th character boundary in `bytes` (clamped).
fn byte_of_char(bytes: &[u8], n: u32) -> (r: u32)
    requires
        bytes@.len() <= u32::MAX,
    ensures
        r == char_start_from(bytes@, 0, n as int),
        r <= bytes@.len(),
{
    let mut left: u32 = n;
    let mut i: usize = 0;
    while i < bytes.len()
        invariant
            i <= bytes@.len() <= u32::MAX,
            char_start_from(bytes@, i as int, left as int) == char_start_from(bytes@, 0, n as int),
        decreases bytes@.len() - i,
    {
        if !(0x80 <= bytes[i] && bytes[i] < 0xc0) {
            if left == 0 {
                return i as u32;
            }
            left -= 1;
        }
        i += 1;
    }
    bytes.len() as u32
}

/// Byte ranges of the cells among `entries` that start in `a..b`.
pub open spec fn cells_between(entries: Seq<PathEntry>, a: int, b: int) -> Seq<(u32, u32)>
    decreases entries.len(),
{
    if entries.len() == 0 {
        Seq::empty()
    } else {
        let before = cells_between(entries.drop_last(), a, b);
        let e = entries.last();
        if e.segment is Key && a <= e.start < b {
            before.push((e.start, e.end))
        } else {
            before
        }
    }
}

proof fn lemma_cells_between_none(entries: Seq<PathEntry>, n: int, a: int, b: int)
    requires
        0 <= n <= entries.len(),
        forall|k: int| n <= k < entries.len() ==> !(a <= (#[trigger] entries[k]).start < b),
    ensures
        cells_between(entries, a, b) == cells_between(entries.take(n), a, b),
    decreases entries.len() - n,
{
    if n < entries.len() {
        let rest = entries.drop_last();
        assert(!(a <= entries[entries.len() - 1].start < b));
        assert forall|k: int| n <= k < rest.len() implies !(a <= (#[trigger] rest[k]).start < b) by {
            assert(rest[k] == entries[k]);
        }
        lemma_cells_between_none(rest, n, a, b);
        assert(rest.take(n) =~= entries.take(n));
    } else {
        assert(entries.take(n) =~= entries);
    }
}

/// Absolute byte ranges of the cells of the record starting at
/// `record_start`, in column order. `next_start` is the following
/// record's start offset, or `u32::MAX` for the last record.
pub fn record_cells(entries: &[PathEntry], record_start: u32, next_start: u32) -> (out: Vec<(u32, u32)>)
    requires
        starts_sorted(entries@),
    ensures
        out@ == cells_between(entries@, record_start as int, next_start as int),
        forall|bytes: Seq<u8>| cells_bounded(entries@, bytes.len() as int) ==> #[trigger] cells_ok(out@, bytes),
{
    let mut lo: usize = 0;
    let mut hi: usize = entries.len();
    while lo < hi
        invariant
            lo <= hi <= entries@.len(),
            starts_sorted(entries@),
            forall|k: int| 0 <= k < lo ==> (#[trigger] entries@[k]).start < record_start,
            forall|k: int| hi <= k < entries@.len() ==> (#[trigger] entries@[k]).start >= record_start,
        decreases hi - lo,
    {
        let mid: usize = lo + (hi - lo) / 2;
        if entries[mid].start < record_start {
            lo = mid + 1;
        } else {
            hi = mid;
        }
    }
    let mut out: Vec<(u32, u32)> = Vec::new();
    let mut i: usize = lo;
    proof {
        let head = entries@.take(lo as int);
        assert forall|k: int| 0 <= k < head.len() implies !(record_start <= (#[trigger] head[k]).start < next_start) by {
            assert(head[k] == entries@[k]);
        }
        lemma_cells_between_none(head, 0, record_start as int, next_start as int);
        assert(head.take(0) =~= Seq::<PathEntry>::empty());
    }
    while i < entries.len() && entries[i].start < next_start
        invariant
            lo <= i <= entries@.len(),
            starts_sorted(entries@),
            forall|k: int| lo <= k < entries@.len() ==> (#[trigger] entries@[k]).start >= record_start,
            out@ == cells_between(entries@.take(i as int), record_start as int, next_start as int),
        decreases entries@.len() - i,
    {
        let e = entries[i];
        proof {
            assert(entries@.take(i + 1).drop_last() =~= entries@.take(i as int));
        }
        if let PathSegment::Key(_) = e.segment {
            out.push((e.start, e.end));
        }
        i += 1;
    }
    proof {
        assert forall|k: int| i <= k < entries@.len() implies !(record_start <= (#[trigger] entries@[k]).start
            < next_start) by {
            assert(entries@[i as int].start <= entries@[k].start);
        }
        lemma_cells_between_none(entries@, i as int, record_start as int, next_start as int);
        assert forall|bytes: Seq<u8>| cells_bounded(entries@, bytes.len() as int) implies #[trigger] cells_ok(
            out@,
            bytes,
        ) by {
            lemma_cells_between_ok(entries@, bytes, record_start as int, next_start as int);
        }
    }
    out
}

/// The cells among `entries` lie in a document of `len` bytes.
pub open spec fn cells_bounded(entries: Seq<PathEntry>, len: int) -> bool {
    forall|i: int|
        0 <= i < entries.len() && (#[trigger] entries[i]).segment is Key ==> entries[i].start <= entries[i].end
            && entries[i].end <= len
}

/// Cells collected from a well-formed index lie in the document, in
/// order.
pub proof fn lemma_cells_between_ok(entries: Seq<PathEntry>, bytes: Seq<u8>, a: int, b: int)
    requires
        starts_sorted(entries),
        cells_bounded(entries, bytes.len() as int),
    ensures
        cells_ok(cells_between(entries, a, b), bytes),
        forall|k: int|
            0 <= k < cells_between(entries, a, b).len() ==> (#[trigger] cells_between(entries, a, b)[k]).0
                <= entries.last().start,
    decreases entries.len(),
{
    if entries.len() > 0 {
        let rest = entries.drop_last();
        let cells = cells_between(entries, a, b);
        let before = cells_between(rest, a, b);
        assert(starts_sorted(rest)) by {
            assert forall|i: int, j: int| 0 <= i <= j < rest.len() implies rest[i].start <= rest[j].start by {
                assert(entries[i].start <= entries[j].start);
            }
        }
        assert(cells_bounded(rest, bytes.len() as int)) by {
            assert forall|i: int| 0 <= i < rest.len() && (#[trigger] rest[i]).segment is Key implies rest[i].start
                <= rest[i].end && rest[i].end <= bytes.len() by {
                assert(entries[i].segment is Key);
            }
        }
        lemma_cells_between_ok(rest, bytes, a, b);
        if rest.len() > 0 {
            assert(entries[rest.len() - 1].start <= entries[rest.len() as int].start);
        }
        let e = entries[entries.len() - 1];
        assert forall|k: int| 0 <= k < cells.len() implies (#[trigger] cells[k]).0 <= e.start && cells[k].0
            <= cells[k].1 && cells[k].1 <= bytes.len() by {
            if k < before.len() {
                assert(cells[k] == before[k]);
            }
        }
        assert forall|i: int, j: int| 0 <= i <= j < cells.len() implies (#[trigger] cells[i]).0 <= (
        #[trigger] cells[j]).0 by {
            if j < before.len() {
                assert(cells[i] == before[i] && cells[j] == before[j]);
            } else if i < before.len() {
                assert(cells[i] == before[i]);
            }
        }
    }
}

/// Cells lie in the document, in order.
pub open spec fn cells_ok(cells: Seq<(u32, u32)>, bytes: Seq<u8>) -> bool {
    &&& forall|i: int| 0 <= i < cells.len() ==> (#[trigger] cells[i]).0 <= cells[i].1 && cells[i].1 <= bytes.len()
    &&& forall|i: int, j: int| 0 <= i <= j < cells.len() ==> (#[trigger] cells[i]).0 <= (#[trigger] cells[j]).0
}

/// The last index whose value is at most `x`, or zero; within `0..len`.
pub open spec fn slot_of(sorted: Seq<u32>, x: int, len: int) -> int {
    let n = count_at_most(sorted, x);
    let i = if n == 0 {
        0
    } else {
        n - 1
    };
    if i > len - 1 {
        len - 1
    } else {
        i
    }
}

pub open spec fn cell_starts(cells: Seq<(u32, u32)>) -> Seq<u32> {
    Seq::new(cells.len(), |i: int| cells[i].0)
}

/// Origin of column `i`, zero beyond the last.
pub open spec fn origin_or_zero(widths: Seq<u32>, i: int) -> int {
    if 0 <= i < widths.len() {
        origin_of(widths, i)
    } else {
        0
    }
}

pub open spec fn width_or_zero(widths: Seq<u32>, i: int) -> int {
    if 0 <= i < widths.len() {
        widths[i] as int
    } else {
        0
    }
}

pub open spec fn min_of(a: int, b: int) -> int {
    if a < b {
        a
    } else {
        b
    }
}

/// `x` brought into `lo..=hi`.
pub open spec fn clamped(x: int, lo: int, hi: int) -> int {
    if x < lo {
        lo
    } else if x > hi {
        hi
    } else {
        x
    }
}

/// Char column at which `byte` renders: in the last cell that starts at
/// or before it, as many chars from the column's origin as precede it in
/// the cell, at most the column's width.
pub open spec fn visual_col(widths: Seq<u32>, cells: Seq<(u32, u32)>, bytes: Seq<u8>, byte: int) -> int {
    if cells.len() == 0 {
        0
    } else {
        let i = slot_of(cell_starts(cells), byte, cells.len() as int);
        let (s, e) = cells[i];
        origin_or_zero(widths, i) + min_of(
            chars_in(bytes.subrange(s as int, clamped(byte, s as int, e as int))) as int,
            width_or_zero(widths, i),
        )
    }
}

/// Byte under char column `col`: in the last column that starts at or
/// before it, as many chars into the cell, at most the column's width.
pub open spec fn byte_at_col(
    widths: Seq<u32>,
    origins: Seq<u32>,
    cells: Seq<(u32, u32)>,
    bytes: Seq<u8>,
    col: int,
) -> Option<int> {
    if cells.len() == 0 {
        None
    } else {
        let j = slot_of(origins, col, cells.len() as int);
        let (s, e) = cells[j];
        let into = if col < origin_or_zero(widths, j) {
            0
        } else {
            col - origin_or_zero(widths, j)
        };
        Some(s + char_start_from(bytes.subrange(s as int, e as int), 0, min_of(into, width_or_zero(widths, j))))
    }
}

pub proof fn lemma_origins_increase(widths: Seq<u32>, i: int, j: int)
    requires
        0 <= i < j <= widths.len(),
    ensures
        origin_of(widths, i) + widths[i] + GUTTER_CHARS <= origin_of(widths, j),
        0 <= origin_of(widths, i),
    decreases j,
{
    lemma_origin_nonneg(widths, i);
    if i < j - 1 {
        lemma_origins_increase(widths, i, j - 1);
    }
}

pub proof fn lemma_origin_nonneg(widths: Seq<u32>, i: int)
    ensures
        0 <= origin_of(widths, i),
    decreases i,
{
    if i > 0 {
        lemma_origin_nonneg(widths, i - 1);
    }
}

/// Visual char column at which absolute `byte` renders on its row.
/// Bytes inside a cell map to origin + chars-into-field (clamped to the
/// column width); delimiter and gutter bytes collapse to the end of the
/// preceding cell's content.
pub fn visual_col_of_byte(meta: &CsvMeta, cells: &[(u32, u32)], bytes: &[u8], byte: u32) -> (r: u32)
    requires
        meta.wf(),
        cells_ok(cells@, bytes@),
    ensures
        r == visual_col(meta.col_widths@, cells@, bytes@, byte as int),
{
    if cells.len() == 0 {
        return 0;
    }
    let mut lo: usize = 0;
    let mut hi: usize = cells.len();
    while lo < hi
        invariant
            lo <= hi <= cells@.len(),
            cells_ok(cells@, bytes@),
            forall|k: int| 0 <= k < lo ==> (#[trigger] cells@[k]).0 <= byte,
            forall|k: int| hi <= k < cells@.len() ==> (#[trigger] cells@[k]).0 > byte,
        decreases hi - lo,
    {
        let mid: usize = lo + (hi - lo) / 2;
        if cells[mid].0 <= byte {
            lo = mid + 1;
        } else {
            hi = mid;
        }
    }
    proof {
        let starts = cell_starts(cells@);
        assert forall|k: int| 0 <= k < lo implies (#[trigger] starts[k]) <= byte by {
            assert(cells@[k].0 <= byte);
        }
        assert forall|k: int| lo <= k < starts.len() implies (#[trigger] starts[k]) > byte by {
            assert(cells@[k].0 > byte);
        }
        lemma_count_at_most(starts, byte as int, lo as int);
    }
    let i: usize = if lo == 0 {
        0
    } else {
        lo - 1
    };
    let (s, e) = cells[i];
    let upto: u32 = if byte < s {
        s
    } else if byte > e {
        e
    } else {
        byte
    };
    let into = char_count(slice_subrange(bytes, s as usize, upto as usize));
    if i < meta.col_widths.len() {
        proof {
            lemma_origins_increase(meta.col_widths@, i as int, i + 1);
            if i + 1 < meta.col_widths@.len() {
                lemma_origins_increase(meta.col_widths@, i + 1, meta.col_widths@.len() as int);
            }
        }
        let w = meta.col_widths[i];
        meta.col_origins[i] + if into < w {
            into
        } else {
            w
        }
    } else {
        0
    }
}

/// Absolute byte offset for a click at visual char column `col`. Clicks
/// in a gutter clamp to the end of the preceding cell, clicks past a
/// row's last cell to its end; of a cell wider than its column, that is
/// where the column ends. `None` when the record has no cells.
pub fn byte_of_visual_col(meta: &CsvMeta, cells: &[(u32, u32)], bytes: &[u8], col: u32) -> (r: Option<u32>)
    requires
        meta.wf(),
        cells_ok(cells@, bytes@),
    ensures
        match byte_at_col(meta.col_widths@, meta.col_origins@, cells@, bytes@, col as int) {
            Some(b) => r == Some(b as u32) && 0 <= b <= u32::MAX,
            None => r is None,
        },
{
    if cells.len() == 0 {
        return None;
    }
    let mut lo: usize = 0;
    let mut hi: usize = meta.col_origins.len();
    while lo < hi
        invariant
            lo <= hi <= meta.col_origins@.len(),
            meta.wf(),
            forall|k: int| 0 <= k < lo ==> (#[trigger] meta.col_origins@[k]) <= col,
            forall|k: int| hi <= k < meta.col_origins@.len() ==> (#[trigger] meta.col_origins@[k]) > col,
        decreases hi - lo,
    {
        let mid: usize = lo + (hi - lo) / 2;
        let o = meta.col_origins[mid];
        proof {
            assert forall|k: int| 0 <= k < meta.col_origins@.len() && k != mid implies (k < mid
                ==> #[trigger] meta.col_origins@[k] <= o) && (k > mid ==> meta.col_origins@[k] >= o) by {
                if k < mid {
                    lemma_origins_increase(meta.col_widths@, k, mid as int);
                } else {
                    lemma_origins_increase(meta.col_widths@, mid as int, k);
                }
            }
        }
        if o <= col {
            lo = mid + 1;
        } else {
            hi = mid;
        }
    }
    proof {
        lemma_count_at_most(meta.col_origins@, col as int, lo as int);
    }
    let mut j: usize = if lo == 0 {
        0
    } else {
        lo - 1
    };
    if j > cells.len() - 1 {
        j = cells.len() - 1;
    }
    let (s, e) = cells[j];
    let mut origin: u32 = 0;
    let mut w: u32 = 0;
    if j < meta.col_origins.len() {
        origin = meta.col_origins[j];
        w = meta.col_widths[j];
    }
    let mut into: u32 = if col < origin {
        0
    } else {
        col - origin
    };
    if into > w {
        into = w;
    }
    let field = slice_subrange(bytes, s as usize, e as usize);
    Some(s + byte_of_char(field, into))
}

/// Substitution for control characters, so embedded newlines and tabs
/// render as one picture glyph instead of breaking the row layout.
pub open spec fn glyph(c: char) -> char {
    if c == '\n' {
        '\u{2424}'
    } else if c == '\r' {
        '\u{240D}'
    } else if c == '\t' {
        '\u{2409}'
    } else if (c as u32) < 0x20 {
        '\u{2426}'
    } else {
        c
    }
}

/// A visible stand-in for a control character; others stay.
pub fn display_char(c: char) -> (r: char)
    ensures
        r == glyph(c),
{
    if c == '\n' {
        '\u{2424}'
    } else if c == '\r' {
        '\u{240D}'
    } else if c == '\t' {
        '\u{2409}'
    } else if (c as u32) < 0x20 {
        '\u{2426}'
    } else {
        c
    }
}

pub open spec fn glyphs(t: Seq<char>) -> Seq<char> {
    Seq::new(t.len(), |i: int| glyph(t[i]))
}

/// What is drawn of a field in a column of width `w`: all of it, or its
/// first `w - 1` chars and an ellipsis.
pub open spec fn clipped(field: Seq<char>, w: int) -> Seq<char> {
    if field.len() <= w {
        glyphs(field)
    } else if w <= 0 {
        Seq::empty()
    } else {
        glyphs(field.take(w - 1)).push('\u{2026}')
    }
}

/// Appends what is drawn of `field` in a column of width `w`, and
/// returns its length in UTF-16 units.
pub fn push_clipped(text: &mut String, field: &str, w: u32) -> (units: usize)
    requires
        2 * w <= usize::MAX,
    ensures
        final(text)@ == old(text)@ + clipped(field@, w as int),
        units == utf16_len(clipped(field@, w as int)),
{
    let n: usize = field.unicode_len();
    let limit: usize = if n <= w as usize {
        n
    } else if w == 0 {
        0
    } else {
        (w - 1) as usize
    };
    let mut emitted: usize = 0;
    let mut units: usize = 0;
    let ghost before = text@;
    proof {
        assert(text@ =~= before + glyphs(field@.take(0)));
        assert(glyphs(field@.take(0)) =~= Seq::<char>::empty());
    }
    for c in it: field.chars()
        invariant
            it.seq() == field@,
            limit <= n == field@.len(),
            limit <= w,
            2 * w <= usize::MAX,
            emitted == (if it.index() < limit {
                it.index() as int
            } else {
                limit as int
            }),
            text@ == before + glyphs(field@.take(emitted as int)),
            units == utf16_len(glyphs(field@.take(emitted as int))),
            units <= 2 * emitted,
    {
        if emitted < limit {
            let ghost shown = glyphs(field@.take(emitted as int));
            let d = display_char(c);
            text.push(d);
            units += len_utf16(d);
            emitted += 1;
            proof {
                let next = glyphs(field@.take(emitted as int));
                assert(next =~= shown.push(d));
                lemma_utf16_len_push(shown, d);
                assert(text@ =~= before + next);
            }
        }
    }
    proof {
        if limit == n {
            assert(field@.take(n as int) =~= field@);
        }
    }
    if n > w as usize && w > 0 {
        let ghost shown = glyphs(field@.take(limit as int));
        text.push('\u{2026}');
        units += 1;
        proof {
            lemma_utf16_len_push(shown, '\u{2026}');
            assert(text@ =~= before + shown.push('\u{2026}'));
        }
    } else {
        proof {
            if w == 0 && n > 0 {
                assert(glyphs(field@.take(0)) =~= Seq::<char>::empty());
            }
        }
    }
    units
}

/// One row's drawable text: fields padded to their column origins,
/// truncated at the column width with an ellipsis. `origin_chars` is the
/// char column `text` starts at (the origin of the first visible cell);
/// `spans` are UTF-16 ranges into `text` to colorize.
#[derive(Debug)]
pub struct RenderedRow {
    pub origin_chars: u32,
    pub text: String,
    pub spans: Vec<(usize, usize, StyleKind)>,
}

/// A row being composed: its text, the column it starts at once a cell
/// has been drawn, and its colored UTF-16 ranges.
pub struct RowState {
    pub base: Option<int>,
    pub text: Seq<char>,
    pub spans: Seq<(usize, usize, StyleKind)>,
}

/// `text` padded with spaces to `n` chars.
pub open spec fn padded(text: Seq<char>, n: int) -> Seq<char> {
    if text.len() < n {
        text + Seq::new((n - text.len()) as nat, |i: int| ' ')
    } else {
        text
    }
}

pub open spec fn cell_kind(is_header: bool, raw: Seq<u8>) -> Option<StyleKind> {
    if is_header {
        Some(StyleKind::Key)
    } else if numeric(raw) {
        Some(StyleKind::Number)
    } else {
        None
    }
}

/// Draws one cell: padding up to its column, then its clipped text,
/// colored by kind unless it is empty.
pub open spec fn with_cell(row: RowState, origin: int, w: int, field: Seq<char>, kind: Option<StyleKind>) -> RowState {
    let base = match row.base {
        Some(b) => b,
        None => origin,
    };
    let lead = padded(row.text, origin - base);
    let shown = clipped(field, w);
    let a = utf16_len(lead) as usize;
    let b = (utf16_len(lead) + utf16_len(shown)) as usize;
    RowState {
        base: Some(base),
        text: lead + shown,
        spans: match kind {
            Some(k) => if shown.len() > 0 {
                row.spans.push((a, b, k))
            } else {
                row.spans
            },
            None => row.spans,
        },
    }
}

/// The cells from column `i` on that touch the visible char columns.
pub open spec fn row_from(
    widths: Seq<u32>,
    cells: Seq<(u32, u32)>,
    bytes: Seq<u8>,
    is_header: bool,
    vis_start: int,
    vis_end: int,
    i: int,
    row: RowState,
) -> RowState
    decreases cells.len() - i,
{
    if i < 0 || i >= cells.len() || i >= widths.len() {
        row
    } else if origin_of(widths, i) + widths[i] < vis_start {
        row_from(widths, cells, bytes, is_header, vis_start, vis_end, i + 1, row)
    } else if origin_of(widths, i) > vis_end {
        row
    } else {
        let raw = bytes.subrange(cells[i].0 as int, cells[i].1 as int);
        let next = with_cell(
            row,
            origin_of(widths, i),
            widths[i] as int,
            shown_text(raw),
            cell_kind(is_header, raw),
        );
        row_from(widths, cells, bytes, is_header, vis_start, vis_end, i + 1, next)
    }
}

pub open spec fn empty_row() -> RowState {
    RowState { base: None, text: Seq::empty(), spans: Seq::empty() }
}

pub proof fn lemma_clipped_len(field: Seq<char>, w: int)
    requires
        0 <= w,
    ensures
        clipped(field, w).len() <= w,
{
}

/// Compose the drawable text for one record, limited to cells that
/// intersect the visible char-column range.
pub fn render_row(
    meta: &CsvMeta,
    cells: &[(u32, u32)],
    bytes: &[u8],
    is_header: bool,
    vis_col_start: u32,
    vis_col_end: u32,
) -> (r: RenderedRow)
    requires
        meta.wf(),
        cells_ok(cells@, bytes@),
        2 * meta.table_width <= usize::MAX,
    ensures
        ({
            let row = row_from(
                meta.col_widths@,
                cells@,
                bytes@,
                is_header,
                vis_col_start as int,
                vis_col_end as int,
                0,
                empty_row(),
            );
            &&& r.text@ == row.text
            &&& r.spans@ == row.spans
            &&& r.origin_chars == match row.base {
                Some(b) => b,
                None => 0,
            }
        }),
{
    let ghost widths = meta.col_widths@;
    let mut text = String::new();
    let mut spans: Vec<(usize, usize, StyleKind)> = Vec::new();
    let mut base: Option<u32> = None;
    let mut chars: u32 = 0;
    let mut units: usize = 0;
    let mut i: usize = 0;
    let mut done = false;
    let ghost goal = row_from(
        widths,
        cells@,
        bytes@,
        is_header,
        vis_col_start as int,
        vis_col_end as int,
        0,
        empty_row(),
    );
    let ghost mut row = empty_row();
    while !done && i < cells.len() && i < meta.col_widths.len()
        invariant
            meta.wf(),
            cells_ok(cells@, bytes@),
            widths == meta.col_widths@,
            2 * meta.table_width <= usize::MAX,
            i <= cells@.len(),
            i <= widths.len(),
            row.text == text@,
            row.spans == spans@,
            row.base == (match base {
                Some(b) => Some(b as int),
                None => None::<int>,
            }),
            base matches Some(b) ==> b + chars + GUTTER_CHARS <= origin_of(widths, i as int),
            base is None ==> chars == 0,
            chars == text@.len(),
            units == utf16_len(text@),
            units <= 2 * chars,
            done ==> goal == row,
            !done ==> goal == row_from(
                widths,
                cells@,
                bytes@,
                is_header,
                vis_col_start as int,
                vis_col_end as int,
                i as int,
                row,
            ),
        decreases cells@.len() - i + (if done { 0int } else { 1int }),
    {
        let origin = meta.col_origins[i];
        let w = meta.col_widths[i];
        proof {
            lemma_origins_increase(widths, i as int, i + 1);
            if i + 1 < widths.len() {
                lemma_origins_increase(widths, i + 1, widths.len() as int);
            }
        }
        if origin + w < vis_col_start {
            i += 1;
        } else if origin > vis_col_end {
            done = true;
        } else {
            let start: u32 = match base {
                Some(b) => b,
                None => origin,
            };
            base = Some(start);
            let target: u32 = origin - start;
            let ghost text0 = text@;
            let ghost lead = padded(text0, target as int);
            while chars < target
                invariant
                    chars <= target || text@ == lead,
                    chars == text@.len(),
                    text0.len() <= chars,
                    lead == padded(text0, target as int),
                    units == utf16_len(text@),
                    units <= 2 * chars,
                    2 * target <= usize::MAX,
                    text0.len() <= target ==> text@ == padded(text0, chars as int),
                    text0.len() > target ==> text@ == text0,
                decreases target - chars,
            {
                let ghost before = text@;
                text.push(' ');
                chars += 1;
                units += 1;
                proof {
                    lemma_utf16_len_push(before, ' ');
                    assert(text@ =~= padded(text0, chars as int));
                }
            }
            proof {
                assert(text@ =~= lead);
            }
            let (s, e) = cells[i];
            let raw = slice_subrange(bytes, s as usize, e as usize);
            let field = utf8_lossy(raw);
            let from: usize = units;
            let added = push_clipped(&mut text, field.as_str(), w);
            proof {
                let shown = clipped(field@, w as int);
                lemma_utf16_len_concat(lead, shown);
                lemma_utf16_len_bound(shown);
                lemma_clipped_len(field@, w as int);
            }
            units += added;
            chars += text_chars(&field, w);
            let kind: Option<StyleKind> = if is_header {
                Some(StyleKind::Key)
            } else if looks_numeric(raw) {
                Some(StyleKind::Number)
            } else {
                None
            };
            if let Some(k) = kind {
                if units > from {
                    spans.push((from, units, k));
                }
            }
            proof {
                row = with_cell(row, origin as int, w as int, field@, cell_kind(is_header, raw@));
            }
            i += 1;
        }
    }
    let origin_chars: u32 = match base {
        Some(b) => b,
        None => 0,
    };
    RenderedRow { origin_chars, text, spans }
}

/// Number of chars drawn for `field` in a column of width `w`.
fn text_chars(field: &String, w: u32) -> (n: u32)
    ensures
        n == clipped(field@, w as int).len(),
        n <= w,
{
    let len: usize = field.as_str().unicode_len();
    if len <= w as usize {
        len as u32
    } else {
        w
    }
}

/// End of an optional sign at `i`.
pub open spec fn sign_end(t: Seq<u8>, i: int) -> int {
    if byte_at(t, i) == Some(PLUS) || byte_at(t, i) == Some(MINUS) {
        i + 1
    } else {
        i
    }
}

/// `t` from `i` on is an exponent's digits: an optional sign and at
/// least one digit, to the end.
pub open spec fn exponent_digits(t: Seq<u8>, i: int) -> bool {
    let d = sign_end(t, i);
    d < t.len() && skip_digits_from(t, d) == t.len()
}

/// Loose number shape: optional sign, digits with at most one dot among
/// them and at least one digit, optional exponent. Surrounding ASCII
/// whitespace does not matter.
pub open spec fn numeric(field: Seq<u8>) -> bool {
    let t = trimmed(field);
    let a = sign_end(t, 0);
    let whole = skip_digits_from(t, a);
    let end = if byte_at(t, whole) == Some(DOT) {
        skip_digits_from(t, whole + 1)
    } else {
        whole
    };
    let digits = whole > a || end > whole + 1;
    digits && (end == t.len() || ((t[end] == LOWER_E || t[end] == UPPER_E) && exponent_digits(t, end + 1)))
}

fn find_digits_end(s: &[u8], i: usize) -> (r: usize)
    requires
        i <= s@.len(),
    ensures
        r == skip_digits_from(s@, i as int),
        i <= r <= s@.len(),
{
    let mut j: usize = i;
    while j < s.len() && is_digit_byte(s[j])
        invariant
            i <= j <= s@.len(),
            skip_digits_from(s@, j as int) == skip_digits_from(s@, i as int),
        decreases s@.len() - j,
    {
        j += 1;
    }
    j
}

fn find_sign_end(t: &[u8], i: usize) -> (r: usize)
    requires
        i <= t@.len(),
    ensures
        r == sign_end(t@, i as int),
        i <= r <= t@.len(),
{
    if i < t.len() && (t[i] == PLUS || t[i] == MINUS) {
        i + 1
    } else {
        i
    }
}

/// Loose number shape check for draw-time coloring: optional sign,
/// digits, one optional dot, optional exponent. Surrounding ASCII
/// whitespace is ignored.
pub fn looks_numeric(field: &[u8]) -> (r: bool)
    ensures
        r == numeric(field@),
{
    let t = trim_bytes(field);
    let a = find_sign_end(t, 0);
    let whole = find_digits_end(t, a);
    let mut end: usize = whole;
    if whole < t.len() && t[whole] == DOT {
        end = find_digits_end(t, whole + 1);
    }
    if !(whole > a || end - whole > 1) {
        return false;
    }
    if end == t.len() {
        return true;
    }
    if t[end] != LOWER_E && t[end] != UPPER_E {
        return false;
    }
    let d = find_sign_end(t, end + 1);
    d < t.len() && find_digits_end(t, d) == t.len()
}

// --- path expression ------------------------------------------------

pub open spec fn all_digits(t: Seq<char>) -> bool {
    t.len() > 0 && forall|i: int| 0 <= i < t.len() ==> '0' <= #[trigger] t[i] <= '9'
}

/// `t` with each quote doubled.
pub open spec fn doubled_quotes(t: Seq<char>) -> Seq<char>
    decreases t.len(),
{
    if t.len() == 0 {
        Seq::empty()
    } else if t.last() == '"' {
        doubled_quotes(t.drop_last()).push('"').push('"')
    } else {
        doubled_quotes(t.drop_last()).push(t.last())
    }
}

/// A column name for `xsv select`, quoted unless it is a bare identifier
/// or a positional index.
pub open spec fn selector(t: Seq<char>) -> Seq<char> {
    if all_digits(t) || is_ident(t) {
        t
    } else {
        seq!['"'] + doubled_quotes(t) + seq!['"']
    }
}

fn is_all_digits(s: &str) -> (r: bool)
    ensures
        r == all_digits(s@),
{
    let mut any = false;
    for c in it: s.chars()
        invariant
            it.seq() == s@,
            any == (it.index() > 0),
            forall|i: int| 0 <= i < it.index() ==> '0' <= #[trigger] s@[i] <= '9',
    {
        any = true;
        if !('0' <= c && c <= '9') {
            proof {
                assert(!('0' <= s@[it.index() as int] <= '9'));
            }
            return false;
        }
    }
    any
}

/// Appends the `xsv select` argument for a column called `name`.
pub fn push_selector(out: &mut String, name: &str)
    ensures
        final(out)@ == old(out)@ + selector(name@),
{
    if is_all_digits(name) || is_identifier(name) {
        push_text(out, name);
        return;
    }
    let ghost before = out@;
    out.push('"');
    proof {
        assert(name@.take(0) =~= Seq::<char>::empty());
        assert(out@ =~= before + (seq!['"'] + doubled_quotes(name@.take(0))));
    }
    for c in it: name.chars()
        invariant
            it.seq() == name@,
            out@ == before + (seq!['"'] + doubled_quotes(name@.take(it.index() as int))),
    {
        let ghost n = it.index() as int;
        let ghost shown = doubled_quotes(name@.take(n));
        if c == '"' {
            out.push('"');
        }
        out.push(c);
        proof {
            assert(name@.take(n + 1).drop_last() =~= name@.take(n));
            assert(out@ =~= before + (seq!['"'] + doubled_quotes(name@.take(n + 1))));
        }
    }
    out.push('"');
    proof {
        assert(name@.take(name@.len() as int) =~= name@);
        assert(out@ =~= before + (seq!['"'] + doubled_quotes(name@) + seq!['"']));
    }
}

/// The last row index on a path.
pub open spec fn path_row(segments: Seq<PathSegment>) -> Option<u32>
    decreases segments.len(),
{
    if segments.len() == 0 {
        None
    } else {
        match segments.last() {
            PathSegment::Index(i) => Some(i),
            _ => path_row(segments.drop_last()),
        }
    }
}

/// The last column name on a path.
pub open spec fn path_col(segments: Seq<PathSegment>) -> Option<u32>
    decreases segments.len(),
{
    if segments.len() == 0 {
        None
    } else {
        match segments.last() {
            PathSegment::Key(k) => Some(k),
            _ => path_col(segments.drop_last()),
        }
    }
}

/// The xsv pipeline that selects row `row` and the column called `col`;
/// `xsv table` when there is neither.
pub open spec fn xsv_pipeline(row: Option<u32>, col: Option<Seq<char>>) -> Seq<char> {
    match (row, col) {
        (Some(r), Some(c)) => "xsv slice -i "@ + decimal(r as nat) + " | "@ + "xsv select "@ + selector(c),
        (Some(r), None) => "xsv slice -i "@ + decimal(r as nat),
        (None, Some(c)) => "xsv select "@ + selector(c),
        (None, None) => "xsv table"@,
    }
}

/// The pipeline for row `row` and the column called `col`.
pub fn pipeline(row: Option<u32>, col: Option<&str>) -> (out: String)
    ensures
        out@ == xsv_pipeline(
            row,
            match col {
                Some(c) => Some(c@),
                None => None,
            },
        ),
{
    let mut out = String::new();
    if let Some(r) = row {
        push_text(&mut out, "xsv slice -i ");
        push_decimal(&mut out, r as u64);
        proof {
            assert(out@ =~= "xsv slice -i "@ + decimal(r as nat));
        }
        if col.is_some() {
            push_text(&mut out, " | ");
        }
    }
    if let Some(c) = col {
        push_text(&mut out, "xsv select ");
        push_selector(&mut out, c);
        proof {
            if row is None {
                assert(out@ =~= "xsv select "@ + selector(c@));
            }
        }
    }
    if row.is_none() && col.is_none() {
        push_text(&mut out, "xsv table");
        assert(out@ =~= "xsv table"@);
    }
    out
}

/// Render a path as an xsv pipeline: cell gives `xsv slice -i R | xsv
/// select C`, row `xsv slice -i R`, header cell `xsv select C`, root
/// `xsv table` (the whole-document view).
pub fn path_expression(segments: &[PathSegment], names: &NameInterner) -> (r: String)
    requires
        names.wf(),
        forall|i: int| 0 <= i < segments@.len() ==> segment_named(#[trigger] segments@[i], names@.len()),
    ensures
        r@ == xsv_pipeline(
            path_row(segments@),
            match path_col(segments@) {
                Some(k) => Some(shown_text(names@[k as int])),
                None => None,
            },
        ),
{
    let mut row: Option<u32> = None;
    let mut col: Option<u32> = None;
    let mut k: usize = 0;
    proof {
        assert(segments@.take(0) =~= Seq::<PathSegment>::empty());
    }
    while k < segments.len()
        invariant
            k <= segments@.len(),
            names.wf(),
            forall|i: int| 0 <= i < segments@.len() ==> segment_named(#[trigger] segments@[i], names@.len()),
            row == path_row(segments@.take(k as int)),
            col == path_col(segments@.take(k as int)),
            col matches Some(c) ==> c < names@.len(),
        decreases segments@.len() - k,
    {
        proof {
            assert(segments@.take(k + 1).drop_last() =~= segments@.take(k as int));
            assert(segment_named(segments@[k as int], names@.len()));
        }
        match segments[k] {
            PathSegment::Index(i) => {
                row = Some(i);
            },
            PathSegment::Key(c) => {
                col = Some(c);
            },
            _ => {},
        }
        k += 1;
    }
    proof {
        assert(segments@.take(segments@.len() as int) =~= segments@);
    }
    match col {
        Some(c) => {
            let name = utf8_lossy(names.get(c));
            pipeline(row, Some(name.as_str()))
        },
        None => pipeline(row, None),
    }
}

/// Raw bytes covered by `entry`, the exact CSV fragment: field bytes
/// (including any quoting) for a cell, the record for a row, the whole
/// input for the root.
pub fn value_bytes_for_entry<'a>(bytes: &'a [u8], entry: &PathEntry) -> (r: &'a [u8])
    ensures
        r@ == entry_text(bytes@, *entry),
{
    slice_of_entry(bytes, entry)
}

} // verus!
