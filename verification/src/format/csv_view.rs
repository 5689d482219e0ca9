//! Laws of what is shown of a table: rows, numbers and xsv pipelines.

use vstd::prelude::*;

use crate::bytes::{lemma_skip_digits_bounds, skip_digits_from, trim_end_from, trim_start_from, trimmed};
use crate::format::csv::{
    all_digits, clipped, doubled_quotes, empty_row, exponent_digits, glyph, glyphs, lemma_origins_increase, numeric,
    origin_of, row_from, selector, sign_end, with_cell, xsv_pipeline, RowState,
};
use crate::format::cursor::byte_at;
use crate::format::jq_laws::{is_plain_name, lemma_plain_name};
use crate::format::json::is_ident;
use crate::format::json_text::{are_digits, lemma_stands_byte, lemma_stands_parts, stands};
use crate::text::{decimal, shown_text};
use crate::text_laws::is_decimal_digit;

verus! {

// --- pipelines ------------------------------------------------------

/// Reads the inside of a quoted name, in which quotes stand twice.
pub open spec fn undoubled(t: Seq<char>) -> Seq<char>
    decreases t.len(),
{
    if t.len() == 0 {
        Seq::empty()
    } else if t.len() >= 2 && t[0] as u32 == 0x22 && t[1] as u32 == 0x22 {
        seq![t[0]] + undoubled(t.skip(2))
    } else {
        seq![t[0]] + undoubled(t.skip(1))
    }
}

/// Reads a column name: in quotes or as it stands.
pub open spec fn read_selector(t: Seq<char>) -> Seq<char> {
    if t.len() >= 2 && t[0] as u32 == 0x22 {
        undoubled(t.subrange(1, t.len() - 1))
    } else {
        t
    }
}

pub open spec fn is_plain_number(t: Seq<char>) -> bool {
    t.len() > 0 && forall|i: int| 0 <= i < t.len() ==> is_decimal_digit(#[trigger] t[i])
}

proof fn lemma_doubled_front(t: Seq<char>)
    requires
        t.len() > 0,
    ensures
        doubled_quotes(t) == (if t[0] == '"' {
            seq!['"', '"']
        } else {
            seq![t[0]]
        }) + doubled_quotes(t.skip(1)),
    decreases t.len(),
{
    let head = if t[0] == '"' {
        seq!['"', '"']
    } else {
        seq![t[0]]
    };
    if t.len() == 1 {
        assert(t.drop_last() =~= Seq::empty());
        assert(t.skip(1) =~= Seq::empty());
        assert(doubled_quotes(t.drop_last()) == Seq::<char>::empty());
        assert(doubled_quotes(t.skip(1)) == Seq::<char>::empty());
        assert(doubled_quotes(t) =~= head + Seq::<char>::empty());
    } else {
        lemma_doubled_front(t.drop_last());
        assert(t.drop_last().skip(1) =~= t.skip(1).drop_last());
        assert(t.skip(1).last() == t.last());
        assert(doubled_quotes(t) =~= head + doubled_quotes(t.skip(1)));
    }
}

proof fn lemma_quote(c: char)
    ensures
        c as u32 == 0x22 <==> c == '"',
{
}

proof fn lemma_digit_range(c: char)
    ensures
        is_decimal_digit(c) <==> '0' <= c <= '9',
{
}

proof fn lemma_undoubled(t: Seq<char>)
    ensures
        undoubled(doubled_quotes(t)) == t,
    decreases t.len(),
{
    if t.len() > 0 {
        lemma_doubled_front(t);
        lemma_undoubled(t.skip(1));
        let d = doubled_quotes(t);
        if t[0] == '"' {
            assert(d.skip(2) =~= doubled_quotes(t.skip(1)));
        } else {
            assert(d.skip(1) =~= doubled_quotes(t.skip(1)));
            lemma_quote(t[0]);
        }
        assert(seq![t[0]] + t.skip(1) =~= t);
    } else {
        assert(t =~= Seq::empty());
    }
}

/// A column name is read back from its selector, and it stands without
/// quotes exactly where it is a number, or letters, digits and
/// underscores with no digit first.
pub proof fn law_selector_reads_back(t: Seq<char>)
    ensures
        read_selector(selector(t)) == t,
        selector(t) == t <==> is_plain_number(t) || is_plain_name(t),
        selector(t) != t ==> selector(t).len() >= 2 && selector(t)[0] == '"' && selector(t).last() == '"',
{
    lemma_plain_name(t);
    assert(all_digits(t) == is_plain_number(t)) by {
        if is_plain_number(t) {
            assert forall|i: int| 0 <= i < t.len() implies '0' <= #[trigger] t[i] <= '9' by {
                assert(is_decimal_digit(t[i]));
                lemma_digit_range(t[i]);
            }
        }
        if all_digits(t) {
            assert forall|i: int| 0 <= i < t.len() implies is_decimal_digit(#[trigger] t[i]) by {
                assert('0' <= t[i] <= '9');
                lemma_digit_range(t[i]);
            }
        }
    }
    let q = seq!['"'] + doubled_quotes(t) + seq!['"'];
    if all_digits(t) || is_ident(t) {
        if t.len() > 0 && t[0] as u32 == 0x22 {
            assert('0' <= t[0] <= '9' || is_ident(t));
        }
    } else {
        lemma_undoubled(t);
        assert(q.subrange(1, q.len() - 1) =~= doubled_quotes(t));
        lemma_doubled_longer(t);
        assert(q.len() != t.len());
        assert(q[0] == '"');
    }
}

proof fn lemma_doubled_longer(t: Seq<char>)
    ensures
        doubled_quotes(t).len() >= t.len(),
    decreases t.len(),
{
    if t.len() > 0 {
        lemma_doubled_longer(t.drop_last());
    }
}

/// `xsv slice -i ` in characters.
pub open spec fn slice_words() -> Seq<char> {
    seq!['x', 's', 'v', ' ', 's', 'l', 'i', 'c', 'e', ' ', '-', 'i', ' ']
}

/// `xsv select ` in characters.
pub open spec fn select_words() -> Seq<char> {
    seq!['x', 's', 'v', ' ', 's', 'e', 'l', 'e', 'c', 't', ' ']
}

/// A row is sliced by its number, a column selected by its name, and a
/// cell is both in turn.
pub proof fn law_xsv_pipeline(row: u32, col: Seq<char>)
    ensures
        xsv_pipeline(Some(row), None) == slice_words() + decimal(row as nat),
        xsv_pipeline(None, Some(col)) == select_words() + selector(col),
        xsv_pipeline(Some(row), Some(col)) == xsv_pipeline(Some(row), None) + seq![' ', '|', ' '] + xsv_pipeline(
            None,
            Some(col),
        ),
        xsv_pipeline(None, None) == seq!['x', 's', 'v', ' ', 't', 'a', 'b', 'l', 'e'],
{
    reveal_strlit("xsv slice -i ");
    reveal_strlit("xsv select ");
    reveal_strlit(" | ");
    reveal_strlit("xsv table");
    assert("xsv slice -i "@ =~= slice_words());
    assert("xsv select "@ =~= select_words());
    assert(" | "@ =~= seq![' ', '|', ' ']);
    assert("xsv table"@ =~= seq!['x', 's', 'v', ' ', 't', 'a', 'b', 'l', 'e']);
    assert(xsv_pipeline(Some(row), Some(col)) =~= xsv_pipeline(Some(row), None) + seq![' ', '|', ' '] + xsv_pipeline(
        None,
        Some(col),
    ));
}

// --- rows -----------------------------------------------------------

/// The picture of a character: control characters have one of their own.
pub open spec fn pictured(c: char) -> u32 {
    let n = c as u32;
    if n == 0x0a {
        0x2424
    } else if n == 0x0d {
        0x240d
    } else if n == 0x09 {
        0x2409
    } else if n < 0x20 {
        0x2426
    } else {
        n
    }
}

/// From `at` on `text` shows the field in at most `w` characters, the
/// last one an ellipsis where the field is longer.
pub open spec fn shows_field(text: Seq<char>, at: int, w: int, field: Seq<char>) -> bool {
    let n = if field.len() <= w {
        field.len() as int
    } else {
        w
    };
    &&& 0 <= at
    &&& at + n <= text.len()
    &&& forall|k: int|
        0 <= k < n ==> (#[trigger] text[at + k]) as u32 == if k == w - 1 && field.len() > w {
            0x2026
        } else {
            pictured(field[k])
        }
}

proof fn lemma_pictured(c: char)
    ensures
        glyph(c) as u32 == pictured(c),
{
}

proof fn lemma_clipped(field: Seq<char>, w: int)
    requires
        1 <= w,
    ensures
        shows_field(clipped(field, w), 0, w, field),
        clipped(field, w).len() <= w,
        clipped(field, w).len() <= field.len(),
{
    let t = clipped(field, w);
    assert forall|k: int| 0 <= k < t.len() implies (#[trigger] t[0 + k]) as u32 == if k == w - 1 && field.len() > w {
        0x2026
    } else {
        pictured(field[k])
    } by {
        if field.len() <= w {
            assert(t[k] == glyph(field[k]));
            lemma_pictured(field[k]);
        } else if k < w - 1 {
            assert(t[k] == glyphs(field.take(w - 1))[k]);
            lemma_pictured(field[k]);
        }
    }
}

/// Cell `i` meets the visible columns.
pub open spec fn is_shown(widths: Seq<u32>, i: int, vis_start: int, vis_end: int) -> bool {
    origin_of(widths, i) + widths[i] >= vis_start && origin_of(widths, i) <= vis_end
}

pub open spec fn cell_field(cells: Seq<(u32, u32)>, bytes: Seq<u8>, i: int) -> Seq<char> {
    shown_text(bytes.subrange(cells[i].0 as int, cells[i].1 as int))
}

/// The cells before `i` that meet the visible columns are in the row.
spec fn row_holds(
    widths: Seq<u32>,
    cells: Seq<(u32, u32)>,
    bytes: Seq<u8>,
    vis_start: int,
    vis_end: int,
    i: int,
    row: RowState,
) -> bool {
    &&& row.base is None ==> row.text.len() == 0
    &&& forall|k: int|
        0 <= k < i && #[trigger] is_shown(widths, k, vis_start, vis_end) ==> row.base is Some && shows_field(
            row.text,
            origin_of(widths, k) - row.base->0,
            widths[k] as int,
            cell_field(cells, bytes, k),
        )
    &&& row.base matches Some(b) ==> b <= origin_of(widths, i) && (i < widths.len() ==> row.text.len() <= origin_of(
        widths,
        i,
    ) - b)
}

proof fn lemma_row(
    widths: Seq<u32>,
    cells: Seq<(u32, u32)>,
    bytes: Seq<u8>,
    is_header: bool,
    vis_start: int,
    vis_end: int,
    i: int,
    row: RowState,
)
    requires
        0 <= i <= cells.len() <= widths.len(),
        forall|k: int| 0 <= k < widths.len() ==> 1 <= #[trigger] widths[k],
        row_holds(widths, cells, bytes, vis_start, vis_end, i, row),
    ensures
        ({
            let done = row_from(widths, cells, bytes, is_header, vis_start, vis_end, i, row);
            forall|k: int|
                0 <= k < cells.len() && #[trigger] is_shown(widths, k, vis_start, vis_end) ==> done.base is Some
                    && shows_field(
                    done.text,
                    origin_of(widths, k) - done.base->0,
                    widths[k] as int,
                    cell_field(cells, bytes, k),
                )
        }),
    decreases cells.len() - i,
{
    if i < cells.len() {
        let origin = origin_of(widths, i);
        lemma_origins_increase(widths, i, i + 1);
        if origin + widths[i] < vis_start {
            lemma_row(widths, cells, bytes, is_header, vis_start, vis_end, i + 1, row);
        } else if origin > vis_end {
            assert forall|k: int| i <= k < cells.len() implies !#[trigger] is_shown(widths, k, vis_start, vis_end) by {
                if k > i {
                    lemma_origins_increase(widths, i, k);
                }
            }
        } else {
            let raw = bytes.subrange(cells[i].0 as int, cells[i].1 as int);
            let field = cell_field(cells, bytes, i);
            let kind = crate::format::csv::cell_kind(is_header, raw);
            let next = with_cell(row, origin, widths[i] as int, field, kind);
            assert(1 <= widths[i]);
            lemma_clipped(field, widths[i] as int);
            let base = next.base->0;
            let shown = clipped(field, widths[i] as int);
            let at = origin - base;
            assert(next.text.len() == at + shown.len());
            assert(shows_field(next.text, at, widths[i] as int, field)) by {
                assert forall|k: int| 0 <= k < shown.len() implies (#[trigger] next.text[at + k]) == shown[0 + k] by {}
            }
            assert forall|k: int| 0 <= k < i && #[trigger] is_shown(
                widths,
                k,
                vis_start,
                vis_end,
            ) implies shows_field(next.text, origin_of(widths, k) - base, widths[k] as int, cell_field(cells, bytes, k)) by {
                let f = cell_field(cells, bytes, k);
                let a = origin_of(widths, k) - base;
                assert(shows_field(row.text, a, widths[k] as int, f));
                let n = if f.len() <= widths[k] {
                    f.len() as int
                } else {
                    widths[k] as int
                };
                assert forall|j: int| 0 <= j < n implies (#[trigger] next.text[a + j]) == row.text[a + j] by {}
            }
            lemma_row(widths, cells, bytes, is_header, vis_start, vis_end, i + 1, next);
        }
    }
}

/// Every cell that meets the visible columns is drawn at its column,
/// counted from the first cell drawn: its characters, control characters
/// as pictures, up to the column's width, the last one an ellipsis where
/// more would follow.
pub proof fn law_row_shows_cells(
    widths: Seq<u32>,
    cells: Seq<(u32, u32)>,
    bytes: Seq<u8>,
    is_header: bool,
    vis_start: int,
    vis_end: int,
    k: int,
)
    requires
        cells.len() <= widths.len(),
        forall|k: int| 0 <= k < widths.len() ==> 1 <= #[trigger] widths[k],
        0 <= k < cells.len(),
        is_shown(widths, k, vis_start, vis_end),
    ensures
        ({
            let row = row_from(widths, cells, bytes, is_header, vis_start, vis_end, 0, empty_row());
            row.base is Some && shows_field(
                row.text,
                origin_of(widths, k) - row.base->0,
                widths[k] as int,
                cell_field(cells, bytes, k),
            )
        }),
{
    lemma_row(widths, cells, bytes, is_header, vis_start, vis_end, 0, empty_row());
}

/// A column starts behind the one before it and a gutter of two.
pub proof fn law_column_origins(widths: Seq<u32>, i: int)
    requires
        0 <= i < widths.len(),
    ensures
        origin_of(widths, 0) == 0,
        origin_of(widths, i + 1) == origin_of(widths, i) + widths[i] + 2,
{
}

// --- numbers --------------------------------------------------------

/// A number as it is written in a field.
pub struct FieldNumber {
    pub sign: Option<u8>,
    pub whole: Seq<u8>,
    pub dot: bool,
    pub fraction: Seq<u8>,
    pub exponent: Option<(u8, Option<u8>, Seq<u8>)>,
}

impl FieldNumber {
    pub open spec fn valid(self) -> bool {
        &&& self.sign matches Some(b) ==> b == 0x2b || b == 0x2d
        &&& self.whole.len() == 0 || are_digits(self.whole)
        &&& self.fraction.len() == 0 || are_digits(self.fraction)
        &&& !self.dot ==> self.fraction.len() == 0
        &&& self.whole.len() + self.fraction.len() > 0
        &&& self.exponent matches Some((marker, sign, d)) ==> {
            &&& marker == 0x65 || marker == 0x45
            &&& sign matches Some(b) ==> b == 0x2b || b == 0x2d
            &&& are_digits(d)
        }
    }

    pub open spec fn sign_text(self) -> Seq<u8> {
        match self.sign {
            Some(b) => seq![b],
            None => Seq::empty(),
        }
    }

    pub open spec fn dot_text(self) -> Seq<u8> {
        if self.dot {
            seq![0x2eu8] + self.fraction
        } else {
            Seq::empty()
        }
    }

    pub open spec fn exponent_text(self) -> Seq<u8> {
        match self.exponent {
            Some((marker, Some(sign), d)) => seq![marker, sign] + d,
            Some((marker, None, d)) => seq![marker] + d,
            None => Seq::empty(),
        }
    }

    pub open spec fn text(self) -> Seq<u8> {
        self.sign_text() + (self.whole + (self.dot_text() + self.exponent_text()))
    }
}

/// ASCII white space: space, tab, line feed, carriage return, form feed.
pub open spec fn is_ascii_white(x: Seq<u8>) -> bool {
    forall|i: int|
        0 <= i < x.len() ==> (#[trigger] x[i]) == 0x20 || x[i] == 0x09 || x[i] == 0x0a || x[i] == 0x0d || x[i] == 0x0c
}

proof fn lemma_trim_front(s: Seq<u8>, n: int, i: int)
    requires
        0 <= i <= n < s.len(),
        forall|k: int|
            0 <= k < n ==> (#[trigger] s[k]) == 0x20 || s[k] == 0x09 || s[k] == 0x0a || s[k] == 0x0d || s[k] == 0x0c,
        0x21 <= s[n] <= 0x7e,
    ensures
        trim_start_from(s, i) == n,
    decreases n - i,
{
    if i < n {
        assert(s[i] == 0x20 || s[i] == 0x09 || s[i] == 0x0a || s[i] == 0x0d || s[i] == 0x0c);
        lemma_trim_front(s, n, i + 1);
    }
}

proof fn lemma_digit_run(s: Seq<u8>, p: int, d: Seq<u8>)
    requires
        stands(s, p, d),
        d.len() == 0 || are_digits(d),
        p + d.len() < s.len() ==> !(0x30 <= s[p + d.len()] <= 0x39),
    ensures
        skip_digits_from(s, p) == p + d.len(),
{
    lemma_skip_digits_bounds(s, p);
    let q = skip_digits_from(s, p);
    if q < p + d.len() {
        lemma_stands_byte(s, p, d, q - p);
    }
}

proof fn lemma_trim_back(s: Seq<u8>, lo: int, at: int, hi: int)
    requires
        0 <= lo < at <= hi <= s.len(),
        forall|k: int|
            at <= k < hi ==> (#[trigger] s[k]) == 0x20 || s[k] == 0x09 || s[k] == 0x0a || s[k] == 0x0d || s[k] == 0x0c,
        0x21 <= s[at - 1] <= 0x7e,
    ensures
        trim_end_from(s, lo, hi) == at,
    decreases hi - at,
{
    if at < hi {
        assert(s[hi - 1] == 0x20 || s[hi - 1] == 0x09 || s[hi - 1] == 0x0a || s[hi - 1] == 0x0d || s[hi - 1] == 0x0c);
        lemma_trim_back(s, lo, at, hi - 1);
    }
}

/// Trimming bytes takes ASCII white space off at both ends.
pub proof fn law_trimmed(lead: Seq<u8>, x: Seq<u8>, tail: Seq<u8>)
    requires
        is_ascii_white(lead),
        is_ascii_white(tail),
        x.len() > 0,
        0x21 <= x[0] <= 0x7e,
        0x21 <= x.last() <= 0x7e,
    ensures
        trimmed(lead + x + tail) == x,
{
    let s = lead + x + tail;
    let n = lead.len() as int;
    let e = n + x.len();
    assert(s[n] == x[0]);
    assert(s[e - 1] == x.last());
    assert forall|k: int| 0 <= k < n implies (#[trigger] s[k]) == 0x20 || s[k] == 0x09 || s[k] == 0x0a || s[k] == 0x0d
        || s[k] == 0x0c by {
        assert(s[k] == lead[k]);
    }
    lemma_trim_front(s, n, 0);
    assert forall|k: int| e <= k < s.len() implies (#[trigger] s[k]) == 0x20 || s[k] == 0x09 || s[k] == 0x0a || s[k]
        == 0x0d || s[k] == 0x0c by {
        assert(s[k] == tail[k - e]);
    }
    lemma_trim_back(s, n, e, s.len() as int);
    assert(s.subrange(n, e) =~= x);
}

proof fn lemma_exponent(t: Seq<u8>, e: int, n: FieldNumber)
    requires
        n.valid(),
        n.exponent is Some,
        stands(t, e, n.exponent_text()),
        e + n.exponent_text().len() == t.len(),
    ensures
        e < t.len(),
        t[e] == 0x65 || t[e] == 0x45,
        exponent_digits(t, e + 1),
        0x30 <= t.last() <= 0x39,
{
    let x = n.exponent_text();
    lemma_stands_byte(t, e, x, 0);
    lemma_stands_byte(t, e, x, 1);
    lemma_stands_byte(t, e, x, x.len() - 1);
    match n.exponent {
        Some((marker, Some(sign), d)) => {
            assert(x.last() == d.last());
            lemma_stands_parts(t, e, seq![marker, sign], d);
            lemma_digit_run(t, e + 2, d);
        },
        Some((marker, None, d)) => {
            assert(x.last() == d.last());
            assert(x[1] == d[0]);
            lemma_stands_parts(t, e, seq![marker], d);
            lemma_digit_run(t, e + 1, d);
        },
        None => {},
    }
}

/// The parts of a written number.
proof fn lemma_number_parts(t: Seq<u8>, n: FieldNumber)
    requires
        n.valid(),
        t == n.text(),
    ensures
        ({
            let a = n.sign_text().len() as int;
            let w = a + n.whole.len();
            let e = w + n.dot_text().len();
            &&& sign_end(t, 0) == a
            &&& skip_digits_from(t, a) == w
            &&& byte_at(t, w) == Some(0x2eu8) <==> n.dot
            &&& n.dot ==> skip_digits_from(t, w + 1) == e
            &&& stands(t, e, n.exponent_text())
            &&& e + n.exponent_text().len() == t.len()
            &&& t.len() > 0 && 0x21 <= t[0] <= 0x7e
            &&& n.exponent is None ==> 0x21 <= t.last() <= 0x7e
        }),
{
    let tail = n.dot_text() + n.exponent_text();
    assert(t.subrange(0, t.len() as int) =~= t);
    lemma_stands_parts(t, 0, n.sign_text(), n.whole + tail);
    let a = n.sign_text().len() as int;
    lemma_stands_parts(t, a, n.whole, tail);
    let w = a + n.whole.len();
    lemma_stands_parts(t, w, n.dot_text(), n.exponent_text());
    let e = w + n.dot_text().len();
    let x = n.exponent_text();
    if x.len() > 0 {
        lemma_stands_byte(t, e, x, 0);
    }
    if n.dot {
        lemma_stands_byte(t, w, n.dot_text(), 0);
        lemma_stands_parts(t, w, seq![0x2eu8], n.fraction);
        lemma_digit_run(t, w + 1, n.fraction);
        if n.fraction.len() > 0 {
            lemma_stands_byte(t, w + 1, n.fraction, n.fraction.len() - 1);
        }
    }
    if n.whole.len() > 0 {
        lemma_stands_byte(t, a, n.whole, 0);
        lemma_stands_byte(t, a, n.whole, n.whole.len() - 1);
    }
    lemma_digit_run(t, a, n.whole);
    if n.sign is Some {
        lemma_stands_byte(t, 0, n.sign_text(), 0);
    }
}

/// A written number is taken for one: an optional sign, digits with at
/// most one dot before, among or behind them, and an optional exponent,
/// whatever the white space around it.
pub proof fn law_numeric(lead: Seq<u8>, n: FieldNumber, tail: Seq<u8>)
    requires
        n.valid(),
        is_ascii_white(lead),
        is_ascii_white(tail),
    ensures
        numeric(lead + n.text() + tail),
{
    let t = n.text();
    lemma_number_parts(t, n);
    if n.exponent is Some {
        let e = n.sign_text().len() + n.whole.len() + n.dot_text().len();
        lemma_exponent(t, e as int, n);
    }
    law_trimmed(lead, t, tail);
}

/// What is taken for a number holds nothing but digits, signs, dots and
/// exponent marks between its white space.
pub proof fn law_numeric_shape(field: Seq<u8>)
    requires
        numeric(field),
    ensures
        ({
            let t = trimmed(field);
            &&& forall|i: int|
                0 <= i < t.len() ==> 0x30 <= (#[trigger] t[i]) <= 0x39 || t[i] == 0x2b || t[i] == 0x2d || t[i] == 0x2e
                    || t[i] == 0x65 || t[i] == 0x45
            &&& exists|i: int| 0 <= i < t.len() && 0x30 <= #[trigger] t[i] <= 0x39
        }),
{
    let t = trimmed(field);
    let a = sign_end(t, 0);
    if t.len() == 0 {
        assert(skip_digits_from(t, 0) == 0);
        assert(a == 0);
    }
    lemma_skip_digits_bounds(t, a);
    let w = skip_digits_from(t, a);
    let dotted = byte_at(t, w) == Some(0x2eu8);
    let end = if dotted {
        skip_digits_from(t, w + 1)
    } else {
        w
    };
    if dotted {
        lemma_skip_digits_bounds(t, w + 1);
    }
    if w > a {
        assert(0x30 <= t[a] <= 0x39);
    } else {
        assert(0x30 <= t[w + 1] <= 0x39);
    }
    if end < t.len() {
        let d = sign_end(t, end + 1);
        assert(exponent_digits(t, end + 1));
        lemma_skip_digits_bounds(t, d);
    }
    assert forall|i: int| 0 <= i < t.len() implies 0x30 <= (#[trigger] t[i]) <= 0x39 || t[i] == 0x2b || t[i] == 0x2d
        || t[i] == 0x2e || t[i] == 0x65 || t[i] == 0x45 by {}
}

} // verus!
