//! Law of CSV parsing: a written table is read as its records and fields.

use vstd::prelude::*;

use crate::format::csv::{
    csv_document, csv_fields, csv_record, csv_records, csv_start, field_end, field_stop, field_value, header_name,
    noted, quoted_field_end, terminator_from, unescape_quotes, CsvState,
};
use crate::format::json_text::{is_mark, lemma_stands_byte, lemma_stands_parts, stands, Label, Mark};
use crate::format::{intern_id, interned, PathEntry, PathSegment};
use crate::text::decimal_bytes;

verus! {

// --- written tables -------------------------------------------------

/// A field as it is written down: its value, in quotes or bare, and what
/// stands behind the closing quote.
pub struct CsvText {
    pub value: Seq<u8>,
    pub in_quotes: bool,
    pub junk: Seq<u8>,
}

/// `v` with each quote written twice.
pub open spec fn quotes_twice(v: Seq<u8>) -> Seq<u8>
    decreases v.len(),
{
    if v.len() == 0 {
        Seq::empty()
    } else if v[0] == 0x22 {
        seq![0x22u8, 0x22u8] + quotes_twice(v.skip(1))
    } else {
        seq![v[0]] + quotes_twice(v.skip(1))
    }
}

impl CsvText {
    /// In quotes any value can be written; bare, one that does not start
    /// with a quote and holds no delimiter and no end of line.
    pub open spec fn valid(self, delimiter: u8) -> bool {
        if self.in_quotes {
            forall|i: int|
                0 <= i < self.junk.len() ==> (#[trigger] self.junk[i]) != delimiter && self.junk[i] != 0x0a
                    && self.junk[i] != 0x0d && self.junk[i] != 0x22
        } else {
            &&& self.junk.len() == 0
            &&& self.value.len() > 0 ==> self.value[0] != 0x22
            &&& forall|i: int|
                0 <= i < self.value.len() ==> (#[trigger] self.value[i]) != delimiter && self.value[i] != 0x0a
                    && self.value[i] != 0x0d
        }
    }

    pub open spec fn text(self) -> Seq<u8> {
        if self.in_quotes {
            seq![0x22u8] + ((quotes_twice(self.value) + seq![0x22u8]) + self.junk)
        } else {
            self.value
        }
    }

    /// What the field stands for: its value, or the text as it is where
    /// something stands behind the closing quote.
    pub open spec fn read(self) -> Seq<u8> {
        if self.junk.len() > 0 {
            self.text()
        } else {
            self.value
        }
    }
}

/// How a record ends; only the last one may end with the input, with or
/// without a carriage return.
pub enum RecordEnd {
    Feed,
    ReturnFeed,
    Return,
    Input,
}

impl RecordEnd {
    pub open spec fn text(self) -> Seq<u8> {
        match self {
            RecordEnd::Feed => seq![0x0au8],
            RecordEnd::ReturnFeed => seq![0x0du8, 0x0au8],
            RecordEnd::Return => seq![0x0du8],
            RecordEnd::Input => Seq::empty(),
        }
    }

    pub open spec fn at_input(self) -> bool {
        self is Return || self is Input
    }
}

pub struct CsvRecordText {
    pub fields: Seq<CsvText>,
    pub end: RecordEnd,
}

/// The fields, with the delimiter between them.
pub open spec fn fields_text(fields: Seq<CsvText>, delimiter: u8) -> Seq<u8>
    decreases fields.len(),
{
    if fields.len() == 0 {
        Seq::empty()
    } else if fields.len() == 1 {
        fields[0].text()
    } else {
        fields[0].text() + (seq![delimiter] + fields_text(fields.skip(1), delimiter))
    }
}

impl CsvRecordText {
    pub open spec fn valid(self, delimiter: u8) -> bool {
        &&& self.fields.len() > 0
        &&& forall|i: int| 0 <= i < self.fields.len() ==> (#[trigger] self.fields[i]).valid(delimiter)
        &&& self.text(delimiter).len() > 0
    }

    pub open spec fn text(self, delimiter: u8) -> Seq<u8> {
        fields_text(self.fields, delimiter) + self.end.text()
    }
}

pub open spec fn table_valid(rows: Seq<CsvRecordText>, delimiter: u8) -> bool {
    &&& forall|i: int| 0 <= i < rows.len() ==> (#[trigger] rows[i]).valid(delimiter)
    &&& forall|i: int| 0 <= i < rows.len() - 1 ==> !(#[trigger] rows[i]).end.at_input()
}

pub open spec fn table_text(rows: Seq<CsvRecordText>, delimiter: u8) -> Seq<u8>
    decreases rows.len(),
{
    if rows.len() == 0 {
        Seq::empty()
    } else {
        rows[0].text(delimiter) + table_text(rows.skip(1), delimiter)
    }
}

/// The names of the first `n` columns under the given header values: a
/// header's own value, or the column's number from one on where that is
/// empty or names an earlier column.
pub open spec fn column_names(header: Seq<Seq<u8>>, n: int) -> Seq<Seq<u8>>
    decreases n,
{
    if n <= 0 {
        Seq::empty()
    } else {
        let before = column_names(header, n - 1);
        before.push(
            if n <= header.len() && header[n - 1].len() > 0 && !before.contains(header[n - 1]) {
                header[n - 1]
            } else {
                decimal_bytes(n as nat)
            },
        )
    }
}

/// The name of column `j`; columns beyond the header go by their number.
pub open spec fn column_name(header: Seq<Seq<u8>>, j: int) -> Seq<u8> {
    if j < header.len() {
        column_names(header, j + 1)[j]
    } else {
        decimal_bytes((j + 1) as nat)
    }
}

pub open spec fn field_values(fields: Seq<CsvText>) -> Seq<Seq<u8>> {
    Seq::new(fields.len(), |i: int| fields[i].read())
}

/// The entries of fields written from `p` on, the first in column `col`.
pub open spec fn cell_marks(
    fields: Seq<CsvText>,
    p: int,
    parent: int,
    header: Seq<Seq<u8>>,
    col: int,
) -> Seq<Mark>
    decreases fields.len(),
{
    if fields.len() == 0 {
        Seq::empty()
    } else {
        let end = p + fields[0].text().len();
        seq![Mark { start: p, end, parent, label: Label::Key(column_name(header, col)) }] + cell_marks(
            fields.skip(1),
            end + 1,
            parent,
            header,
            col + 1,
        )
    }
}

/// The entries of record number `k` written at `p`, numbered from `next`:
/// header cells stand under the root, other cells under their row.
pub open spec fn record_marks(
    r: CsvRecordText,
    delimiter: u8,
    k: int,
    p: int,
    next: int,
    header: Seq<Seq<u8>>,
) -> Seq<Mark> {
    if k == 0 {
        cell_marks(r.fields, p, 0, header, 0)
    } else {
        seq![
            Mark {
                start: p,
                end: p + fields_text(r.fields, delimiter).len(),
                parent: 0,
                label: Label::Index(k - 1),
            },
        ] + cell_marks(r.fields, p, next, header, 0)
    }
}

pub open spec fn table_marks(
    rows: Seq<CsvRecordText>,
    delimiter: u8,
    k: int,
    p: int,
    next: int,
    header: Seq<Seq<u8>>,
) -> Seq<Mark>
    decreases rows.len(),
{
    if rows.len() == 0 {
        Seq::empty()
    } else {
        let here = record_marks(rows[0], delimiter, k, p, next, header);
        here + table_marks(
            rows.skip(1),
            delimiter,
            k + 1,
            p + rows[0].text(delimiter).len(),
            next + here.len(),
            header,
        )
    }
}

/// Where a line starts behind each record that ends in a line feed.
pub open spec fn starts_behind(rows: Seq<CsvRecordText>, delimiter: u8, p: int) -> Seq<u32>
    decreases rows.len(),
{
    if rows.len() == 0 {
        Seq::empty()
    } else {
        let q = p + rows[0].text(delimiter).len();
        let rest = starts_behind(rows.skip(1), delimiter, q);
        if rows[0].end.at_input() {
            rest
        } else {
            seq![q as u32] + rest
        }
    }
}

// --- fields ---------------------------------------------------------

proof fn lemma_quotes_closed(s: Seq<u8>, p: int, v: Seq<u8>)
    requires
        stands(s, p, quotes_twice(v) + seq![0x22u8]),
        p + quotes_twice(v).len() + 1 < s.len() ==> s[p + quotes_twice(v).len() + 1] != 0x22,
    ensures
        quoted_field_end(s, p) == p + quotes_twice(v).len() + 1,
    decreases v.len(),
{
    let x = quotes_twice(v) + seq![0x22u8];
    lemma_stands_byte(s, p, x, 0);
    if v.len() == 0 {
        assert(x[0] == 0x22);
    } else {
        let rest = quotes_twice(v.skip(1));
        if v[0] == 0x22 {
            lemma_stands_byte(s, p, x, 1);
            assert(x =~= seq![0x22u8, 0x22u8] + (rest + seq![0x22u8]));
            lemma_stands_parts(s, p, seq![0x22u8, 0x22u8], rest + seq![0x22u8]);
            lemma_quotes_closed(s, p + 2, v.skip(1));
        } else {
            assert(x =~= seq![v[0]] + (rest + seq![0x22u8]));
            lemma_stands_parts(s, p, seq![v[0]], rest + seq![0x22u8]);
            lemma_quotes_closed(s, p + 1, v.skip(1));
        }
    }
}

proof fn lemma_quotes_single(v: Seq<u8>, i: int)
    requires
        0 <= i <= v.len(),
    ensures
        forall|s: Seq<u8>, p: int|
            0 <= p && p <= s.len() && #[trigger] s.skip(p) == quotes_twice(v.skip(i)) ==> unescape_quotes(s, p)
                == v.skip(i),
    decreases v.len() - i,
{
    let w = v.skip(i);
    assert forall|s: Seq<u8>, p: int|
        0 <= p && p <= s.len() && #[trigger] s.skip(p) == quotes_twice(w) implies unescape_quotes(s, p) == w by {
        if i < v.len() {
            assert(w.skip(1) =~= v.skip(i + 1));
            lemma_quotes_single(v, i + 1);
            let x = quotes_twice(w);
            assert(w.len() > 0);
            assert(x.len() > 0);
            assert(s.skip(p).len() == x.len());
            assert(s[p] == s.skip(p)[0]);
            if w[0] == 0x22 {
                assert(s[p + 1] == s.skip(p)[1]);
                assert(s.skip(p + 2) =~= s.skip(p).skip(2));
                assert(x.skip(2) =~= quotes_twice(w.skip(1)));
            } else {
                assert(s.skip(p + 1) =~= s.skip(p).skip(1));
                assert(x.skip(1) =~= quotes_twice(w.skip(1)));
            }
            assert(w =~= seq![w[0]] + w.skip(1));
        } else {
            assert(w =~= Seq::empty());
            assert(s.skip(p).len() == 0);
        }
    }
}

/// A written field has the value that was written; with something behind
/// its closing quote it stands for its text.
pub proof fn law_csv_field_value(f: CsvText, delimiter: u8)
    requires
        f.valid(delimiter),
    ensures
        field_value(f.text()) == f.read(),
{
    if f.in_quotes && f.junk.len() > 0 {
        let t = f.text();
        assert(t.last() == f.junk.last());
        assert(f.junk[f.junk.len() - 1] != 0x22);
    } else if f.in_quotes {
        let x = quotes_twice(f.value);
        let t = f.text();
        assert(t.subrange(1, t.len() - 1) =~= x);
        assert(t[0] == 0x22 && t.last() == 0x22);
        assert(f.value.skip(0) =~= f.value);
        assert(x.skip(0) =~= x);
        lemma_quotes_single(f.value, 0);
        assert(unescape_quotes(x, 0) == f.value.skip(0));
    }
}

/// What follows a field at `q`: the delimiter, an end of line, or the end
/// of the input.
spec fn ends_field(s: Seq<u8>, q: int, delimiter: u8) -> bool {
    ||| q == s.len()
    ||| q < s.len() && (s[q] == delimiter || s[q] == 0x0a)
    ||| q + 1 < s.len() && s[q] == 0x0d && s[q + 1] == 0x0a
    ||| q + 1 == s.len() && s[q] == 0x0d
}

spec fn stop_behind(s: Seq<u8>, q: int, delimiter: u8) -> int {
    if q < s.len() && s[q] != delimiter && s[q] == 0x0d {
        q + 1
    } else {
        q
    }
}

proof fn lemma_bare(s: Seq<u8>, p: int, v: Seq<u8>, delimiter: u8)
    requires
        stands(s, p, v),
        forall|i: int| 0 <= i < v.len() ==> (#[trigger] v[i]) != delimiter && v[i] != 0x0a,
        ends_field(s, p + v.len(), delimiter),
    ensures
        terminator_from(s, p, delimiter) == stop_behind(s, p + v.len(), delimiter),
    decreases v.len(),
{
    if v.len() > 0 {
        lemma_stands_byte(s, p, v, 0);
        assert(v =~= seq![v[0]] + v.skip(1));
        lemma_stands_parts(s, p, seq![v[0]], v.skip(1));
        lemma_bare(s, p + 1, v.skip(1), delimiter);
    } else if p < s.len() && s[p] != delimiter && s[p] == 0x0d {
        assert(terminator_from(s, p + 1, delimiter) == p + 1);
    }
}

/// A written field ends where its text does.
proof fn lemma_field(s: Seq<u8>, p: int, f: CsvText, delimiter: u8)
    requires
        f.valid(delimiter),
        stands(s, p, f.text()),
        delimiter != 0x22 && delimiter != 0x0a && delimiter != 0x0d,
        ends_field(s, p + f.text().len(), delimiter),
    ensures
        field_stop(s, p, delimiter) == stop_behind(s, p + f.text().len(), delimiter),
        field_end(s, p, delimiter) == p + f.text().len(),
{
    let q = p + f.text().len();
    if f.in_quotes {
        let inner = quotes_twice(f.value) + seq![0x22u8];
        lemma_stands_byte(s, p, f.text(), 0);
        lemma_stands_parts(s, p, seq![0x22u8], inner + f.junk);
        lemma_stands_parts(s, p + 1, inner, f.junk);
        let j = p + 1 + inner.len();
        if f.junk.len() > 0 {
            lemma_stands_byte(s, j, f.junk, 0);
        }
        lemma_quotes_closed(s, p + 1, f.value);
        lemma_bare(s, j, f.junk, delimiter);
        lemma_stands_byte(s, p, f.text(), f.text().len() - 1);
        if f.junk.len() > 0 {
            assert(f.text().last() == f.junk[f.junk.len() - 1]);
        } else {
            assert(f.text().last() == 0x22);
        }
    } else {
        if f.value.len() > 0 {
            lemma_stands_byte(s, p, f.value, 0);
            lemma_stands_byte(s, p, f.value, f.value.len() - 1);
        }
        lemma_bare(s, p, f.value, delimiter);
    }
}

// --- records --------------------------------------------------------

/// The columns known so far go by their names.
spec fn columns_named(c: CsvState, header: Seq<Seq<u8>>) -> bool {
    &&& c.st.names.no_duplicates()
    &&& c.st.names.len() <= c.st.paths.len()
    &&& forall|i: int|
        0 <= i < c.keys.len() ==> (#[trigger] c.keys[i]) < c.st.names.len() && c.st.names[c.keys[i] as int]
            == column_name(header, i)
}

/// From `c` the entries `marks` were added and the lines `lines`.
spec fn adds(c: CsvState, to: CsvState, pos: int, marks: Seq<Mark>, lines: Seq<u32>) -> bool {
    let n = c.st.paths.len() as int;
    &&& to.st.pos == pos
    &&& to.lines == c.lines + lines
    &&& to.st.paths.len() == n + marks.len()
    &&& forall|i: int| 0 <= i < n ==> (#[trigger] to.st.paths[i]) == c.st.paths[i]
    &&& forall|i: int| 0 <= i < marks.len() ==> is_mark(#[trigger] to.st.paths[n + i], to.st.names, marks[i])
    &&& c.st.names.len() <= to.st.names.len()
    &&& forall|i: int| 0 <= i < c.st.names.len() ==> (#[trigger] c.st.names[i]) == to.st.names[i]
}

proof fn lemma_adds_trans(
    a: CsvState,
    b: CsvState,
    c: CsvState,
    bpos: int,
    cpos: int,
    m1: Seq<Mark>,
    m2: Seq<Mark>,
    l1: Seq<u32>,
    l2: Seq<u32>,
)
    requires
        adds(a, b, bpos, m1, l1),
        adds(b, c, cpos, m2, l2),
    ensures
        adds(a, c, cpos, m1 + m2, l1 + l2),
{
    let n = a.st.paths.len() as int;
    assert(c.lines =~= a.lines + (l1 + l2));
    assert forall|i: int| 0 <= i < n implies (#[trigger] c.st.paths[i]) == a.st.paths[i] by {
        assert(c.st.paths[i] == b.st.paths[i]);
    }
    let m = m1 + m2;
    assert forall|i: int| 0 <= i < m.len() implies is_mark(#[trigger] c.st.paths[n + i], c.st.names, m[i]) by {
        if i < m1.len() {
            assert(c.st.paths[n + i] == b.st.paths[n + i]);
            assert(is_mark(b.st.paths[n + i], b.st.names, m1[i]));
            assert(m[i] == m1[i]);
            if let PathSegment::Key(id) = b.st.paths[n + i].segment {
                if m1[i].label is Key {
                    assert(b.st.names[id as int] == c.st.names[id as int]);
                }
            }
        } else {
            let k = i - m1.len();
            assert(c.st.paths[b.st.paths.len() + k] == c.st.paths[n + i]);
            assert(m[i] == m2[k]);
        }
    }
    assert forall|i: int| 0 <= i < a.st.names.len() implies (#[trigger] a.st.names[i]) == c.st.names[i] by {
        assert(b.st.names[i] == a.st.names[i]);
    }
}

proof fn lemma_interned(names: Seq<Seq<u8>>, name: Seq<u8>)
    requires
        names.no_duplicates(),
    ensures
        0 <= intern_id(names, name) < interned(names, name).len(),
        interned(names, name)[intern_id(names, name)] == name,
        interned(names, name).no_duplicates(),
        names.len() <= interned(names, name).len() <= names.len() + 1,
        forall|i: int| 0 <= i < names.len() ==> (#[trigger] names[i]) == interned(names, name)[i],
{
}

/// The column's name is the one that the header rule gives it.
proof fn lemma_header_name(c: CsvState, header: Seq<Seq<u8>>, col: int)
    requires
        columns_named(c, header),
        0 <= col == c.keys.len(),
        col < header.len(),
        c.st.names.len() < u32::MAX,
    ensures
        header_name(c, col, header[col]) == column_name(header, col),
{
    let value = header[col];
    let before = column_names(header, col);
    lemma_column_names(header, col);
    let id = intern_id(c.st.names, value);
    if before.contains(value) {
        let i = before.index_of(value);
        assert(column_name(header, i) == value);
        assert(c.st.names[c.keys[i] as int] == value);
        assert(c.st.names.contains(value));
        assert(id == c.keys[i]);
        assert(c.keys.contains(id as u32));
    } else if c.keys.contains(id as u32) {
        let i = c.keys.index_of(id as u32);
        assert(c.keys[i] == id);
        assert(c.st.names[id] == value);
        assert(before[i] == column_name(header, i));
        assert(before.contains(value));
    }
    assert(column_names(header, col + 1).last() == column_names(header, col + 1)[col]);
}

proof fn lemma_column_names(header: Seq<Seq<u8>>, n: int)
    requires
        0 <= n <= header.len(),
    ensures
        column_names(header, n).len() == n,
        forall|i: int| 0 <= i < n ==> (#[trigger] column_names(header, n)[i]) == column_name(header, i),
    decreases n,
{
    if n > 0 {
        lemma_column_names(header, n - 1);
        let all = column_names(header, n);
        let before = column_names(header, n - 1);
        assert forall|i: int| 0 <= i < n implies (#[trigger] all[i]) == column_name(header, i) by {
            if i < n - 1 {
                assert(all[i] == before[i]);
            }
        }
    }
}

/// Noting a field adds its entry.
proof fn lemma_noted_field(
    s: Seq<u8>,
    c: CsvState,
    is_header: bool,
    parent: u32,
    col: int,
    f: CsvText,
    delimiter: u8,
    header: Seq<Seq<u8>>,
)
    requires
        s.len() < u32::MAX,
        f.valid(delimiter),
        stands(s, c.st.pos, f.text()),
        columns_named(c, header),
        is_header ==> parent == 0 && col == c.keys.len() && col < header.len() && header[col] == f.read(),
        !is_header ==> header.len() <= c.keys.len(),
        0 <= col <= c.keys.len(),
        c.st.paths.len() < u32::MAX,
    ensures
        ({
            let e = c.st.pos + f.text().len();
            let after = noted(s, c, is_header, parent, col, c.st.pos, e);
            &&& adds(
                c,
                after,
                c.st.pos,
                seq![Mark { start: c.st.pos, end: e, parent: parent as int, label: Label::Key(column_name(header, col)) }],
                Seq::empty(),
            )
            &&& columns_named(after, header)
            &&& after.keys.len() == if col == c.keys.len() {
                c.keys.len() + 1
            } else {
                c.keys.len()
            }
        }),
{
    let a = c.st.pos;
    let e = a + f.text().len();
    let raw = s.subrange(a, e);
    assert(raw == f.text());
    law_csv_field_value(f, delimiter);
    let after = noted(s, c, is_header, parent, col, a, e);
    assert(c.lines + Seq::<u32>::empty() =~= c.lines);
    let mark = Mark { start: a, end: e, parent: parent as int, label: Label::Key(column_name(header, col)) };
    if is_header {
        lemma_header_name(c, header, col);
    }
    if is_header || col >= c.keys.len() {
        let name = column_name(header, col);
        lemma_interned(c.st.names, name);
        assert(after.st.names == interned(c.st.names, name));
        assert forall|i: int| 0 <= i < after.keys.len() implies (#[trigger] after.keys[i]) < after.st.names.len()
            && after.st.names[after.keys[i] as int] == column_name(header, i) by {
            if i < c.keys.len() {
                assert(after.keys[i] == c.keys[i]);
                assert(c.st.names[c.keys[i] as int] == after.st.names[c.keys[i] as int]);
            }
        }
    } else {
        assert(c.st.names[c.keys[col] as int] == column_name(header, col));
    }
    assert(is_mark(after.st.paths[c.st.paths.len() as int], after.st.names, mark));
}

proof fn lemma_fields_skip(fields: Seq<CsvText>, delimiter: u8)
    requires
        forall|i: int| 0 <= i < fields.len() ==> (#[trigger] fields[i]).valid(delimiter),
        fields.len() > 0,
    ensures
        forall|i: int| 0 <= i < fields.skip(1).len() ==> (#[trigger] fields.skip(1)[i]).valid(delimiter),
{
    assert forall|i: int| 0 <= i < fields.skip(1).len() implies (#[trigger] fields.skip(1)[i]).valid(delimiter) by {
        assert(fields.skip(1)[i] == fields[i + 1]);
    }
}

/// What a record's end adds to the line starts.
spec fn line_behind(end: RecordEnd, q: int) -> Seq<u32> {
    if end.at_input() {
        Seq::empty()
    } else {
        seq![q as u32]
    }
}

proof fn lemma_fields_read(
    s: Seq<u8>,
    delimiter: u8,
    c: CsvState,
    is_header: bool,
    parent: u32,
    col: int,
    fields: Seq<CsvText>,
    end: RecordEnd,
    header: Seq<Seq<u8>>,
)
    requires
        s.len() < u32::MAX,
        delimiter != 0x22 && delimiter != 0x0a && delimiter != 0x0d,
        fields.len() > 0,
        forall|i: int| 0 <= i < fields.len() ==> (#[trigger] fields[i]).valid(delimiter),
        stands(s, c.st.pos, fields_text(fields, delimiter) + end.text()),
        end.at_input() ==> c.st.pos + fields_text(fields, delimiter).len() + end.text().len() == s.len(),
        columns_named(c, header),
        0 <= col <= c.keys.len(),
        is_header ==> parent == 0 && col == c.keys.len() && col + fields.len() == header.len() && (forall|i: int|
            0 <= i < fields.len() ==> header[col + i] == (#[trigger] fields[i]).read()),
        !is_header ==> header.len() <= c.keys.len(),
        c.st.paths.len() + fields_text(fields, delimiter).len() + 1 <= u32::MAX,
    ensures
        ({
            let q = c.st.pos + fields_text(fields, delimiter).len() + end.text().len();
            let (after, stop) = csv_fields(s, delimiter, c, is_header, parent, col);
            &&& adds(c, after, q, cell_marks(fields, c.st.pos, parent as int, header, col), line_behind(end, q))
            &&& stop == c.st.pos + fields_text(fields, delimiter).len()
            &&& columns_named(after, header)
            &&& c.keys.len() <= after.keys.len()
            &&& is_header ==> after.keys.len() == header.len()
            &&& cell_marks(fields, c.st.pos, parent as int, header, col).len() <= fields_text(fields, delimiter).len()
                + 1
        }),
    decreases fields.len(),
{
    let p = c.st.pos;
    let f = fields[0];
    let e = p + f.text().len();
    let after = noted(s, c, is_header, parent, col, p, e);
    let mark = Mark { start: p, end: e, parent: parent as int, label: Label::Key(column_name(header, col)) };
    lemma_noted_prepare(s, c, fields, end, delimiter);
    lemma_field(s, p, f, delimiter);
    if is_header {
        assert(header[col + 0] == fields[0].read());
    }
    lemma_noted_field(s, c, is_header, parent, col, f, delimiter, header);
    let rest = fields.skip(1);
    let marks = cell_marks(fields, p, parent as int, header, col);
    if fields.len() == 1 {
        assert(cell_marks(rest, e + 1, parent as int, header, col + 1) =~= Seq::empty());
        assert(marks =~= seq![mark]);
        let q = e + end.text().len();
        lemma_adds_end(s, c, after, mark, end, q);
    } else {
        lemma_fields_skip(fields, delimiter);
        let next = after.at(e + 1);
        if is_header {
            assert forall|i: int| 0 <= i < rest.len() implies header[col + 1 + i] == (#[trigger] rest[i]).read() by {
                assert(rest[i] == fields[i + 1]);
            }
        }
        lemma_fields_read(s, delimiter, next, is_header, parent, col + 1, rest, end, header);
        let q = next.st.pos + fields_text(rest, delimiter).len() + end.text().len();
        let last = csv_fields(s, delimiter, next, is_header, parent, col + 1).0;
        let m2 = cell_marks(rest, e + 1, parent as int, header, col + 1);
        assert(adds(c, next, e + 1, seq![mark], Seq::empty()));
        lemma_adds_trans(c, next, last, e + 1, q, seq![mark], m2, Seq::empty(), line_behind(end, q));
        assert(Seq::<u32>::empty() + line_behind(end, q) =~= line_behind(end, q));
    }
}

proof fn lemma_adds_end(s: Seq<u8>, c: CsvState, after: CsvState, mark: Mark, end: RecordEnd, q: int)
    requires
        adds(c, after, c.st.pos, seq![mark], Seq::empty()),
    ensures
        end.at_input() ==> adds(c, after.at(q), q, seq![mark], line_behind(end, q)),
        !end.at_input() ==> adds(
            c,
            (CsvState { lines: c.lines.push(q as u32), ..after.at(q) }),
            q,
            seq![mark],
            line_behind(end, q),
        ),
{
    assert(c.lines.push(q as u32) =~= c.lines + seq![q as u32]);
}

/// The first field stands at the position and what follows ends it.
proof fn lemma_noted_prepare(s: Seq<u8>, c: CsvState, fields: Seq<CsvText>, end: RecordEnd, delimiter: u8)
    requires
        fields.len() > 0,
        stands(s, c.st.pos, fields_text(fields, delimiter) + end.text()),
        end.at_input() ==> c.st.pos + fields_text(fields, delimiter).len() + end.text().len() == s.len(),
    ensures
        stands(s, c.st.pos, fields[0].text()),
        ends_field(s, c.st.pos + fields[0].text().len(), delimiter),
        fields.len() > 1 ==> s[(c.st.pos + fields[0].text().len()) as int] == delimiter && stands(
            s,
            c.st.pos + fields[0].text().len() + 1,
            fields_text(fields.skip(1), delimiter) + end.text(),
        ),
        fields.len() == 1 ==> stands(s, c.st.pos + fields[0].text().len(), end.text()) && (end is Feed
            ==> s[(c.st.pos + fields[0].text().len()) as int] == 0x0a) && (end is Return
            ==> s[(c.st.pos + fields[0].text().len()) as int] == 0x0d) && (end is ReturnFeed
            ==> s[(c.st.pos + fields[0].text().len()) as int] == 0x0d && s[(c.st.pos + fields[0].text().len()
            + 1) as int] == 0x0a),
{
    let p = c.st.pos;
    let f = fields[0];
    let e = p + f.text().len();
    if fields.len() == 1 {
        lemma_stands_parts(s, p, f.text(), end.text());
        match end {
            RecordEnd::Feed => {
                lemma_stands_byte(s, e, end.text(), 0);
            },
            RecordEnd::ReturnFeed => {
                lemma_stands_byte(s, e, end.text(), 0);
                lemma_stands_byte(s, e, end.text(), 1);
            },
            RecordEnd::Return => {
                lemma_stands_byte(s, e, end.text(), 0);
            },
            RecordEnd::Input => {},
        }
    } else {
        let tail = fields_text(fields.skip(1), delimiter) + end.text();
        assert(fields_text(fields, delimiter) + end.text() =~= f.text() + (seq![delimiter] + tail));
        lemma_stands_parts(s, p, f.text(), seq![delimiter] + tail);
        lemma_stands_parts(s, e, seq![delimiter], tail);
        lemma_stands_byte(s, e, seq![delimiter], 0);
    }
}

// --- tables ---------------------------------------------------------

/// One record is read.
proof fn lemma_record_read(
    s: Seq<u8>,
    delimiter: u8,
    c: CsvState,
    k: int,
    r: CsvRecordText,
    header: Seq<Seq<u8>>,
)
    requires
        s.len() < u32::MAX,
        delimiter != 0x22 && delimiter != 0x0a && delimiter != 0x0d,
        r.valid(delimiter),
        stands(s, c.st.pos, r.text(delimiter)),
        r.end.at_input() ==> c.st.pos + r.text(delimiter).len() == s.len(),
        columns_named(c, header),
        0 <= k < u32::MAX,
        k == 0 ==> c.keys.len() == 0 && header == field_values(r.fields),
        k > 0 ==> header.len() <= c.keys.len(),
        c.st.paths.len() > 0,
        c.st.paths.len() + 2 * r.text(delimiter).len() + 2 <= u32::MAX,
    ensures
        ({
            let q = c.st.pos + r.text(delimiter).len();
            let after = csv_record(s, delimiter, c, k);
            let marks = record_marks(r, delimiter, k, c.st.pos, c.st.paths.len() as int, header);
            &&& adds(c, after, q, marks, line_behind(r.end, q))
            &&& columns_named(after, header)
            &&& header.len() <= after.keys.len()
            &&& marks.len() <= r.text(delimiter).len() + 2
        }),
{
    let p = c.st.pos;
    let q = p + r.text(delimiter).len();
    let n = c.st.paths.len() as int;
    if k == 0 {
        assert forall|i: int| 0 <= i < r.fields.len() implies header[0 + i] == (#[trigger] r.fields[i]).read() by {}
        lemma_fields_read(s, delimiter, c, true, 0, 0, r.fields, r.end, header);
    } else {
        let seg = PathSegment::Index((k - 1) as u32);
        let opened = CsvState { st: c.st.opened(p, 0, seg), ..c };
        lemma_fields_read(s, delimiter, opened, false, n as u32, 0, r.fields, r.end, header);
        let (after, end) = csv_fields(s, delimiter, opened, false, n as u32, 0);
        let closed = CsvState { st: after.st.closed_at(n, end), ..after };
        let cells = cell_marks(r.fields, p, n, header, 0);
        let row = Mark { start: p, end, parent: 0, label: Label::Index(k - 1) };
        let marks = seq![row] + cells;
        assert(after.st.paths[n] == opened.st.paths[n]);
        assert forall|i: int| 0 <= i < n implies (#[trigger] closed.st.paths[i]) == c.st.paths[i] by {
            assert(after.st.paths[i] == opened.st.paths[i]);
        }
        assert forall|i: int| 0 <= i < marks.len() implies is_mark(
            #[trigger] closed.st.paths[n + i],
            closed.st.names,
            marks[i],
        ) by {
            if i > 0 {
                assert(is_mark(after.st.paths[opened.st.paths.len() + (i - 1)], after.st.names, cells[i - 1]));
                assert(closed.st.paths[n + i] == after.st.paths[n + i]);
                assert(marks[i] == cells[i - 1]);
            }
        }
    }
}

proof fn lemma_table_read(
    s: Seq<u8>,
    delimiter: u8,
    c: CsvState,
    k: int,
    rows: Seq<CsvRecordText>,
    header: Seq<Seq<u8>>,
)
    requires
        s.len() < u32::MAX,
        delimiter != 0x22 && delimiter != 0x0a && delimiter != 0x0d,
        table_valid(rows, delimiter),
        stands(s, c.st.pos, table_text(rows, delimiter)),
        c.st.pos + table_text(rows, delimiter).len() == s.len(),
        columns_named(c, header),
        0 <= k,
        k + rows.len() < u32::MAX,
        k == 0 && rows.len() > 0 ==> c.keys.len() == 0 && header == field_values(rows[0].fields),
        k > 0 ==> header.len() <= c.keys.len(),
        c.st.paths.len() > 0,
        c.st.paths.len() + 4 * table_text(rows, delimiter).len() <= u32::MAX,
    ensures
        adds(
            c,
            csv_records(s, delimiter, c, k),
            s.len() as int,
            table_marks(rows, delimiter, k, c.st.pos, c.st.paths.len() as int, header),
            starts_behind(rows, delimiter, c.st.pos),
        ),
    decreases rows.len(),
{
    let p = c.st.pos;
    if rows.len() == 0 {
        assert(c.lines + Seq::<u32>::empty() =~= c.lines);
    } else {
        let r = rows[0];
        let rest = rows.skip(1);
        let q = p + r.text(delimiter).len();
        lemma_stands_parts(s, p, r.text(delimiter), table_text(rest, delimiter));
        assert forall|i: int| 0 <= i < rest.len() implies (#[trigger] rest[i]).valid(delimiter) by {
            assert(rest[i] == rows[i + 1]);
        }
        assert forall|i: int| 0 <= i < rest.len() - 1 implies !(#[trigger] rest[i]).end.at_input() by {
            assert(rest[i] == rows[i + 1]);
        }
        if rest.len() == 0 {
            assert(table_text(rest, delimiter) =~= Seq::empty());
        } else {
            assert(!rows[0].end.at_input());
        }
        lemma_record_read(s, delimiter, c, k, r, header);
        let next = csv_record(s, delimiter, c, k);
        lemma_table_read(s, delimiter, next, k + 1, rest, header);
        let here = record_marks(r, delimiter, k, p, c.st.paths.len() as int, header);
        let m2 = table_marks(rest, delimiter, k + 1, q, next.st.paths.len() as int, header);
        let l1 = line_behind(r.end, q);
        let l2 = starts_behind(rest, delimiter, q);
        lemma_adds_trans(
            c,
            next,
            csv_records(s, delimiter, next, k + 1),
            q,
            s.len() as int,
            here,
            m2,
            l1,
            l2,
        );
        assert(l1 + l2 =~= starts_behind(rows, delimiter, p));
    }
}

/// `s` starts with the bytes of a UTF-8 byte order mark.
pub open spec fn starts_with_mark(s: Seq<u8>) -> bool {
    s.len() >= 3 && s[0] == 0xef && s[1] == 0xbb && s[2] == 0xbf
}

/// A written table is read as what was written: one entry per field, with
/// the range of its text, under its row, and called by the header's value
/// for its column (or the column's number); one entry per data row; and a
/// line start behind each line ending. A field in quotes may hold
/// delimiters, line ends and doubled quotes, and goes on behind its
/// closing quote up to the delimiter or line end.
pub proof fn law_csv_reads_table(bom: bool, rows: Seq<CsvRecordText>, delimiter: u8)
    requires
        delimiter != 0x22 && delimiter != 0x0a && delimiter != 0x0d,
        table_valid(rows, delimiter),
        rows.len() > 0,
        4 * table_text(rows, delimiter).len() + 8 < u32::MAX,
        !bom ==> !starts_with_mark(table_text(rows, delimiter)),
    ensures
        ({
            let mark = if bom {
                seq![0xefu8, 0xbbu8, 0xbfu8]
            } else {
                Seq::empty()
            };
            let s = mark + table_text(rows, delimiter);
            let p = mark.len() as int;
            let marks = table_marks(rows, delimiter, 0, p, 1, field_values(rows[0].fields));
            let doc = csv_document(s, delimiter);
            &&& doc.lines == seq![0u32] + starts_behind(rows, delimiter, p)
            &&& doc.st.paths.len() == 1 + marks.len()
            &&& doc.st.paths[0] == PathEntry {
                start: 0,
                end: s.len() as u32,
                parent: u32::MAX,
                segment: PathSegment::Root,
            }
            &&& forall|i: int|
                1 <= i < doc.st.paths.len() ==> is_mark(#[trigger] doc.st.paths[i], doc.st.names, marks[i - 1])
        }),
{
    let mark = if bom {
        seq![0xefu8, 0xbbu8, 0xbfu8]
    } else {
        Seq::empty()
    };
    let text = table_text(rows, delimiter);
    let s = mark + text;
    let p = mark.len() as int;
    let header = field_values(rows[0].fields);
    if bom {
        assert(s[0] == 0xef && s[1] == 0xbb && s[2] == 0xbf);
    } else {
        assert(s =~= text);
    }
    assert(s.subrange(p, s.len() as int) =~= text);
    let start = csv_start(s);
    lemma_rows_count(rows, delimiter);
    lemma_table_read(s, delimiter, start, 0, rows, header);
    let c = csv_records(s, delimiter, start, 0);
    let doc = csv_document(s, delimiter);
    let marks = table_marks(rows, delimiter, 0, p, 1, header);
    assert(c.st.paths[0] == start.st.paths[0]);
    assert forall|i: int| 1 <= i < doc.st.paths.len() implies is_mark(
        #[trigger] doc.st.paths[i],
        doc.st.names,
        marks[i - 1],
    ) by {
        assert(is_mark(c.st.paths[1 + (i - 1)], c.st.names, marks[i - 1]));
        assert(doc.st.paths[i] == c.st.paths[i]);
    }
}

proof fn lemma_rows_count(rows: Seq<CsvRecordText>, delimiter: u8)
    requires
        table_valid(rows, delimiter),
    ensures
        rows.len() <= table_text(rows, delimiter).len(),
    decreases rows.len(),
{
    if rows.len() > 0 {
        let rest = rows.skip(1);
        assert(rows[0].valid(delimiter));
        assert forall|i: int| 0 <= i < rest.len() implies (#[trigger] rest[i]).valid(delimiter) by {
            assert(rest[i] == rows[i + 1]);
        }
        assert forall|i: int| 0 <= i < rest.len() - 1 implies !(#[trigger] rest[i]).end.at_input() by {
            assert(rest[i] == rows[i + 1]);
        }
        lemma_rows_count(rest, delimiter);
    }
}

} // verus!
