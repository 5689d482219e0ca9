//! Laws of the columns of a parsed table: each is wide enough for its
//! cells, up to the cap, so clicks find what was drawn.

use vstd::prelude::*;

use crate::format::csv::{
    byte_at_col, cells_between, cells_ok, chars_in, col_widths_of, csv_document, csv_fields, csv_record, csv_records,
    csv_start, field_end, field_stop, lemma_chars_in_bound, lemma_field_stop, min_of, noted, starts_char, visual_col,
    widened, CsvMeta, CsvState, MAX_COL_CHARS,
};
use crate::format::csv_laws::{law_csv_click_round_trip, lemma_cells_outside, lemma_chars_in_concat, next_record};
use crate::format::{PathEntry, PathSegment};

verus! {

/// The cells of record `k`.
pub open spec fn cells_of_record(c: CsvState, k: int) -> Seq<(u32, u32)> {
    cells_between(c.st.paths, c.lines[k] as int, next_record(c.lines, k))
}

/// The cells lie in the input one behind the other, each in a column
/// that has counted at least as many chars.
spec fn counted(s: Seq<u8>, cells: Seq<(u32, u32)>, chars: Seq<u32>) -> bool {
    &&& cells.len() <= chars.len()
    &&& forall|j: int|
        0 <= j < cells.len() ==> (#[trigger] cells[j]).0 <= cells[j].1 && cells[j].1 <= s.len() && chars_in(
            s.subrange(cells[j].0 as int, cells[j].1 as int),
        ) <= chars[j]
    &&& forall|i: int, j: int| 0 <= i < j < cells.len() ==> (#[trigger] cells[i]).1 < (#[trigger] cells[j]).0
}

/// What holds between records and between fields: the last record start
/// is not past the position, nor is any entry, and the cells of each
/// record are counted.
spec fn fitting(s: Seq<u8>, c: CsvState) -> bool {
    &&& s.len() < u32::MAX
    &&& 0 <= c.st.pos <= s.len()
    &&& c.lines.len() > 0
    &&& c.lines.last() <= c.st.pos
    &&& forall|i: int, j: int| 0 <= i < j < c.lines.len() ==> (#[trigger] c.lines[i]) < (#[trigger] c.lines[j])
    &&& c.st.paths.len() > 0
    &&& c.st.paths[0].segment is Root
    &&& forall|i: int| 0 <= i < c.st.paths.len() ==> (#[trigger] c.st.paths[i]).start <= c.st.pos
    &&& forall|k: int| 0 <= k < c.lines.len() ==> counted(s, #[trigger] cells_of_record(c, k), c.chars)
}

/// The cells of the record being read.
spec fn current(c: CsvState) -> Seq<(u32, u32)> {
    cells_of_record(c, c.lines.len() - 1)
}

spec fn chars_grew(a: Seq<u32>, b: Seq<u32>) -> bool {
    &&& a.len() <= b.len()
    &&& forall|i: int| 0 <= i < a.len() ==> (#[trigger] a[i]) <= b[i]
}

proof fn lemma_counted_more(s: Seq<u8>, cells: Seq<(u32, u32)>, a: Seq<u32>, b: Seq<u32>)
    requires
        counted(s, cells, a),
        chars_grew(a, b),
    ensures
        counted(s, cells, b),
{
    assert forall|j: int| 0 <= j < cells.len() implies (#[trigger] cells[j]).0 <= cells[j].1 && cells[j].1 <= s.len()
        && chars_in(s.subrange(cells[j].0 as int, cells[j].1 as int)) <= b[j] by {
        assert(a[j] <= b[j]);
    }
}

/// Entries that all start before `b` need no upper bound.
proof fn lemma_cells_bound(entries: Seq<PathEntry>, a: int, b: int, c: int)
    requires
        forall|k: int| 0 <= k < entries.len() ==> (#[trigger] entries[k]).start < b,
        b <= c,
    ensures
        cells_between(entries, a, b) == cells_between(entries, a, c),
    decreases entries.len(),
{
    if entries.len() > 0 {
        let rest = entries.drop_last();
        assert(entries[entries.len() - 1].start < b);
        assert forall|k: int| 0 <= k < rest.len() implies (#[trigger] rest[k]).start < b by {
            assert(rest[k] == entries[k]);
        }
        lemma_cells_bound(rest, a, b, c);
    }
}

/// Where an entry that is no cell ends does not matter.
proof fn lemma_cells_closed(entries: Seq<PathEntry>, n: int, end: u32, a: int, b: int)
    requires
        0 <= n < entries.len(),
        !(entries[n].segment is Key),
    ensures
        cells_between(entries.update(n, PathEntry { end, ..entries[n] }), a, b) == cells_between(entries, a, b),
    decreases entries.len(),
{
    let e = PathEntry { end, ..entries[n] };
    let next = entries.update(n, e);
    if n == entries.len() - 1 {
        assert(next.drop_last() =~= entries.drop_last());
    } else {
        assert(next.drop_last() =~= entries.drop_last().update(n, e));
        lemma_cells_closed(entries.drop_last(), n, end, a, b);
    }
}

proof fn lemma_fit_closed(s: Seq<u8>, c: CsvState, n: int, end: int)
    requires
        fitting(s, c),
        0 <= n < c.st.paths.len(),
        !(c.st.paths[n].segment is Key),
    ensures
        fitting(s, CsvState { st: c.st.closed_at(n, end), ..c }),
        forall|k: int|
            0 <= k < c.lines.len() ==> #[trigger] cells_of_record(CsvState { st: c.st.closed_at(n, end), ..c }, k)
                == cells_of_record(c, k),
{
    let next = CsvState { st: c.st.closed_at(n, end), ..c };
    assert forall|k: int| 0 <= k < c.lines.len() implies #[trigger] cells_of_record(next, k) == cells_of_record(
        c,
        k,
    ) by {
        lemma_cells_closed(c.st.paths, n, end as u32, c.lines[k] as int, next_record(c.lines, k));
    }
    assert forall|i: int| 0 <= i < next.st.paths.len() implies (#[trigger] next.st.paths[i]).start <= c.st.pos by {
        assert(c.st.paths[i].start <= c.st.pos);
    }
}

/// A new entry at the position belongs to the record being read.
proof fn lemma_fit_pushed(c: CsvState, e: PathEntry, k: int)
    requires
        0 <= k < c.lines.len(),
        forall|i: int, j: int| 0 <= i < j < c.lines.len() ==> (#[trigger] c.lines[i]) < (#[trigger] c.lines[j]),
        c.lines.last() <= e.start < u32::MAX,
    ensures
        ({
            let next = cells_between(c.st.paths.push(e), c.lines[k] as int, next_record(c.lines, k));
            if e.segment is Key && k == c.lines.len() - 1 {
                next == cells_of_record(c, k).push((e.start, e.end))
            } else {
                next == cells_of_record(c, k)
            }
        }),
{
    assert(c.st.paths.push(e).drop_last() =~= c.st.paths);
    if k + 1 < c.lines.len() - 1 {
        assert(c.lines[k + 1] < c.lines[c.lines.len() - 1]);
    }
}

proof fn lemma_widened(chars: Seq<u32>, col: int, n: nat)
    requires
        0 <= col <= chars.len(),
        n <= u32::MAX,
    ensures
        chars_grew(chars, widened(chars, col, n)),
        col < widened(chars, col, n).len(),
        n <= widened(chars, col, n)[col],
{
}

/// Noting a field adds it to the cells of the record being read.
proof fn lemma_fit_noted(s: Seq<u8>, c: CsvState, header: bool, row: u32, col: int, e: int)
    requires
        fitting(s, c),
        current(c).len() == col,
        current(c).len() > 0 ==> current(c).last().1 < c.st.pos,
        c.st.pos <= e <= s.len(),
    ensures
        ({
            let after = noted(s, c, header, row, col, c.st.pos, e);
            &&& fitting(s, after)
            &&& after.lines == c.lines
            &&& after.st.pos == c.st.pos
            &&& current(after) == current(c).push((c.st.pos as u32, e as u32))
            &&& after.st.paths.len() == c.st.paths.len() + 1
            &&& after.st.paths.take(c.st.paths.len() as int) == c.st.paths
        }),
{
    let a = c.st.pos;
    let raw = s.subrange(a, e);
    lemma_chars_in_bound(raw);
    lemma_widened(c.chars, col, chars_in(raw));
    let after = noted(s, c, header, row, col, a, e);
    let entry = after.st.paths.last();
    let last = c.lines.len() - 1;
    assert(after.st.paths == c.st.paths.push(entry));
    assert(after.st.paths.take(c.st.paths.len() as int) =~= c.st.paths);
    assert forall|k: int| 0 <= k < after.lines.len() implies counted(s, #[trigger] cells_of_record(after, k), after.chars) by {
        lemma_fit_pushed(c, entry, k);
        assert(counted(s, cells_of_record(c, k), c.chars));
        lemma_counted_more(s, cells_of_record(c, k), c.chars, after.chars);
        if k == last {
            let old_cells = cells_of_record(c, k);
            let cells = cells_of_record(after, k);
            assert(cells == old_cells.push((a as u32, e as u32)));
            assert forall|i: int, j: int| 0 <= i < j < cells.len() implies (#[trigger] cells[i]).1 < (
            #[trigger] cells[j]).0 by {
                if j == col && i < col - 1 {
                    assert(old_cells[i].1 < old_cells[col - 1].0);
                }
            }
        }
    }
    lemma_fit_pushed(c, entry, last);
    assert forall|i: int| 0 <= i < after.st.paths.len() implies (#[trigger] after.st.paths[i]).start <= a by {
        if i < c.st.paths.len() {
            assert(after.st.paths[i] == c.st.paths[i]);
        }
    }
}

/// A line feed before `pos` ends the record being read.
proof fn lemma_fit_line(s: Seq<u8>, c: CsvState, pos: int)
    requires
        fitting(s, c),
        c.st.pos < pos <= s.len(),
    ensures
        fitting(s, (CsvState { lines: c.lines.push(pos as u32), ..c.at(pos) })),
        current(CsvState { lines: c.lines.push(pos as u32), ..c.at(pos) }).len() == 0,
{
    let next = CsvState { lines: c.lines.push(pos as u32), ..c.at(pos) };
    let n = c.lines.len() as int;
    assert forall|i: int| 0 <= i < next.st.paths.len() implies (#[trigger] next.st.paths[i]).start < pos by {
        assert(c.st.paths[i].start <= c.st.pos);
    }
    assert forall|i: int, j: int| 0 <= i < j < next.lines.len() implies (#[trigger] next.lines[i]) < (
    #[trigger] next.lines[j]) by {
        if j == n && i < n - 1 {
            assert(c.lines[i] < c.lines[n - 1]);
        }
    }
    lemma_cells_outside(c.st.paths, pos, u32::MAX as int);
    assert forall|k: int| 0 <= k < next.lines.len() implies counted(s, #[trigger] cells_of_record(next, k), next.chars) by {
        if k < n {
            assert(counted(s, cells_of_record(c, k), c.chars));
            if k == n - 1 {
                lemma_cells_bound(c.st.paths, c.lines[k] as int, pos, u32::MAX as int);
            }
            assert(cells_of_record(next, k) == cells_of_record(c, k));
        }
    }
}

proof fn lemma_fit_at(s: Seq<u8>, c: CsvState, pos: int)
    requires
        fitting(s, c),
        c.st.pos <= pos <= s.len(),
    ensures
        fitting(s, c.at(pos)),
        current(c.at(pos)) == current(c),
{
    assert forall|i: int| 0 <= i < c.at(pos).st.paths.len() implies (#[trigger] c.at(pos).st.paths[i]).start <= pos by {
        assert(c.st.paths[i].start <= c.st.pos);
    }
    assert forall|k: int| 0 <= k < c.lines.len() implies counted(s, #[trigger] cells_of_record(c.at(pos), k), c.chars) by {
        assert(cells_of_record(c.at(pos), k) == cells_of_record(c, k));
    }
}

proof fn lemma_fit_fields(s: Seq<u8>, delimiter: u8, c: CsvState, header: bool, row: u32, col: int)
    requires
        fitting(s, c),
        current(c).len() == col,
        current(c).len() > 0 ==> current(c).last().1 < c.st.pos,
    ensures
        ({
            let after = csv_fields(s, delimiter, c, header, row, col).0;
            &&& fitting(s, after)
            &&& after.st.pos < s.len() ==> current(after).len() == 0
            &&& c.st.paths.len() <= after.st.paths.len()
            &&& after.st.paths.take(c.st.paths.len() as int) == c.st.paths
        }),
    decreases s.len() - c.st.pos,
{
    let a = c.st.pos;
    lemma_field_stop(s, a, delimiter);
    let stop = field_stop(s, a, delimiter);
    let e = field_end(s, a, delimiter);
    let after = noted(s, c, header, row, col, a, e);
    let n = c.st.paths.len() as int;
    lemma_fit_noted(s, c, header, row, col, e);
    if stop >= s.len() {
        lemma_fit_at(s, after, stop);
    } else if s[stop] == delimiter {
        let next = after.at(stop + 1);
        lemma_fit_at(s, after, stop + 1);
        lemma_fit_fields(s, delimiter, next, header, row, col + 1);
        let paths = csv_fields(s, delimiter, next, header, row, col + 1).0.st.paths;
        assert(paths.take(n) =~= paths.take(n + 1).take(n));
    } else {
        lemma_fit_line(s, after, stop + 1);
        assert(CsvState { lines: c.lines.push((stop + 1) as u32), ..after.at(stop + 1) } == CsvState {
            lines: after.lines.push((stop + 1) as u32),
            ..after.at(stop + 1)
        });
    }
}

proof fn lemma_fit_record(s: Seq<u8>, delimiter: u8, c: CsvState, record: int)
    requires
        fitting(s, c),
        c.st.pos < s.len(),
        current(c).len() == 0,
    ensures
        fitting(s, csv_record(s, delimiter, c, record)),
        csv_record(s, delimiter, c, record).st.pos < s.len() ==> current(csv_record(s, delimiter, c, record)).len()
            == 0,
{
    if record <= 0 {
        lemma_fit_fields(s, delimiter, c, true, 0, 0);
    } else {
        let row = c.st.paths.len() as int;
        let seg = PathSegment::Index((record - 1) as u32);
        let opened = CsvState { st: c.st.opened(c.st.pos, 0, seg), ..c };
        let entry = opened.st.paths.last();
        assert(opened.st.paths == c.st.paths.push(entry));
        assert forall|k: int| 0 <= k < c.lines.len() implies #[trigger] cells_of_record(opened, k) == cells_of_record(
            c,
            k,
        ) by {
            lemma_fit_pushed(c, entry, k);
        }
        assert(fitting(s, opened));
        lemma_fit_fields(s, delimiter, opened, false, row as u32, 0);
        let (after, end) = csv_fields(s, delimiter, opened, false, row as u32, 0);
        assert(after.st.paths[row] == after.st.paths.take(row + 1)[row]);
        lemma_fit_closed(s, after, row, end);
    }
}

proof fn lemma_fit_records(s: Seq<u8>, delimiter: u8, c: CsvState, record: int)
    requires
        fitting(s, c),
        c.st.pos < s.len() ==> current(c).len() == 0,
    ensures
        fitting(s, csv_records(s, delimiter, c, record)),
    decreases s.len() - c.st.pos,
{
    if c.st.pos < s.len() {
        lemma_fit_record(s, delimiter, c, record);
        let next = csv_record(s, delimiter, c, record);
        if c.st.pos < next.st.pos <= s.len() {
            lemma_fit_records(s, delimiter, next, record + 1);
        }
    }
}

proof fn lemma_fit_document(s: Seq<u8>, delimiter: u8)
    requires
        s.len() < u32::MAX,
    ensures
        fitting(s, csv_document(s, delimiter)),
{
    let start = csv_start(s);
    assert(start.st.paths.drop_last() =~= Seq::empty());
    assert(cells_between(start.st.paths.drop_last(), 0, u32::MAX as int).len() == 0);
    assert(current(start).len() == 0);
    assert(fitting(s, start));
    lemma_fit_records(s, delimiter, start, 0);
    lemma_fit_closed(s, csv_records(s, delimiter, start, 0), 0, s.len() as int);
}

/// A parsed column is as wide as each of its cells, up to the cap: cell
/// `j` of a record has a column, in which all its chars are drawn, or the
/// first `MAX_COL_CHARS` of them.
pub proof fn law_csv_columns_fit(s: Seq<u8>, delimiter: u8, k: int, j: int)
    requires
        s.len() < u32::MAX,
        0 <= k < csv_document(s, delimiter).lines.len(),
        0 <= j < cells_of_record(csv_document(s, delimiter), k).len(),
    ensures
        ({
            let c = csv_document(s, delimiter);
            let (start, end) = cells_of_record(c, k)[j];
            let widths = col_widths_of(c.chars);
            &&& j < widths.len()
            &&& start <= end <= s.len()
            &&& min_of(chars_in(s.subrange(start as int, end as int)) as int, MAX_COL_CHARS as int) <= widths[j]
        }),
{
    lemma_fit_document(s, delimiter);
    let c = csv_document(s, delimiter);
    assert(counted(s, cells_of_record(c, k), c.chars));
}

/// In a parsed table a click on what was drawn finds it again: for every
/// cell of every record and every char boundary in it, its end as well,
/// that is no more than `MAX_COL_CHARS` chars into the cell,
/// `byte_of_visual_col` undoes `visual_col_of_byte`.
pub proof fn law_csv_parsed_click_round_trip(
    s: Seq<u8>,
    delimiter: u8,
    meta: CsvMeta,
    k: int,
    j: int,
    byte: int,
)
    requires
        s.len() < u32::MAX,
        meta.wf(),
        meta.col_widths@ == col_widths_of(csv_document(s, delimiter).chars),
        0 <= k < csv_document(s, delimiter).lines.len(),
        0 <= j < cells_of_record(csv_document(s, delimiter), k).len(),
        ({
            let (start, end) = cells_of_record(csv_document(s, delimiter), k)[j];
            &&& start <= byte <= end
            &&& byte < end ==> starts_char(s[byte])
            &&& chars_in(s.subrange(start as int, byte)) <= MAX_COL_CHARS
        }),
    ensures
        ({
            let cells = cells_of_record(csv_document(s, delimiter), k);
            byte_at_col(
                meta.col_widths@,
                meta.col_origins@,
                cells,
                s,
                visual_col(meta.col_widths@, cells, s, byte),
            ) == Some(byte)
        }),
{
    lemma_fit_document(s, delimiter);
    law_csv_columns_fit(s, delimiter, k, j);
    let c = csv_document(s, delimiter);
    let cells = cells_of_record(c, k);
    assert(counted(s, cells, c.chars));
    let (start, end) = cells[j];
    let before = s.subrange(start as int, byte);
    let behind = s.subrange(byte, end as int);
    assert(s.subrange(start as int, end as int) =~= before + behind);
    lemma_chars_in_concat(before, behind);
    assert(cells_ok(cells, s));
    law_csv_click_round_trip(meta, cells, s, j, byte);
}

} // verus!
