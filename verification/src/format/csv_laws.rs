//! Laws of the CSV grammar and of the table layout.

use vstd::prelude::*;
use vstd::utf8::{decode_utf8, length_of_first_scalar, pop_first_scalar, valid_first_scalar, valid_utf8};

use crate::ascii::LF;
use crate::format::csv::{
    byte_at_col, cell_starts, cells_between, cells_bounded, cells_ok, char_start_from, chars_in, csv_document,
    csv_fields, csv_fits, csv_record, csv_records, csv_start, field_end, field_stop, field_value, header_name,
    lemma_field_stop, lemma_origins_increase, noted, origin_of, starts_char, visual_col, CsvMeta, CsvState,
    GUTTER_CHARS,
};
use crate::format::nesting::{
    bounded, child_count, grew, lemma_child_count_none, lemma_child_count_same, lemma_child_count_take, lemma_closed,
    lemma_grew_trans, lemma_nested_closed, lemma_nested_push, lemma_opened, lemma_paths_apart, lemma_spanned,
    lemma_with_name, ranges_nested, sound,
};
use crate::format::{
    intern_id, interned, is_ancestor, path_to, starts_sorted, PathEntry, PathSegment, ScanState, ROOT_PARENT,
};
use crate::sorted::lemma_count_at_most;
use crate::text::decimal_bytes;

verus! {

/// Row entry number `k` starts where record `k + 1` does.
pub open spec fn rows_aligned(paths: Seq<PathEntry>, lines: Seq<u32>) -> bool {
    forall|i: int|
        0 <= i < paths.len() ==> ((#[trigger] paths[i]).segment matches PathSegment::Index(k) ==> k + 1 < lines.len()
            && paths[i].start == lines[k + 1])
}

/// Record starts: zero first, growing, each of the others right after a
/// line feed.
pub open spec fn lines_ok(s: Seq<u8>, lines: Seq<u32>, end: int) -> bool {
    &&& lines.len() > 0
    &&& lines[0] == 0
    &&& forall|i: int, j: int| 0 <= i < j < lines.len() ==> (#[trigger] lines[i]) < (#[trigger] lines[j])
    &&& forall|i: int| 1 <= i < lines.len() ==> 0 < (#[trigger] lines[i]) <= end && s[lines[i] - 1] == LF
}

spec fn ready(s: Seq<u8>, c: CsvState) -> bool {
    &&& s.len() < u32::MAX
    &&& 0 <= c.st.pos <= s.len()
    &&& sound(c.st)
    &&& bounded(c.st, c.st.pos)
    &&& forall|k: int| 0 <= k < c.keys.len() ==> (#[trigger] c.keys[k]) < c.st.names.len()
    &&& lines_ok(s, c.lines, c.st.pos)
    &&& rows_aligned(c.st.paths, c.lines)
    &&& cells_bounded(c.st.paths, s.len() as int)
    &&& c.st.names.len() <= c.st.paths.len()
    &&& c.st.paths.len() > 0
    &&& c.st.paths[0].segment is Root
    &&& c.st.paths[0].start == 0
    &&& c.st.paths[0].parent == ROOT_PARENT
    &&& forall|j: int| 0 < j < c.st.paths.len() ==> #[trigger] is_ancestor(c.st.paths, 0, j)
    &&& selectors_apart(c.keys, c.st.names)
    &&& cells_keyed(c.st.paths, c.keys)
    &&& ranges_nested(c.st.paths)
    &&& c.st.paths[0].end == 0
}

pub proof fn lemma_fields_grow(s: Seq<u8>, delimiter: u8, c: CsvState, header: bool, row: u32, col: int)
    requires
        0 <= c.st.pos <= s.len(),
    ensures
        ({
            let after = csv_fields(s, delimiter, c, header, row, col).0.st;
            &&& c.st.paths.len() + 1 <= after.paths.len()
            &&& c.st.pos <= after.pos <= s.len()
            &&& c.st.pos < s.len() ==> c.st.pos < after.pos
            &&& c.st.paths.len() <= 2 * c.st.pos + 2 ==> after.paths.len() <= 2 * after.pos + 3
            &&& c.st.paths.len() <= 2 * c.st.pos + 2 && after.pos < s.len() ==> after.paths.len() <= 2 * after.pos + 1
        }),
    decreases s.len() - c.st.pos,
{
    let a = c.st.pos;
    lemma_field_stop(s, a, delimiter);
    let stop = field_stop(s, a, delimiter);
    let after = noted(s, c, header, row, col, a, field_end(s, a, delimiter));
    if stop < s.len() && s[stop] == delimiter {
        lemma_fields_grow(s, delimiter, after.at(stop + 1), header, row, col + 1);
    }
}

/// A record adds entries: one for the row, but for the header, and one
/// per field.
pub proof fn lemma_record_grow(s: Seq<u8>, delimiter: u8, c: CsvState, header: bool, row: u32, col: int, record: int)
    requires
        0 <= c.st.pos < s.len(),
        0 <= record,
    ensures
        c.st.paths.len() + 1 <= csv_fields(s, delimiter, c, header, row, col).0.st.paths.len(),
        ({
            let after = csv_record(s, delimiter, c, record).st;
            &&& c.st.paths.len() + 1 <= after.paths.len()
            &&& c.st.pos < after.pos <= s.len()
            &&& c.st.paths.len() <= 2 * c.st.pos + 1 ==> after.paths.len() <= 2 * after.pos + 3
            &&& c.st.paths.len() <= 2 * c.st.pos + 1 && after.pos < s.len() ==> after.paths.len() <= 2 * after.pos + 1
        }),
{
    lemma_fields_grow(s, delimiter, c, header, row, col);
    lemma_fields_grow(s, delimiter, c, true, 0, 0);
    let segment = PathSegment::Index((record - 1) as u32);
    let opened = CsvState { st: c.st.opened(c.st.pos, 0, segment), ..c };
    lemma_fields_grow(s, delimiter, opened, false, c.st.paths.len() as u32, 0);
}

pub proof fn lemma_records_grow(s: Seq<u8>, delimiter: u8, c: CsvState, record: int)
    requires
        0 <= c.st.pos <= s.len(),
        0 <= record,
    ensures
        c.st.paths.len() <= csv_records(s, delimiter, c, record).st.paths.len(),
        (c.st.paths.len() <= 2 * c.st.pos + 3 && (c.st.pos < s.len() ==> c.st.paths.len() <= 2 * c.st.pos + 1))
            ==> csv_records(s, delimiter, c, record).st.paths.len() <= 2 * s.len() + 3,
    decreases s.len() - c.st.pos,
{
    if c.st.pos < s.len() {
        lemma_record_grow(s, delimiter, c, true, 0, 0, record);
        lemma_records_grow(s, delimiter, csv_record(s, delimiter, c, record), record + 1);
    }
}

/// Each byte starts at most a row and a cell.
pub proof fn law_csv_entry_count(s: Seq<u8>, delimiter: u8)
    ensures
        csv_document(s, delimiter).st.paths.len() <= 2 * s.len() + 3,
{
    lemma_records_grow(s, delimiter, csv_start(s), 0);
}

/// A column that shares the selector of an earlier one has its own
/// number as selector.
#[verifier::opaque]
pub open spec fn selectors_apart(keys: Seq<u32>, names: Seq<Seq<u8>>) -> bool {
    forall|a: int, b: int|
        0 <= a < b < keys.len() && #[trigger] keys[a] == #[trigger] keys[b] ==> names[keys[b] as int] == decimal_bytes(
            (b + 1) as nat,
        )
}

/// The cell in column `n` of its row refers to selector `n`; rows are
/// numbered upwards, and nothing else stands in the index.
#[verifier::opaque]
pub open spec fn cells_keyed(paths: Seq<PathEntry>, keys: Seq<u32>) -> bool {
    &&& forall|i: int|
        0 < i < paths.len() ==> {
            ||| #[trigger] paths[i].segment is Index && paths[i].parent == 0
            ||| paths[i].segment is Key && paths[i].parent < i && child_count(paths.take(i), paths[i].parent)
                < keys.len() && paths[i].segment->Key_0 == keys[child_count(paths.take(i), paths[i].parent) as int]
        }
    &&& forall|i: int, j: int|
        0 <= i < j < paths.len() && (#[trigger] paths[i]).segment is Index && (#[trigger] paths[j]).segment is Index
            ==> paths[i].segment->Index_0 < paths[j].segment->Index_0
}

proof fn lemma_selectors_named(keys: Seq<u32>, names: Seq<Seq<u8>>, name: Seq<u8>)
    requires
        selectors_apart(keys, names),
        forall|k: int| 0 <= k < keys.len() ==> (#[trigger] keys[k]) < names.len(),
    ensures
        selectors_apart(keys, interned(names, name)),
        interned(names, name)[intern_id(names, name)] == name,
{
    reveal(selectors_apart);
    if names.contains(name) {
        assert(names[names.index_of(name)] == name);
    }
    assert forall|b: int| 0 <= b < keys.len() implies interned(names, name)[#[trigger] keys[b] as int]
        == names[keys[b] as int] by {}
}

proof fn lemma_selectors_pushed(keys: Seq<u32>, names: Seq<Seq<u8>>, id: u32)
    requires
        selectors_apart(keys, names),
        !keys.contains(id) || names[id as int] == decimal_bytes((keys.len() + 1) as nat),
    ensures
        selectors_apart(keys.push(id), names),
{
    reveal(selectors_apart);
    let after = keys.push(id);
    assert forall|a: int, b: int| 0 <= a < b < after.len() && #[trigger] after[a] == #[trigger] after[b] implies names[after[b] as int]
        == decimal_bytes((b + 1) as nat) by {
        if b < keys.len() {
            assert(keys[a] == keys[b]);
        } else {
            assert(keys[a] == id);
        }
    }
}

/// One more selector changes nothing for the cells so far.
proof fn lemma_keyed_more(paths: Seq<PathEntry>, keys: Seq<u32>, id: u32)
    requires
        cells_keyed(paths, keys),
    ensures
        cells_keyed(paths, keys.push(id)),
{
    reveal(cells_keyed);
    let after = keys.push(id);
    assert forall|i: int| 0 < i < paths.len() implies {
        ||| #[trigger] paths[i].segment is Index && paths[i].parent == 0
        ||| paths[i].segment is Key && paths[i].parent < i && child_count(paths.take(i), paths[i].parent) < after.len()
            && paths[i].segment->Key_0 == after[child_count(paths.take(i), paths[i].parent) as int]
    } by {
        assert(paths[i].segment == paths[i].segment);
    }
}

proof fn lemma_keyed_push(paths: Seq<PathEntry>, keys: Seq<u32>, e: PathEntry)
    requires
        cells_keyed(paths, keys),
        paths.len() > 0,
        ({
            ||| e.segment is Index && e.parent == 0
            ||| e.segment is Key && e.parent < paths.len() && child_count(paths, e.parent) < keys.len()
                && e.segment->Key_0 == keys[child_count(paths, e.parent) as int]
        }),
        e.segment matches PathSegment::Index(k) ==> forall|i: int|
            0 <= i < paths.len() ==> ((#[trigger] paths[i]).segment matches PathSegment::Index(n) ==> n < k),
    ensures
        cells_keyed(paths.push(e), keys),
{
    reveal(cells_keyed);
    let after = paths.push(e);
    assert forall|i: int| 0 < i < after.len() implies {
        ||| #[trigger] after[i].segment is Index && after[i].parent == 0
        ||| after[i].segment is Key && after[i].parent < i && child_count(after.take(i), after[i].parent) < keys.len()
            && after[i].segment->Key_0 == keys[child_count(after.take(i), after[i].parent) as int]
    } by {
        if i < paths.len() {
            assert(after.take(i) =~= paths.take(i));
            assert(after[i] == paths[i]);
            assert(paths[i].segment == paths[i].segment);
        } else {
            assert(after.take(i) =~= paths);
        }
    }
    assert forall|i: int, j: int|
        0 <= i < j < after.len() && (#[trigger] after[i]).segment is Index && (#[trigger] after[j]).segment is Index
            implies after[i].segment->Index_0 < after[j].segment->Index_0 by {
        assert(after[i] == paths[i]);
        if j < paths.len() {
            assert(after[j] == paths[j]);
        }
    }
}

proof fn lemma_keyed_closed(paths: Seq<PathEntry>, keys: Seq<u32>, n: int, end: u32)
    requires
        cells_keyed(paths, keys),
        0 <= n < paths.len(),
    ensures
        cells_keyed(paths.update(n, PathEntry { end, ..paths[n] }), keys),
{
    reveal(cells_keyed);
    let after = paths.update(n, PathEntry { end, ..paths[n] });
    assert forall|i: int| 0 < i < after.len() implies {
        ||| #[trigger] after[i].segment is Index && after[i].parent == 0
        ||| after[i].segment is Key && after[i].parent < i && child_count(after.take(i), after[i].parent) < keys.len()
            && after[i].segment->Key_0 == keys[child_count(after.take(i), after[i].parent) as int]
    } by {
        assert(paths[i].segment == after[i].segment);
        lemma_child_count_same(paths.take(i), after.take(i), after[i].parent);
    }
    assert forall|i: int, j: int|
        0 <= i < j < after.len() && (#[trigger] after[i]).segment is Index && (#[trigger] after[j]).segment is Index
            implies after[i].segment->Index_0 < after[j].segment->Index_0 by {
        assert(paths[i].segment == after[i].segment);
        assert(paths[j].segment == after[j].segment);
        assert(paths[i].segment is Index && paths[j].segment is Index);
    }
}

proof fn lemma_noted(s: Seq<u8>, c: CsvState, header: bool, row: u32, col: int, e: int)
    requires
        ready(s, c),
        c.st.pos <= e <= s.len(),
        0 <= col,
        row < c.st.paths.len() < ROOT_PARENT,
        c.st.paths[row as int].end == 0,
        header ==> row == 0,
        col == child_count(c.st.paths, row),
        col <= c.keys.len(),
        header ==> col == c.keys.len(),
    ensures
        noted(s, c, header, row, col, c.st.pos, e).keys.len() >= col + 1,
        header ==> noted(s, c, header, row, col, c.st.pos, e).keys.len() == col + 1,
        child_count(noted(s, c, header, row, col, c.st.pos, e).st.paths, row) == col + 1,
        ready(s, noted(s, c, header, row, col, c.st.pos, e).at(e)),
        grew(c.st, noted(s, c, header, row, col, c.st.pos, e).st, row as int),
        noted(s, c, header, row, col, c.st.pos, e).st.paths.len() == c.st.paths.len() + 1,
        noted(s, c, header, row, col, c.st.pos, e).lines == c.lines,
{
    let a = c.st.pos;
    let raw = s.subrange(a, e);
    let after = noted(s, c, header, row, col, a, e);
    let name = if header {
        header_name(c, col, field_value(raw))
    } else {
        decimal_bytes((col + 1) as nat)
    };
    lemma_with_name(c.st, name);
    let interning = header || col >= c.keys.len();
    let base = if interning {
        c.st.with_name(name)
    } else {
        c.st
    };
    let id = if interning {
        intern_id(c.st.names, name) as u32
    } else {
        c.keys[col]
    };
    lemma_spanned(base, a, e, row, PathSegment::Key(id));
    assert(after.st == base.spanned(a, e, row, PathSegment::Key(id)));
    let n = c.st.paths.len() as int;
    lemma_selectors_named(c.keys, c.st.names, name);
    if interning {
        lemma_selectors_pushed(c.keys, base.names, id);
        lemma_keyed_more(c.st.paths, c.keys, id);
    }
    lemma_keyed_push(c.st.paths, after.keys, after.st.paths[n]);
    lemma_nested_push(c.st.paths, after.st.paths[n]);
    assert(after.st.paths =~= c.st.paths.push(after.st.paths[n]));
    assert(after.st.paths.drop_last() =~= c.st.paths);
    assert forall|k: int| 0 <= k < after.keys.len() implies (#[trigger] after.keys[k]) < after.st.names.len() by {
        if k < c.keys.len() {
            assert(after.keys[k] == c.keys[k]);
        }
    }
    assert forall|i: int| 0 <= i < n implies #[trigger] after.st.paths[i] == c.st.paths[i] by {}
    assert forall|i: int| 0 <= i < after.st.paths.len() implies ((
    #[trigger] after.st.paths[i]).segment matches PathSegment::Index(k) ==> k + 1 < c.lines.len()
        && after.st.paths[i].start == c.lines[k + 1]) by {
        if i < n {
            assert(after.st.paths[i] == c.st.paths[i]);
        }
    }
    assert forall|j: int| 0 < j < after.st.paths.len() implies #[trigger] is_ancestor(after.st.paths, 0, j) by {
        if j < n {
            assert(is_ancestor(c.st.paths, 0, j));
            crate::format::nesting::lemma_ancestor_same(c.st.paths, after.st.paths, 0, j);
        } else {
            if row != 0 {
                assert(is_ancestor(c.st.paths, 0, row as int));
                crate::format::nesting::lemma_ancestor_same(c.st.paths, after.st.paths, 0, row as int);
            }
            crate::format::nesting::lemma_ancestor_trans(after.st.paths, 0, row as int, n);
        }
    }
}

proof fn lemma_ready_at(s: Seq<u8>, c: CsvState, pos: int)
    requires
        ready(s, c),
        c.st.pos <= pos <= s.len(),
    ensures
        ready(s, c.at(pos)),
{
}

proof fn lemma_fields(s: Seq<u8>, delimiter: u8, c: CsvState, header: bool, row: u32, col: int)
    requires
        ready(s, c),
        0 <= col,
        row < c.st.paths.len(),
        header ==> row == 0,
        col == child_count(c.st.paths, row),
        col <= c.keys.len(),
        header ==> col == c.keys.len(),
        c.st.paths[row as int].end == 0,
        csv_fields(s, delimiter, c, header, row, col).0.st.paths.len() < ROOT_PARENT,
    ensures
        ({
            let (after, end) = csv_fields(s, delimiter, c, header, row, col);
            &&& ready(s, after)
            &&& grew(c.st, after.st, row as int)
            &&& c.st.pos <= end <= after.st.pos
            &&& c.st.pos < s.len() ==> c.st.pos < after.st.pos
            &&& after.st.pos < s.len() ==> after.lines == c.lines.push(after.st.pos as u32)
            &&& forall|i: int| c.st.paths.len() <= i < after.st.paths.len() ==> (#[trigger] after.st.paths[i]).end <= end
            &&& after.lines == c.lines || after.lines == c.lines.push(after.st.pos as u32)
            &&& forall|i: int|
                c.st.paths.len() <= i < after.st.paths.len() ==> (#[trigger] after.st.paths[i]).segment is Key
        }),
    decreases s.len() - c.st.pos,
{
    let a = c.st.pos;
    lemma_field_stop(s, a, delimiter);
    let stop = field_stop(s, a, delimiter);
    let e = field_end(s, a, delimiter);
    let after = noted(s, c, header, row, col, a, e);
    lemma_fields_grow(s, delimiter, c, header, row, col);
    lemma_noted(s, c, header, row, col, e);
    lemma_ready_at(s, after.at(e), stop);
    assert(after.at(e).at(stop) == after.at(stop));
    if stop < s.len() {
        lemma_ready_at(s, after.at(e), stop + 1);
        assert(after.at(e).at(stop + 1) == after.at(stop + 1));
        if s[stop] == delimiter {
            let next = after.at(stop + 1);
            let n = c.st.paths.len() as int;
            assert(next.st.paths[row as int] == c.st.paths[row as int]);
            lemma_fields(s, delimiter, next, header, row, col + 1);
            assert(csv_fields(s, delimiter, next, header, row, col + 1).0.st.paths[n] == next.st.paths[n]);
            lemma_grew_trans(c.st, next.st, csv_fields(s, delimiter, next, header, row, col + 1).0.st, row as int);
        } else {
            let last = CsvState { lines: c.lines.push((stop + 1) as u32), ..after.at(stop + 1) };
            assert forall|i: int| 0 <= i < last.st.paths.len() implies ((
            #[trigger] last.st.paths[i]).segment matches PathSegment::Index(k) ==> k + 1 < last.lines.len()
                && last.st.paths[i].start == last.lines[k + 1]) by {
                assert(after.st.paths[i].segment matches PathSegment::Index(k) ==> k + 1 < c.lines.len()
                    && after.st.paths[i].start == c.lines[k + 1]);
            }
            assert forall|i: int, j: int| 0 <= i < j < last.lines.len() implies (#[trigger] last.lines[i]) < (
            #[trigger] last.lines[j]) by {
                if j < c.lines.len() {
                    assert(c.lines[i] < c.lines[j]);
                } else if i > 0 {
                    assert(c.lines[i] <= a);
                }
            }
            assert forall|i: int| 1 <= i < last.lines.len() implies 0 < (#[trigger] last.lines[i]) <= stop + 1
                && s[last.lines[i] - 1] == LF by {
                if i < c.lines.len() {
                    assert(c.lines[i] <= a);
                }
            }
        }
    }
}

/// Every row number is below `n`.
spec fn rows_below(paths: Seq<PathEntry>, n: int) -> bool {
    forall|i: int|
        0 <= i < paths.len() ==> ((#[trigger] paths[i]).segment matches PathSegment::Index(k) ==> k < n)
}

proof fn lemma_record(s: Seq<u8>, delimiter: u8, c: CsvState, record: int)
    requires
        ready(s, c),
        0 <= record,
        c.st.pos < s.len(),
        csv_record(s, delimiter, c, record).st.paths.len() < ROOT_PARENT,
        c.lines.len() == record + 1,
        record > 0 ==> c.lines[record] == c.st.pos,
        record <= c.st.pos,
        rows_below(c.st.paths, record - 1),
        record == 0 ==> c.keys.len() == 0 && c.st.paths.len() == 1,
    ensures
        ({
            let after = csv_record(s, delimiter, c, record);
            &&& ready(s, after)
            &&& c.st.pos < after.st.pos
            &&& after.st.pos < s.len() ==> after.lines == c.lines.push(after.st.pos as u32)
            &&& rows_below(after.st.paths, record)
        }),
{
    lemma_record_grow(s, delimiter, c, true, 0, 0, record);
    if record == 0 {
        lemma_child_count_none(c.st.paths, 0);
        lemma_fields(s, delimiter, c, true, 0, 0);
    } else {
        let start = c.st.pos;
        let row = c.st.paths.len() as int;
        let seg = PathSegment::Index((record - 1) as u32);
        let opened = CsvState { st: c.st.opened(start, 0, seg), ..c };
        lemma_opened(c.st, start, 0, seg);
        assert forall|i: int| 0 <= i < opened.st.paths.len() implies ((
        #[trigger] opened.st.paths[i]).segment matches PathSegment::Index(k) ==> k + 1 < c.lines.len()
            && opened.st.paths[i].start == c.lines[k + 1]) by {
            if i < row {
                assert(opened.st.paths[i] == c.st.paths[i]);
            }
        }
        assert forall|j: int| 0 < j < opened.st.paths.len() implies #[trigger] is_ancestor(opened.st.paths, 0, j) by {
            if j < row {
                assert(is_ancestor(c.st.paths, 0, j));
                crate::format::nesting::lemma_ancestor_same(c.st.paths, opened.st.paths, 0, j);
            }
        }
        lemma_keyed_push(c.st.paths, c.keys, opened.st.paths[row]);
        lemma_nested_push(c.st.paths, opened.st.paths[row]);
        lemma_fields_grow(s, delimiter, opened, false, row as u32, 0);
        lemma_child_count_none(opened.st.paths, row as u32);
        assert(ready(s, opened));
        lemma_fields(s, delimiter, opened, false, row as u32, 0);
        let (after, end) = csv_fields(s, delimiter, opened, false, row as u32, 0);
        lemma_closed(after.st, row, end, after.st.pos);
        let closed = after.st.closed_at(row, end);
        lemma_keyed_closed(after.st.paths, after.keys, row, end as u32);
        assert(after.st.paths[row] == opened.st.paths[row]);
        assert(after.st.paths[0] == opened.st.paths[0]);
        lemma_nested_closed(after.st.paths, row, end as u32);
        assert forall|i: int| 0 <= i < closed.paths.len() implies ((
        #[trigger] closed.paths[i]).segment matches PathSegment::Index(k) ==> k < record) by {
            if i <= row {
                assert(after.st.paths[i] == opened.st.paths[i]);
                if i < row {
                    assert(opened.st.paths[i] == c.st.paths[i]);
                }
            }
        }
        assert forall|i: int| 0 <= i < closed.paths.len() implies ((
        #[trigger] closed.paths[i]).segment matches PathSegment::Index(k) ==> k + 1 < after.lines.len()
            && closed.paths[i].start == after.lines[k + 1]) by {
            assert(after.st.paths[i].segment matches PathSegment::Index(k) ==> k + 1 < after.lines.len()
                && after.st.paths[i].start == after.lines[k + 1]);
        }
        assert(after.st.paths[0] == opened.st.paths[0]);
        assert(cells_bounded(closed.paths, s.len() as int)) by {
            assert forall|i: int| 0 <= i < closed.paths.len() && (
            #[trigger] closed.paths[i]).segment is Key implies closed.paths[i].start <= closed.paths[i].end
                && closed.paths[i].end <= s.len() by {
                assert(after.st.paths[i].segment is Key);
                assert(after.st.paths[row] == opened.st.paths[row]);
            }
        }
    }
}

proof fn lemma_records(s: Seq<u8>, delimiter: u8, c: CsvState, record: int)
    requires
        ready(s, c),
        0 <= record <= c.st.pos,
        csv_records(s, delimiter, c, record).st.paths.len() < ROOT_PARENT,
        c.st.pos < s.len() ==> c.lines.len() == record + 1 && (record > 0 ==> c.lines[record] == c.st.pos),
        rows_below(c.st.paths, record - 1),
        record == 0 ==> c.keys.len() == 0 && c.st.paths.len() == 1,
    ensures
        ready(s, csv_records(s, delimiter, c, record)),
        csv_records(s, delimiter, c, record).st.pos == s.len(),
    decreases s.len() - c.st.pos,
{
    if c.st.pos < s.len() {
        lemma_record_grow(s, delimiter, c, true, 0, 0, record);
        lemma_records_grow(s, delimiter, csv_record(s, delimiter, c, record), record + 1);
        lemma_record(s, delimiter, c, record);
        lemma_records(s, delimiter, csv_record(s, delimiter, c, record), record + 1);
    }
}

/// Whatever the input: entries are sorted by start with parents first,
/// nested or disjoint, and refer to interned names; the root entry covers
/// the input; record starts begin at zero, grow, and each of the others
/// follows a line feed; row number `k` starts where record `k + 1` does.
pub proof fn law_csv_indexes(s: Seq<u8>, delimiter: u8)
    requires
        csv_fits(s, delimiter),
    ensures
        sound(csv_document(s, delimiter).st),
        bounded(csv_document(s, delimiter).st, s.len() as int),
        1 <= csv_document(s, delimiter).st.paths.len() < ROOT_PARENT,
        csv_document(s, delimiter).st.paths[0] == (PathEntry {
            start: 0,
            end: s.len() as u32,
            parent: ROOT_PARENT,
            segment: PathSegment::Root,
        }),
        lines_ok(s, csv_document(s, delimiter).lines, s.len() as int),
        rows_aligned(csv_document(s, delimiter).st.paths, csv_document(s, delimiter).lines),
        cells_bounded(csv_document(s, delimiter).st.paths, s.len() as int),
        selectors_apart(csv_document(s, delimiter).keys, csv_document(s, delimiter).st.names),
        cells_keyed(csv_document(s, delimiter).st.paths, csv_document(s, delimiter).keys),
        ranges_nested(csv_document(s, delimiter).st.paths),
{
    let start = csv_start(s);
    lemma_opened(ScanState::empty(), 0, ROOT_PARENT, PathSegment::Root);
    assert(ranges_nested(start.st.paths)) by {
        reveal(ranges_nested);
    }
    assert(selectors_apart(start.keys, start.st.names) && cells_keyed(start.st.paths, start.keys)) by {
        reveal(selectors_apart);
        reveal(cells_keyed);
    }
    assert(ready(s, start));
    lemma_records(s, delimiter, start, 0);
    let c = csv_records(s, delimiter, start, 0);
    lemma_closed(c.st, 0, s.len() as int, s.len() as int);
    let closed = c.st.closed_at(0, s.len() as int);
    lemma_keyed_closed(c.st.paths, c.keys, 0, s.len() as u32);
    lemma_nested_closed(c.st.paths, 0, s.len() as u32);
    assert forall|i: int| 0 <= i < closed.paths.len() implies ((
    #[trigger] closed.paths[i]).segment matches PathSegment::Index(k) ==> k + 1 < c.lines.len()
        && closed.paths[i].start == c.lines[k + 1]) by {
        assert(c.st.paths[i].segment matches PathSegment::Index(k) ==> k + 1 < c.lines.len() && c.st.paths[i].start
            == c.lines[k + 1]);
    }
    assert forall|i: int| 0 <= i < closed.paths.len() && (#[trigger] closed.paths[i]).segment is Key implies closed.paths[i].start
        <= closed.paths[i].end && closed.paths[i].end <= s.len() by {
        assert(c.st.paths[i].segment is Key);
    }
}

/// Ranges are properly nested: rows and header cells lie in the document,
/// cells in their row.
pub proof fn law_csv_ranges_nested(s: Seq<u8>, delimiter: u8, i: int)
    requires
        csv_fits(s, delimiter),
        1 <= i < csv_document(s, delimiter).st.paths.len(),
    ensures
        ({
            let paths = csv_document(s, delimiter).st.paths;
            let e = paths[i];
            let p = paths[e.parent as int];
            e.parent < i && p.start <= e.start && (p.end > 0 ==> e.end <= p.end)
        }),
{
    law_csv_indexes(s, delimiter);
    reveal(ranges_nested);
    reveal(cells_keyed);
    let paths = csv_document(s, delimiter).st.paths;
    assert(paths[i].segment == paths[i].segment);
}

/// Two columns share a selector only where the later one's number is the
/// name of the earlier one: a column without a name of its own goes by
/// its number.
pub proof fn law_csv_selectors(s: Seq<u8>, delimiter: u8, a: int, b: int)
    requires
        csv_fits(s, delimiter),
        0 <= a < b < csv_document(s, delimiter).keys.len(),
        csv_document(s, delimiter).keys[a] == csv_document(s, delimiter).keys[b],
    ensures
        csv_document(s, delimiter).st.names[csv_document(s, delimiter).keys[a] as int] == decimal_bytes((b + 1) as nat),
{
    law_csv_indexes(s, delimiter);
    reveal(selectors_apart);
}

/// A path singles out its cell or row: where no two columns share a
/// selector, two different entries never have the same path.
pub proof fn law_csv_paths_distinct(s: Seq<u8>, delimiter: u8, i: int, j: int)
    requires
        csv_fits(s, delimiter),
        csv_document(s, delimiter).keys.no_duplicates(),
        0 <= i < csv_document(s, delimiter).st.paths.len(),
        0 <= j < csv_document(s, delimiter).st.paths.len(),
        path_to(csv_document(s, delimiter).st.paths, i) == path_to(csv_document(s, delimiter).st.paths, j),
    ensures
        i == j,
{
    law_csv_indexes(s, delimiter);
    reveal(cells_keyed);
    let paths = csv_document(s, delimiter).st.paths;
    assert forall|k: int| 1 <= k < paths.len() implies !((#[trigger] paths[k]).segment is Root) && paths[k].parent
        < k by {
        assert(paths[k].segment == paths[k].segment);
    }
    assert forall|a: int, b: int|
        1 <= a < b < paths.len() && (#[trigger] paths[a]).parent == (#[trigger] paths[b]).parent implies paths[a].segment
        != paths[b].segment by {
        assert(paths[a].segment == paths[a].segment);
        assert(paths[b].segment == paths[b].segment);
        lemma_child_count_take(paths, paths[a].parent, a, b);
    }
    lemma_paths_apart(paths, i, j);
}

/// Neighbouring cells of a row are one delimiter apart.
pub open spec fn cells_tile(s: Seq<u8>, delimiter: u8, paths: Seq<PathEntry>) -> bool {
    forall|i: int|
        0 <= i && i + 1 < paths.len() && (#[trigger] paths[i]).segment is Key && paths[i + 1].segment is Key
            && paths[i].parent == paths[i + 1].parent ==> paths[i].end < s.len() && s[paths[i].end as int] == delimiter
            && paths[i + 1].start == paths[i].end + 1
}

/// If the last entry is a cell of `row`, it ends at a delimiter right
/// before the position.
spec fn cell_before(s: Seq<u8>, delimiter: u8, st: ScanState, row: u32) -> bool {
    let e = st.paths.last();
    e.segment is Key && e.parent == row ==> e.end + 1 == st.pos && e.end < s.len() && s[e.end as int] == delimiter
}

proof fn lemma_tile_push(s: Seq<u8>, delimiter: u8, paths: Seq<PathEntry>, e: PathEntry)
    requires
        cells_tile(s, delimiter, paths),
        paths.len() > 0,
        e.segment is Key && paths.last().segment is Key && paths.last().parent == e.parent ==> paths.last().end
            < s.len() && s[paths.last().end as int] == delimiter && e.start == paths.last().end + 1,
    ensures
        cells_tile(s, delimiter, paths.push(e)),
{
    let after = paths.push(e);
    assert forall|i: int|
        0 <= i && i + 1 < after.len() && (#[trigger] after[i]).segment is Key && after[i + 1].segment is Key
            && after[i].parent == after[i + 1].parent implies after[i].end < s.len() && s[after[i].end as int]
        == delimiter && after[i + 1].start == after[i].end + 1 by {
        assert(after[i] == paths[i]);
    }
}

proof fn lemma_tile_closed(s: Seq<u8>, delimiter: u8, paths: Seq<PathEntry>, k: int, end: u32)
    requires
        cells_tile(s, delimiter, paths),
        0 <= k < paths.len(),
        !(paths[k].segment is Key),
    ensures
        cells_tile(s, delimiter, paths.update(k, PathEntry { end, ..paths[k] })),
{
    let after = paths.update(k, PathEntry { end, ..paths[k] });
    assert forall|i: int|
        0 <= i && i + 1 < after.len() && (#[trigger] after[i]).segment is Key && after[i + 1].segment is Key
            && after[i].parent == after[i + 1].parent implies after[i].end < s.len() && s[after[i].end as int]
        == delimiter && after[i + 1].start == after[i].end + 1 by {
        assert(after[i] == paths[i] && after[i + 1] == paths[i + 1]);
    }
}

proof fn lemma_tile_fields(s: Seq<u8>, delimiter: u8, c: CsvState, header: bool, row: u32, col: int)
    requires
        s.len() < u32::MAX,
        0 <= c.st.pos <= s.len(),
        header ==> row == 0,
        c.st.paths.len() > 0,
        cells_tile(s, delimiter, c.st.paths),
        cell_before(s, delimiter, c.st, row),
    ensures
        ({
            let after = csv_fields(s, delimiter, c, header, row, col).0;
            &&& cells_tile(s, delimiter, after.st.paths)
            &&& 0 <= after.st.pos <= s.len()
            &&& c.st.paths.len() <= after.st.paths.len()
            &&& forall|k: int| 0 <= k < c.st.paths.len() ==> #[trigger] after.st.paths[k] == c.st.paths[k]
        }),
    decreases s.len() - c.st.pos,
{
    let a = c.st.pos;
    lemma_field_stop(s, a, delimiter);
    let stop = field_stop(s, a, delimiter);
    let e = field_end(s, a, delimiter);
    let after = noted(s, c, header, row, col, a, e);
    let cell = after.st.paths.last();
    assert(after.st.paths =~= c.st.paths.push(cell));
    lemma_tile_push(s, delimiter, c.st.paths, cell);
    if stop < s.len() && s[stop] == delimiter {
        lemma_tile_fields(s, delimiter, after.at(stop + 1), header, row, col + 1);
    }
}

proof fn lemma_tile_records(s: Seq<u8>, delimiter: u8, c: CsvState, record: int)
    requires
        s.len() < u32::MAX,
        0 <= c.st.pos <= s.len(),
        0 <= record,
        c.st.paths.len() > 0,
        c.st.paths[0].segment is Root,
        record == 0 ==> c.st.paths.len() == 1,
        cells_tile(s, delimiter, c.st.paths),
    ensures
        cells_tile(s, delimiter, csv_records(s, delimiter, c, record).st.paths),
        csv_records(s, delimiter, c, record).st.paths.len() > 0,
        csv_records(s, delimiter, c, record).st.paths[0].segment is Root,
    decreases s.len() - c.st.pos,
{
    if c.st.pos < s.len() {
        let next = csv_record(s, delimiter, c, record);
        if record == 0 {
            lemma_tile_fields(s, delimiter, c, true, 0, 0);
        } else {
            let row = c.st.paths.len() as int;
            let segment = PathSegment::Index((record - 1) as u32);
            let opened = CsvState { st: c.st.opened(c.st.pos, 0, segment), ..c };
            lemma_tile_push(s, delimiter, c.st.paths, opened.st.paths[row]);
            lemma_tile_fields(s, delimiter, opened, false, row as u32, 0);
            let (after, end) = csv_fields(s, delimiter, opened, false, row as u32, 0);
            assert(after.st.paths[row] == opened.st.paths[row]);
            assert(after.st.paths[0] == opened.st.paths[0]);
            lemma_tile_closed(s, delimiter, after.st.paths, row, end as u32);
        }
        if c.st.pos < next.st.pos <= s.len() {
            lemma_tile_records(s, delimiter, next, record + 1);
        }
    }
}

/// The cells of a row follow one another in the document with one
/// delimiter between neighbours.
pub proof fn law_csv_cells_tile(s: Seq<u8>, delimiter: u8)
    requires
        s.len() < u32::MAX,
    ensures
        cells_tile(s, delimiter, csv_document(s, delimiter).st.paths),
{
    lemma_tile_records(s, delimiter, csv_start(s), 0);
    let c = csv_records(s, delimiter, csv_start(s), 0);
    lemma_tile_closed(s, delimiter, c.st.paths, 0, s.len() as u32);
}

/// All the cells among `entries`, in order.
pub open spec fn all_cells(entries: Seq<PathEntry>) -> Seq<(u32, u32)>
    decreases entries.len(),
{
    if entries.len() == 0 {
        Seq::empty()
    } else if entries.last().segment is Key {
        all_cells(entries.drop_last()).push((entries.last().start, entries.last().end))
    } else {
        all_cells(entries.drop_last())
    }
}

/// Where the record after record `k` starts; `u32::MAX` for the last one.
pub open spec fn next_record(lines: Seq<u32>, k: int) -> int {
    if k + 1 < lines.len() {
        lines[k + 1] as int
    } else {
        u32::MAX as int
    }
}

/// The cells of the first `n` records, record by record.
pub open spec fn cells_of_records(entries: Seq<PathEntry>, lines: Seq<u32>, n: int) -> Seq<(u32, u32)>
    decreases n,
{
    if n <= 0 {
        Seq::empty()
    } else {
        cells_of_records(entries, lines, n - 1) + cells_between(
            entries,
            lines[n - 1] as int,
            next_record(lines, n - 1),
        )
    }
}

proof fn lemma_cells_from(entries: Seq<PathEntry>, a: int, b: int)
    requires
        forall|k: int| 0 <= k < entries.len() ==> a <= (#[trigger] entries[k]).start < b,
    ensures
        cells_between(entries, a, b) == all_cells(entries),
    decreases entries.len(),
{
    if entries.len() > 0 {
        assert(a <= entries[entries.len() - 1].start < b);
        assert forall|k: int| 0 <= k < entries.drop_last().len() implies a <= (
        #[trigger] entries.drop_last()[k]).start < b by {
            assert(entries.drop_last()[k] == entries[k]);
        }
        lemma_cells_from(entries.drop_last(), a, b);
    }
}

pub proof fn lemma_cells_outside(entries: Seq<PathEntry>, a: int, b: int)
    requires
        forall|k: int| 0 <= k < entries.len() ==> !(a <= (#[trigger] entries[k]).start < b),
    ensures
        cells_between(entries, a, b) == Seq::<(u32, u32)>::empty(),
    decreases entries.len(),
{
    if entries.len() > 0 {
        assert(!(a <= entries[entries.len() - 1].start < b));
        assert forall|k: int| 0 <= k < entries.drop_last().len() implies !(a <= (
        #[trigger] entries.drop_last()[k]).start < b) by {
            assert(entries.drop_last()[k] == entries[k]);
        }
        lemma_cells_outside(entries.drop_last(), a, b);
    }
}

/// Two neighbouring stretches of a sorted list give the cells of both.
proof fn lemma_cells_join(entries: Seq<PathEntry>, a: int, b: int, c: int)
    requires
        starts_sorted(entries),
        a <= b <= c,
    ensures
        cells_between(entries, a, b) + cells_between(entries, b, c) == cells_between(entries, a, c),
    decreases entries.len(),
{
    if entries.len() > 0 {
        let rest = entries.drop_last();
        let e = entries.last();
        assert(starts_sorted(rest)) by {
            assert forall|i: int, j: int| 0 <= i <= j < rest.len() implies rest[i].start <= rest[j].start by {
                assert(entries[i].start <= entries[j].start);
            }
        }
        lemma_cells_join(rest, a, b, c);
        if e.start < b {
            assert forall|k: int| 0 <= k < entries.len() implies !(b <= (#[trigger] entries[k]).start < c) by {
                assert(entries[k].start <= entries[entries.len() - 1].start);
            }
            lemma_cells_outside(entries, b, c);
            assert forall|k: int| 0 <= k < rest.len() implies !(b <= (#[trigger] rest[k]).start < c) by {
                assert(rest[k] == entries[k]);
            }
            lemma_cells_outside(rest, b, c);
        }
        assert(cells_between(entries, a, b) + cells_between(entries, b, c) =~= cells_between(entries, a, c));
    } else {
        assert(Seq::<(u32, u32)>::empty() + Seq::<(u32, u32)>::empty() =~= Seq::<(u32, u32)>::empty());
    }
}

proof fn lemma_cells_of_records(entries: Seq<PathEntry>, lines: Seq<u32>, n: int)
    requires
        starts_sorted(entries),
        0 < n <= lines.len(),
        forall|i: int, j: int| 0 <= i < j < lines.len() ==> (#[trigger] lines[i]) < (#[trigger] lines[j]),
    ensures
        cells_of_records(entries, lines, n) == cells_between(entries, lines[0] as int, next_record(lines, n - 1)),
    decreases n,
{
    let here = cells_between(entries, lines[n - 1] as int, next_record(lines, n - 1));
    if n > 1 {
        lemma_cells_of_records(entries, lines, n - 1);
        assert(lines[0] < lines[n - 1]);
        if n < lines.len() {
            assert(lines[n - 1] < lines[n]);
        }
        lemma_cells_join(entries, lines[0] as int, lines[n - 1] as int, next_record(lines, n - 1));
    } else {
        assert(cells_of_records(entries, lines, 0) == Seq::<(u32, u32)>::empty());
        assert(Seq::<(u32, u32)>::empty() + here =~= here);
    }
}

/// The records hold every cell exactly once: taken record by record, the
/// cells are all the cells of the document, in order.
pub proof fn law_csv_records_hold_cells(s: Seq<u8>, delimiter: u8)
    requires
        csv_fits(s, delimiter),
    ensures
        ({
            let c = csv_document(s, delimiter);
            cells_of_records(c.st.paths, c.lines, c.lines.len() as int) == all_cells(c.st.paths)
        }),
{
    law_csv_indexes(s, delimiter);
    let c = csv_document(s, delimiter);
    lemma_cells_of_records(c.st.paths, c.lines, c.lines.len() as int);
    assert forall|k: int| 0 <= k < c.st.paths.len() implies 0 <= (#[trigger] c.st.paths[k]).start < u32::MAX by {}
    lemma_cells_from(c.st.paths, 0, u32::MAX as int);
}

// --- layout ---------------------------------------------------------

pub proof fn lemma_chars_in_concat(a: Seq<u8>, b: Seq<u8>)
    ensures
        chars_in(a + b) == chars_in(a) + chars_in(b),
    decreases b.len(),
{
    if b.len() == 0 {
        assert(a + b =~= a);
    } else {
        lemma_chars_in_concat(a, b.drop_last());
        assert((a + b).drop_last() =~= a + b.drop_last());
    }
}

/// Counting the chars before a char boundary finds that boundary again.
proof fn lemma_char_start(s: Seq<u8>, i: int, p: int)
    requires
        0 <= i <= p < s.len(),
        starts_char(s[p]),
    ensures
        char_start_from(s, i, chars_in(s.subrange(i, p)) as int) == p,
    decreases p - i,
{
    let t = s.subrange(i, p);
    if i < p {
        let rest = s.subrange(i + 1, p);
        assert(t =~= seq![s[i]] + rest);
        lemma_chars_in_concat(seq![s[i]], rest);
        assert(seq![s[i]].drop_last() =~= Seq::<u8>::empty());
        assert(chars_in(Seq::<u8>::empty()) == 0);
        assert(chars_in(seq![s[i]]) == if starts_char(s[i]) {
            1nat
        } else {
            0nat
        });
        lemma_char_start(s, i + 1, p);
    } else {
        assert(t =~= Seq::<u8>::empty());
    }
}

/// Counting all the chars finds the end.
proof fn lemma_char_start_end(s: Seq<u8>, i: int)
    requires
        0 <= i <= s.len(),
    ensures
        char_start_from(s, i, chars_in(s.subrange(i, s.len() as int)) as int) == s.len(),
    decreases s.len() - i,
{
    let t = s.subrange(i, s.len() as int);
    if i < s.len() {
        let rest = s.subrange(i + 1, s.len() as int);
        assert(t =~= seq![s[i]] + rest);
        lemma_chars_in_concat(seq![s[i]], rest);
        assert(seq![s[i]].drop_last() =~= Seq::<u8>::empty());
        assert(chars_in(Seq::<u8>::empty()) == 0);
        assert(chars_in(seq![s[i]]) == if starts_char(s[i]) {
            1nat
        } else {
            0nat
        });
        lemma_char_start_end(s, i + 1);
    }
}

proof fn lemma_chars_in_first(s: Seq<u8>)
    requires
        valid_first_scalar(s),
    ensures
        1 <= length_of_first_scalar(s) <= s.len(),
        chars_in(s.take(length_of_first_scalar(s))) == 1,
{
    reveal_with_fuel(chars_in, 5);
    let n = length_of_first_scalar(s);
    let head = s.take(n);
    assert(starts_char(head[0]));
    assert(head.len() == n);
    if n >= 2 {
        assert(!starts_char(head[1]));
        assert(head.take(2).drop_last() =~= head.take(1));
    }
    if n >= 3 {
        assert(!starts_char(head[2]));
        assert(head.take(3).drop_last() =~= head.take(2));
    }
    if n >= 4 {
        assert(!starts_char(head[3]));
        assert(head.take(4).drop_last() =~= head.take(3));
    }
    assert(head.take(1).drop_last() =~= Seq::<u8>::empty());
    assert(chars_in(head.take(1)) == 1);
    assert(head.take(n) =~= head);
}

/// The width of a field that is valid UTF-8 is its number of characters.
pub proof fn law_char_count(s: Seq<u8>)
    requires
        valid_utf8(s),
    ensures
        chars_in(s) == decode_utf8(s).len(),
    decreases s.len(),
{
    if s.len() > 0 {
        let n = length_of_first_scalar(s);
        lemma_chars_in_first(s);
        let rest = pop_first_scalar(s);
        law_char_count(rest);
        assert(s =~= s.take(n) + rest);
        lemma_chars_in_concat(s.take(n), rest);
    }
}

/// A click on the column at which a character is drawn finds that
/// character again, and one right behind the content finds its end: for a
/// char boundary of cell `i`, no more than the column's width into it,
/// `byte_of_visual_col` undoes `visual_col_of_byte`. The cell must be the
/// last one that starts at or before the byte, as the cells of a record
/// are.
pub proof fn law_csv_click_round_trip(meta: CsvMeta, cells: Seq<(u32, u32)>, bytes: Seq<u8>, i: int, byte: int)
    requires
        meta.wf(),
        cells_ok(cells, bytes),
        cells.len() <= meta.col_widths@.len(),
        0 <= i < cells.len(),
        cells[i].0 <= byte <= cells[i].1,
        i + 1 < cells.len() ==> byte < cells[i + 1].0,
        byte < cells[i].1 ==> starts_char(bytes[byte]),
        chars_in(bytes.subrange(cells[i].0 as int, byte)) <= meta.col_widths@[i],
    ensures
        byte_at_col(
            meta.col_widths@,
            meta.col_origins@,
            cells,
            bytes,
            visual_col(meta.col_widths@, cells, bytes, byte),
        ) == Some(byte),
{
    let widths = meta.col_widths@;
    let origins = meta.col_origins@;
    let starts = cell_starts(cells);
    assert forall|k: int| 0 <= k < i + 1 implies (#[trigger] starts[k]) <= byte by {
        assert(cells[k].0 <= cells[i].0);
    }
    assert forall|k: int| i + 1 <= k < starts.len() implies (#[trigger] starts[k]) > byte by {
        assert(cells[i + 1].0 <= cells[k].0);
    }
    lemma_count_at_most(starts, byte, i + 1);
    let (s, e) = cells[i];
    let n = chars_in(bytes.subrange(s as int, byte)) as int;
    let col = visual_col(widths, cells, bytes, byte);
    assert(col == origin_of(widths, i) + n);
    assert forall|k: int| 0 <= k < i + 1 implies (#[trigger] origins[k]) <= col by {
        if k < i {
            lemma_origins_increase(widths, k, i);
        }
    }
    assert forall|k: int| i + 1 <= k < origins.len() implies (#[trigger] origins[k]) > col by {
        lemma_origins_increase(widths, i, k);
    }
    lemma_count_at_most(origins, col, i + 1);
    let field = bytes.subrange(s as int, e as int);
    assert(field.subrange(0, byte - s) =~= bytes.subrange(s as int, byte));
    if byte < e {
        assert(field[byte - s] == bytes[byte]);
        lemma_char_start(field, 0, byte - s);
    } else {
        lemma_char_start_end(field, 0);
    }
}

/// Columns never overlap: each starts a gutter past the end of the one
/// before it, and the last one ends at the table's width.
pub proof fn law_csv_columns_disjoint(meta: CsvMeta, i: int, j: int)
    requires
        meta.wf(),
        0 <= i < j < meta.col_widths@.len(),
    ensures
        meta.col_origins@[i] + meta.col_widths@[i] + GUTTER_CHARS <= meta.col_origins@[j],
        meta.col_origins@[j] + meta.col_widths@[j] <= meta.table_width,
{
    let widths = meta.col_widths@;
    lemma_origins_increase(widths, i, j);
    lemma_origins_increase(widths, j, widths.len() as int);
}

} // verus!
