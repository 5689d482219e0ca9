//! Laws of inline text and tables: marked text is shown in the runs that
//! its marks ask for, and rows as the cells that were written.

use vstd::prelude::*;

use crate::markdown_core::{cell_align, row_cells, skip_blank_chars, split_cells, CellAlign};
use crate::markview::list_laws::{is_visible, is_white, lemma_visible, repeated};
use crate::markview::rendered::{
    find_one, find_two, inline_runs, link_at, runs_of, span_at, stop_at, table_cells, table_model, widest_row,
    with_run, BlockModel, RunKind, RunModel,
};
use crate::text::{drop_space, skip_space, trimmed_text};

verus! {

// --- written inline text --------------------------------------------

/// A piece of inline text as it is written down.
pub enum Inline {
    Plain(Seq<char>),
    /// In backticks.
    Code(Seq<char>),
    /// Between two `*` or two `_`.
    Bold(char, Seq<char>),
    /// Between single ones.
    Italic(char, Seq<char>),
    /// `[text](url)`
    Link(Seq<char>, Seq<char>),
}

pub open spec fn is_inline_mark(c: char) -> bool {
    c == '`' || c == '*' || c == '_' || c == '['
}

pub open spec fn free_of_char(t: Seq<char>, c: char) -> bool {
    forall|i: int| 0 <= i < t.len() ==> #[trigger] t[i] != c
}

/// No two `c` in a row in `t`, nor one at its end.
pub open spec fn free_of_pair(t: Seq<char>, c: char) -> bool {
    &&& t.len() > 0 ==> t.last() != c
    &&& forall|i: int, j: int| 0 <= i < j < t.len() && j == i + 1 ==> !(#[trigger] t[i] == c && #[trigger] t[j] == c)
}

impl Inline {
    pub open spec fn valid(self) -> bool {
        match self {
            Inline::Plain(t) => t.len() > 0 && forall|i: int| 0 <= i < t.len() ==> !is_inline_mark(#[trigger] t[i]),
            Inline::Code(t) => t.len() > 0 && free_of_char(t, '`'),
            Inline::Bold(c, t) => (c == '*' || c == '_') && t.len() > 0 && free_of_pair(t, c),
            Inline::Italic(c, t) => (c == '*' || c == '_') && t.len() > 0 && free_of_char(t, c),
            Inline::Link(t, url) => t.len() > 0 && free_of_char(t, ']') && free_of_char(t, '\n') && free_of_char(
                url,
                ')',
            ) && free_of_char(url, '\n'),
        }
    }

    pub open spec fn text(self) -> Seq<char> {
        match self {
            Inline::Plain(t) => t,
            Inline::Code(t) => seq!['`'] + (t + seq!['`']),
            Inline::Bold(c, t) => seq![c, c] + (t + seq![c, c]),
            Inline::Italic(c, t) => seq![c] + (t + seq![c]),
            Inline::Link(t, url) => seq!['['] + (t + (seq![']', '('] + (url + seq![')']))),
        }
    }

    pub open spec fn run(self) -> RunModel {
        match self {
            Inline::Plain(t) => RunModel { kind: RunKind::Plain, text: t, url: Seq::empty() },
            Inline::Code(t) => RunModel { kind: RunKind::Code, text: t, url: Seq::empty() },
            Inline::Bold(c, t) => RunModel { kind: RunKind::Bold, text: t, url: Seq::empty() },
            Inline::Italic(c, t) => RunModel { kind: RunKind::Italic, text: t, url: Seq::empty() },
            Inline::Link(t, url) => RunModel { kind: RunKind::Link, text: t, url },
        }
    }
}

/// The pieces are valid and no two plain ones follow each other.
pub open spec fn inline_valid(pieces: Seq<Inline>) -> bool {
    &&& forall|i: int| 0 <= i < pieces.len() ==> (#[trigger] pieces[i]).valid()
    &&& forall|i: int, j: int|
        0 <= i < pieces.len() - 1 && j == i + 1 ==> !((#[trigger] pieces[i]) is Plain && (#[trigger] pieces[j]) is Plain)
}

pub open spec fn inline_text(pieces: Seq<Inline>) -> Seq<char>
    decreases pieces.len(),
{
    if pieces.len() == 0 {
        Seq::empty()
    } else {
        pieces[0].text() + inline_text(pieces.skip(1))
    }
}

pub open spec fn inline_shown(pieces: Seq<Inline>) -> Seq<RunModel> {
    Seq::new(pieces.len(), |i: int| pieces[i].run())
}

/// `x` stands in `t` at `p`.
spec fn at(t: Seq<char>, p: int, x: Seq<char>) -> bool {
    0 <= p && p + x.len() <= t.len() && t.subrange(p, p + x.len()) == x
}

proof fn lemma_at_parts(t: Seq<char>, p: int, a: Seq<char>, b: Seq<char>)
    requires
        at(t, p, a + b),
    ensures
        at(t, p, a),
        at(t, p + a.len(), b),
{
    let x = a + b;
    let part = t.subrange(p, p + x.len());
    assert(part.subrange(0, a.len() as int) =~= t.subrange(p, p + a.len()));
    assert(x.subrange(0, a.len() as int) =~= a);
    let q = p + a.len();
    assert(part.subrange(a.len() as int, x.len() as int) =~= t.subrange(q, q + b.len()));
    assert(x.subrange(a.len() as int, x.len() as int) =~= b);
}

proof fn lemma_at_char(t: Seq<char>, p: int, x: Seq<char>, i: int)
    requires
        at(t, p, x),
        0 <= i < x.len(),
    ensures
        t[p + i] == x[i],
{
    assert(t.subrange(p, p + x.len())[i] == t[p + i]);
}

proof fn lemma_find(t: Seq<char>, p: int, x: Seq<char>, c: char, i: int)
    requires
        at(t, p, x + seq![c]),
        free_of_char(x, c),
        0 <= i <= x.len(),
    ensures
        find_one(t, p + i, c) == Some(p + x.len()),
    decreases x.len() - i,
{
    lemma_at_char(t, p, x + seq![c], i);
    if i < x.len() {
        assert((x + seq![c])[i] == x[i]);
        lemma_find(t, p, x, c, i + 1);
    }
}

proof fn lemma_find_pair(t: Seq<char>, p: int, x: Seq<char>, c: char, i: int)
    requires
        at(t, p, x + seq![c, c]),
        free_of_pair(x, c),
        0 <= i <= x.len(),
    ensures
        find_two(t, p + i, c) == Some(p + x.len()),
    decreases x.len() - i,
{
    let y = x + seq![c, c];
    lemma_at_char(t, p, y, i);
    lemma_at_char(t, p, y, i + 1);
    if i < x.len() {
        assert(y[i] == x[i]);
        if i + 1 < x.len() {
            assert(y[i + 1] == x[i + 1]);
        } else {
            assert(x[i] == x.last());
        }
        lemma_find_pair(t, p, x, c, i + 1);
    }
}

proof fn lemma_stop(t: Seq<char>, p: int, x: Seq<char>, c: char, i: int)
    requires
        at(t, p, x + seq![c]),
        free_of_char(x, c),
        free_of_char(x, '\n'),
        0 <= i <= x.len(),
    ensures
        stop_at(t, p + i, c) == p + x.len(),
    decreases x.len() - i,
{
    lemma_at_char(t, p, x + seq![c], i);
    if i < x.len() {
        assert((x + seq![c])[i] == x[i]);
        lemma_stop(t, p, x, c, i + 1);
    }
}

proof fn lemma_plain(t: Seq<char>, p: int, x: Seq<char>, runs: Seq<RunModel>, k: int)
    requires
        at(t, p, x),
        forall|i: int| 0 <= i < x.len() ==> !is_inline_mark(#[trigger] x[i]),
        0 <= k <= x.len(),
    ensures
        inline_runs(t, p + k, p, runs) == inline_runs(t, p + x.len(), p, runs),
    decreases x.len() - k,
{
    if k < x.len() {
        lemma_at_char(t, p, x, k);
        assert(span_at(t, p + k) is None);
        lemma_plain(t, p, x, runs, k + 1);
    }
}

/// A marked piece is found where it stands.
proof fn lemma_marked(t: Seq<char>, p: int, piece: Inline)
    requires
        piece.valid(),
        !(piece is Plain),
        at(t, p, piece.text()),
    ensures
        ({
            let run = piece.run();
            &&& span_at(t, p) matches Some(sp) && sp.kind == run.kind && sp.next == p + piece.text().len()
                && t.subrange(sp.a, sp.b) == run.text && t.subrange(sp.url_a, sp.url_b) == run.url
            &&& piece.text().len() > 0
        }),
{
    let x = piece.text();
    lemma_at_char(t, p, x, 0);
    match piece {
        Inline::Plain(w) => {},
        Inline::Code(w) => {
            lemma_at_parts(t, p, seq!['`'], w + seq!['`']);
            lemma_find(t, p + 1, w, '`', 0);
            lemma_at_parts(t, p + 1, w, seq!['`']);
            assert(t.subrange(0, 0) =~= Seq::empty());
        },
        Inline::Bold(c, w) => {
            lemma_at_char(t, p, x, 1);
            lemma_at_parts(t, p, seq![c, c], w + seq![c, c]);
            lemma_find_pair(t, p + 2, w, c, 0);
            lemma_at_parts(t, p + 2, w, seq![c, c]);
            assert(t.subrange(0, 0) =~= Seq::empty());
        },
        Inline::Italic(c, w) => {
            lemma_at_char(t, p, x, 1);
            assert(x[1] == w[0]);
            lemma_at_parts(t, p, seq![c], w + seq![c]);
            lemma_find(t, p + 1, w, c, 0);
            lemma_at_parts(t, p + 1, w, seq![c]);
            assert(t.subrange(0, 0) =~= Seq::empty());
        },
        Inline::Link(w, url) => {
            let tail = url + seq![')'];
            let mid = seq![']', '('] + tail;
            lemma_at_parts(t, p, seq!['['], w + mid);
            lemma_at_parts(t, p + 1, w, mid);
            let e = p + 1 + w.len();
            lemma_at_char(t, e, mid, 0);
            lemma_at_char(t, e, mid, 1);
            assert(w + mid =~= (w + seq![']']) + (seq!['('] + tail));
            lemma_at_parts(t, p + 1, w + seq![']'], seq!['('] + tail);
            lemma_stop(t, p + 1, w, ']', 0);
            lemma_at_parts(t, e, seq![']', '('], tail);
            lemma_stop(t, e + 2, url, ')', 0);
            lemma_at_parts(t, e + 2, url, seq![')']);
            lemma_at_char(t, e + 2 + url.len(), seq![')'], 0);
            assert(link_at(t, p) == Some((e, e + 2 + url.len())));
        },
    }
}

proof fn lemma_pieces(t: Seq<char>, from: int, i: int, runs: Seq<RunModel>, pieces: Seq<Inline>)
    requires
        inline_valid(pieces),
        0 <= from <= i,
        at(t, i, inline_text(pieces)),
        i + inline_text(pieces).len() == t.len(),
        from < i && pieces.len() > 0 ==> !(pieces[0] is Plain),
    ensures
        inline_runs(t, i, from, runs) == with_run(runs, RunKind::Plain, t.subrange(from, i), Seq::empty())
            + inline_shown(pieces),
    decreases pieces.len(),
{
    if pieces.len() == 0 {
        let r = with_run(runs, RunKind::Plain, t.subrange(from, i), Seq::empty());
        assert(r + inline_shown(pieces) =~= r);
    } else {
        let piece = pieces[0];
        let rest = pieces.skip(1);
        assert(piece.valid());
        lemma_at_parts(t, i, piece.text(), inline_text(rest));
        let q = i + piece.text().len();
        assert forall|k: int| 0 <= k < rest.len() implies (#[trigger] rest[k]).valid() by {
            assert(rest[k] == pieces[k + 1]);
        }
        assert forall|k: int, j: int| 0 <= k < rest.len() - 1 && j == k + 1 implies !((#[trigger] rest[k]) is Plain && (
        #[trigger] rest[j]) is Plain) by {
            assert(rest[k] == pieces[k + 1] && rest[j] == pieces[j + 1]);
        }
        let shown = inline_shown(pieces);
        assert(shown =~= seq![piece.run()] + inline_shown(rest));
        if let Inline::Plain(w) = piece {
            assert(from == i);
            lemma_plain(t, i, w, runs, 0);
            if rest.len() > 0 {
                assert(rest[0] == pieces[1]);
            }
            lemma_pieces(t, i, q, runs, rest);
            assert(t.subrange(i, q) == w);
            assert(t.subrange(from, i).len() == 0);
            assert(runs.push(piece.run()) + inline_shown(rest) =~= runs + shown);
        } else {
            lemma_marked(t, i, piece);
            let plain = with_run(runs, RunKind::Plain, t.subrange(from, i), Seq::empty());
            let styled = plain.push(piece.run());
            lemma_pieces(t, q, q, styled, rest);
            assert(t.subrange(q, q).len() == 0);
            assert(styled + inline_shown(rest) =~= plain + shown);
        }
    }
}

/// Marked text is shown run by run as it was written: code, bold, italic
/// and links without their marks and in their kind, what stands between
/// them plain.
pub proof fn law_inline_runs(pieces: Seq<Inline>)
    requires
        inline_valid(pieces),
    ensures
        runs_of(inline_text(pieces)) == inline_shown(pieces),
{
    let t = inline_text(pieces);
    assert(t.subrange(0, t.len() as int) =~= t);
    lemma_pieces(t, 0, 0, Seq::empty(), pieces);
    assert(t.subrange(0, 0).len() == 0);
    assert(Seq::<RunModel>::empty() + inline_shown(pieces) =~= inline_shown(pieces));
}

proof fn lemma_no_pair(t: Seq<char>, i: int, c: char)
    requires
        0 <= i,
        forall|k: int| i <= k < t.len() ==> #[trigger] t[k] != c,
    ensures
        find_one(t, i, c) is None,
        find_two(t, i, c) is None,
    decreases t.len() - i,
{
    if i < t.len() {
        assert(t[i] != c);
        lemma_no_pair(t, i + 1, c);
    }
}

proof fn lemma_lone(t: Seq<char>, at: int, i: int)
    requires
        0 <= i <= t.len(),
        0 <= at < t.len(),
        t[at] == '`' || t[at] == '*' || t[at] == '_',
        forall|k: int| 0 <= k < t.len() && k != at ==> !is_inline_mark(#[trigger] t[k]),
    ensures
        inline_runs(t, i, 0, Seq::empty()) == with_run(
            Seq::empty(),
            RunKind::Plain,
            t.subrange(0, t.len() as int),
            Seq::empty(),
        ),
    decreases t.len() - i,
{
    if i < t.len() {
        if i == at {
            assert forall|k: int| i + 1 <= k < t.len() implies #[trigger] t[k] != t[at] by {
                assert(!is_inline_mark(t[k]));
            }
            lemma_no_pair(t, i + 1, t[i]);
            if i + 1 < t.len() {
                assert(!is_inline_mark(t[i + 1]));
            }
        } else {
            assert(!is_inline_mark(t[i]));
        }
        assert(span_at(t, i) is None);
        lemma_lone(t, at, i + 1);
    }
}

/// A single mark that nothing closes is text.
pub proof fn law_lone_mark(t: Seq<char>, at: int)
    requires
        0 <= at < t.len(),
        t[at] == '`' || t[at] == '*' || t[at] == '_',
        forall|k: int| 0 <= k < t.len() && k != at ==> !is_inline_mark(#[trigger] t[k]),
    ensures
        runs_of(t) == seq![RunModel { kind: RunKind::Plain, text: t, url: Seq::empty() }],
{
    lemma_lone(t, at, 0);
    assert(t.subrange(0, t.len() as int) =~= t);
    let one = RunModel { kind: RunKind::Plain, text: t, url: Seq::empty() };
    assert(Seq::<RunModel>::empty().push(one) =~= seq![one]);
}

// --- table rows -----------------------------------------------------

/// A cell as it is written: blanks around its text, in which a pipe is
/// written behind a backslash.
pub struct WrittenCell {
    pub lead: Seq<char>,
    pub text: Seq<char>,
    pub tail: Seq<char>,
}

impl WrittenCell {
    pub open spec fn valid(self) -> bool {
        &&& is_white(self.lead) && free_of_char(self.lead, '\r')
        &&& is_white(self.tail) && free_of_char(self.tail, '\r')
        &&& self.text.len() > 0 && is_visible(self.text[0]) && is_visible(self.text.last())
        &&& free_of_char(self.text, '\\') && free_of_char(self.text, '\r')
    }

    pub open spec fn written(self) -> Seq<char> {
        self.lead + (escaped_pipes(self.text) + self.tail)
    }
}

/// `t` with a backslash before each pipe.
pub open spec fn escaped_pipes(t: Seq<char>) -> Seq<char>
    decreases t.len(),
{
    if t.len() == 0 {
        Seq::empty()
    } else if t[0] == '|' {
        seq!['\\', '|'] + escaped_pipes(t.skip(1))
    } else {
        seq![t[0]] + escaped_pipes(t.skip(1))
    }
}

/// The cells, each followed by a pipe; the last one only with `closed`.
pub open spec fn cells_written(cells: Seq<WrittenCell>, closed: bool) -> Seq<char>
    decreases cells.len(),
{
    if cells.len() == 0 {
        Seq::empty()
    } else if cells.len() == 1 && !closed {
        cells[0].written()
    } else {
        cells[0].written() + (seq!['|'] + cells_written(cells.skip(1), closed))
    }
}

pub open spec fn cell_texts(cells: Seq<WrittenCell>) -> Seq<Seq<char>> {
    Seq::new(cells.len(), |i: int| cells[i].text)
}

proof fn lemma_split_plain(t: Seq<char>, p: int, x: Seq<char>, cells: Seq<Seq<char>>, cur: Seq<char>)
    requires
        at(t, p, x),
        free_of_char(x, '\\'),
        free_of_char(x, '\r'),
        free_of_char(x, '|'),
    ensures
        split_cells(t, p, cells, cur) == split_cells(t, p + x.len(), cells, cur + x),
    decreases x.len(),
{
    if x.len() > 0 {
        lemma_at_char(t, p, x, 0);
        assert(x =~= seq![x[0]] + x.skip(1));
        lemma_at_parts(t, p, seq![x[0]], x.skip(1));
        lemma_split_plain(t, p + 1, x.skip(1), cells, cur.push(x[0]));
        assert(cur.push(x[0]) + x.skip(1) =~= cur + x);
    } else {
        assert(cur + x =~= cur);
    }
}

proof fn lemma_split_escaped(t: Seq<char>, p: int, x: Seq<char>, cells: Seq<Seq<char>>, cur: Seq<char>)
    requires
        at(t, p, escaped_pipes(x)),
        free_of_char(x, '\\'),
        free_of_char(x, '\r'),
    ensures
        split_cells(t, p, cells, cur) == split_cells(t, p + escaped_pipes(x).len(), cells, cur + x),
    decreases x.len(),
{
    if x.len() > 0 {
        let rest = x.skip(1);
        let w = escaped_pipes(x);
        assert(free_of_char(rest, '\\')) by {
            assert forall|i: int| 0 <= i < rest.len() implies #[trigger] rest[i] != '\\' by {
                assert(rest[i] == x[i + 1]);
            }
        }
        assert(free_of_char(rest, '\r')) by {
            assert forall|i: int| 0 <= i < rest.len() implies #[trigger] rest[i] != '\r' by {
                assert(rest[i] == x[i + 1]);
            }
        }
        lemma_at_char(t, p, w, 0);
        if x[0] == '|' {
            lemma_at_char(t, p, w, 1);
            lemma_at_parts(t, p, seq!['\\', '|'], escaped_pipes(rest));
            lemma_split_escaped(t, p + 2, rest, cells, cur.push('|'));
        } else {
            lemma_at_parts(t, p, seq![x[0]], escaped_pipes(rest));
            lemma_split_escaped(t, p + 1, rest, cells, cur.push(x[0]));
        }
        assert(cur.push(x[0]) + rest =~= cur + x);
    } else {
        assert(cur + x =~= cur);
    }
}

proof fn lemma_no_pipe(w: Seq<char>)
    requires
        is_white(w),
    ensures
        free_of_char(w, '|'),
        free_of_char(w, '\\'),
{
    assert forall|i: int| 0 <= i < w.len() implies #[trigger] w[i] != '|' by {
        assert(!is_visible(w[i]));
    }
    assert forall|i: int| 0 <= i < w.len() implies #[trigger] w[i] != '\\' by {
        assert(!is_visible(w[i]));
    }
}

/// A written cell is collected with its blanks.
proof fn lemma_split_cell(t: Seq<char>, p: int, cell: WrittenCell, cells: Seq<Seq<char>>)
    requires
        cell.valid(),
        at(t, p, cell.written()),
    ensures
        split_cells(t, p, cells, Seq::empty()) == split_cells(
            t,
            p + cell.written().len(),
            cells,
            cell.lead + cell.text + cell.tail,
        ),
{
    lemma_no_pipe(cell.lead);
    lemma_no_pipe(cell.tail);
    let w = escaped_pipes(cell.text);
    lemma_at_parts(t, p, cell.lead, w + cell.tail);
    lemma_at_parts(t, p + cell.lead.len(), w, cell.tail);
    lemma_split_plain(t, p, cell.lead, cells, Seq::empty());
    assert(Seq::<char>::empty() + cell.lead =~= cell.lead);
    lemma_split_escaped(t, p + cell.lead.len(), cell.text, cells, cell.lead);
    lemma_split_plain(t, p + cell.lead.len() + w.len(), cell.tail, cells, cell.lead + cell.text);
}

proof fn lemma_skip_white(t: Seq<char>, ws: Seq<char>, rest: Seq<char>, i: int)
    requires
        t == ws + rest,
        0 <= i <= ws.len(),
        is_white(ws),
        rest.len() > 0 ==> is_visible(rest[0]),
    ensures
        skip_space(t, i) == ws.len(),
    decreases ws.len() - i,
{
    if i < ws.len() {
        assert(t[i] == ws[i]);
        lemma_visible(t[i]);
        lemma_skip_white(t, ws, rest, i + 1);
    } else if rest.len() > 0 {
        assert(t[i] == rest[0]);
    }
}

proof fn lemma_drop_white(t: Seq<char>, front: Seq<char>, ws: Seq<char>, lo: int, n: int)
    requires
        t == front + ws,
        0 <= n <= ws.len(),
        0 <= lo < front.len(),
        is_white(ws),
        is_visible(front.last()),
    ensures
        drop_space(t, lo, front.len() + n) == front.len(),
    decreases n,
{
    if n > 0 {
        assert(t[front.len() + n - 1] == ws[n - 1]);
        lemma_visible(ws[n - 1]);
        lemma_drop_white(t, front, ws, lo, n - 1);
    } else {
        assert(t[front.len() - 1] == front.last());
    }
}

/// Trimming takes the white space off at both ends.
pub proof fn law_trimmed_text(lead: Seq<char>, text: Seq<char>, tail: Seq<char>)
    requires
        is_white(lead),
        is_white(tail),
        text.len() > 0,
        is_visible(text[0]),
        is_visible(text.last()),
    ensures
        trimmed_text(lead + text + tail) == text,
{
    let t = lead + text + tail;
    assert(t =~= lead + (text + tail));
    assert((text + tail)[0] == text[0]);
    lemma_skip_white(t, lead, text + tail, 0);
    assert((lead + text).last() == text.last());
    lemma_drop_white(t, lead + text, tail, lead.len() as int, tail.len() as int);
    assert(t.subrange(lead.len() as int, (lead.len() + text.len()) as int) =~= text);
}

/// The first character behind a cell's blanks.
proof fn lemma_cells(t: Seq<char>, p: int, cells: Seq<WrittenCell>, closed: bool, before: Seq<Seq<char>>)
    requires
        forall|i: int| 0 <= i < cells.len() ==> (#[trigger] cells[i]).valid(),
        cells.len() > 0,
        at(t, p, cells_written(cells, closed)),
        p + cells_written(cells, closed).len() == t.len(),
    ensures
        ({
            let (got, cur) = split_cells(t, p, before, Seq::empty());
            let last = trimmed_text(cur);
            &&& closed ==> got == before + cell_texts(cells) && last.len() == 0
            &&& !closed ==> got == before + cell_texts(cells.drop_last()) && last == cells.last().text
        }),
    decreases cells.len(),
{
    let cell = cells[0];
    let rest = cells.skip(1);
    assert(cell.valid());
    if cells.len() == 1 && !closed {
        lemma_split_cell(t, p, cell, before);
        law_trimmed_text(cell.lead, cell.text, cell.tail);
        assert(cell_texts(cells.drop_last()) =~= Seq::empty());
        assert(before + Seq::<Seq<char>>::empty() =~= before);
    } else {
        lemma_at_parts(t, p, cell.written(), seq!['|'] + cells_written(rest, closed));
        let q = p + cell.written().len();
        lemma_at_parts(t, q, seq!['|'], cells_written(rest, closed));
        lemma_at_char(t, q, seq!['|'], 0);
        lemma_split_cell(t, p, cell, before);
        law_trimmed_text(cell.lead, cell.text, cell.tail);
        let next = before.push(cell.text);
        assert forall|i: int| 0 <= i < rest.len() implies (#[trigger] rest[i]).valid() by {
            assert(rest[i] == cells[i + 1]);
        }
        if rest.len() == 0 {
            assert(cells_written(rest, closed).len() == 0);
            assert(split_cells(t, q + 1, next, Seq::empty()) == (next, Seq::<char>::empty()));
            assert(next =~= before + cell_texts(cells));
        } else {
            lemma_cells(t, q + 1, rest, closed, next);
            assert(next + cell_texts(rest) =~= before + cell_texts(cells));
            assert(next + cell_texts(rest.drop_last()) =~= before + cell_texts(cells.drop_last()));
        }
    }
}

proof fn lemma_skip_blanks(t: Seq<char>, n: int, i: int)
    requires
        0 <= i <= n < t.len(),
        forall|k: int| 0 <= k < n ==> (#[trigger] t[k]) == ' ' || t[k] == '\t',
        t[n] != ' ' && t[n] != '\t',
    ensures
        skip_blank_chars(t, i) == n,
    decreases n - i,
{
    if i < n {
        assert(t[i] == ' ' || t[i] == '\t');
        lemma_skip_blanks(t, n, i + 1);
    }
}

/// A row between pipes is split into the cells that were written, without
/// their outer white space; an escaped pipe is part of its cell, and the
/// last pipe may be left out.
pub proof fn law_row_cells(blanks: Seq<char>, cells: Seq<WrittenCell>, closed: bool)
    requires
        forall|k: int| 0 <= k < blanks.len() ==> (#[trigger] blanks[k]) == ' ' || blanks[k] == '\t',
        cells.len() > 0,
        forall|i: int| 0 <= i < cells.len() ==> (#[trigger] cells[i]).valid(),
    ensures
        row_cells(blanks + (seq!['|'] + cells_written(cells, closed))) == cell_texts(cells),
{
    let body = cells_written(cells, closed);
    let t = blanks + (seq!['|'] + body);
    let n = blanks.len() as int;
    assert(t[n] == '|');
    assert forall|k: int| 0 <= k < n implies (#[trigger] t[k]) == ' ' || t[k] == '\t' by {
        assert(t[k] == blanks[k]);
    }
    lemma_skip_blanks(t, n, 0);
    assert(t.subrange(n + 1, n + 1 + body.len()) =~= body);
    lemma_cells(t, n + 1, cells, closed, Seq::empty());
    assert(Seq::<Seq<char>>::empty() + cell_texts(cells) =~= cell_texts(cells));
    let before = cells.drop_last();
    assert(Seq::<Seq<char>>::empty() + cell_texts(before) =~= cell_texts(before));
    assert(cell_texts(before).push(cells.last().text) =~= cell_texts(cells));
    assert(cells[cells.len() - 1].valid());
}

/// Dashes with a colon at neither end, the left, the right or both align
/// a column left, left, right or centred; anything else is no alignment.
pub proof fn law_cell_align(left: bool, dashes: nat, right: bool)
    requires
        dashes > 0,
    ensures
        cell_align(
            (if left {
                seq![':']
            } else {
                Seq::empty()
            }) + repeated('-', dashes) + (if right {
                seq![':']
            } else {
                Seq::empty()
            }),
        ) == Some(
            if left && right {
                CellAlign::Center
            } else if right {
                CellAlign::Right
            } else {
                CellAlign::Left
            },
        ),
{
    let l = if left {
        seq![':']
    } else {
        Seq::empty()
    };
    let r = if right {
        seq![':']
    } else {
        Seq::empty()
    };
    let t = l + repeated('-', dashes) + r;
    if left {
        assert(t[0] == ':');
    } else {
        assert(t[0] == '-');
    }
    if right {
        assert(t.last() == ':');
    } else {
        assert(t.last() == '-');
    }
}

/// A cell that says how a column is aligned is made of dashes and colons
/// alone, with a dash in it.
pub proof fn law_cell_align_shape(t: Seq<char>)
    requires
        cell_align(t) is Some,
    ensures
        exists|i: int| 0 <= i < t.len() && #[trigger] t[i] == '-',
        forall|i: int| 0 <= i < t.len() ==> (#[trigger] t[i]) == '-' || ((i == 0 || i == t.len() - 1) && t[i] == ':'),
{
    let a = if t[0] == ':' {
        1int
    } else {
        0int
    };
    assert(t[a] == '-');
}

proof fn lemma_widest(rows: Seq<Seq<Seq<char>>>, n: int)
    requires
        0 <= n <= rows.len(),
    ensures
        0 <= widest_row(rows, n),
        forall|i: int| 0 <= i < n ==> (#[trigger] rows[i]).len() <= widest_row(rows, n),
        n > 0 ==> exists|i: int| 0 <= i < n && (#[trigger] rows[i]).len() == widest_row(rows, n),
    decreases n,
{
    if n > 0 {
        lemma_widest(rows, n - 1);
        if rows[n - 1].len() > widest_row(rows, n - 1) || n == 1 {
            assert(rows[n - 1].len() == widest_row(rows, n));
        } else {
            let i = choose|i: int| 0 <= i < n - 1 && (#[trigger] rows[i]).len() == widest_row(rows, n - 1);
            assert(rows[i].len() == widest_row(rows, n));
        }
    }
}

/// A table has as many columns as its widest line has cells, every row
/// has that many cells, and each cell shows its text, a missing one
/// nothing. A second line of alignments is no row: the line before it is
/// the header, and each column is aligned as it says, else left.
pub proof fn law_table(lines: Seq<Seq<char>>)
    requires
        lines.len() > 0,
    ensures
        table_model(lines) matches BlockModel::Table { header, aligns, rows } && {
            let n = aligns.len() as int;
            let skipped = if header {
                1int
            } else {
                0int
            };
            &&& header <==> lines.len() >= 2 && forall|c: int|
                0 <= c < row_cells(lines[1]).len() ==> cell_align(#[trigger] row_cells(lines[1])[c]) is Some
            &&& forall|i: int| 0 <= i < lines.len() ==> row_cells(#[trigger] lines[i]).len() <= n
            &&& exists|i: int| 0 <= i < lines.len() && row_cells(#[trigger] lines[i]).len() == n
            &&& rows.len() == lines.len() - skipped
            &&& forall|i: int, c: int|
                0 <= i < rows.len() && 0 <= c < n ==> {
                    let line = if i == 0 {
                        0
                    } else {
                        i + skipped
                    };
                    let cells = row_cells(lines[line]);
                    #[trigger] rows[i][c] == if c < cells.len() {
                        runs_of(cells[c])
                    } else {
                        Seq::empty()
                    }
                }
            &&& forall|i: int| 0 <= i < rows.len() ==> (#[trigger] rows[i]).len() == n
            &&& forall|c: int|
                0 <= c < n ==> (#[trigger] aligns[c]) == if header && c < row_cells(lines[1]).len() {
                    cell_align(row_cells(lines[1])[c])->0
                } else {
                    CellAlign::Left
                }
        },
{
    let all = table_cells(lines);
    lemma_widest(all, all.len() as int);
    let n = widest_row(all, all.len() as int);
    assert forall|i: int| 0 <= i < lines.len() implies row_cells(#[trigger] lines[i]).len() <= n by {
        assert(all[i].len() <= n);
    }
    let w = choose|i: int| 0 <= i < all.len() && (#[trigger] all[i]).len() == n;
    assert(row_cells(lines[w]).len() == n);
    let empty = Seq::<char>::empty();
    assert(empty.subrange(0, 0) =~= empty);
    assert(runs_of(empty) =~= Seq::empty());
}

} // verus!
