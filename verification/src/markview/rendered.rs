//! Rendered view: what to show of a markdown document.
//!
//! Block-level layout is driven by the parser's classification of each
//! source line. Inline marks (`code`, `**bold**`, `*italic*`,
//! `[text](url)`) are scanned here. The host turns blocks and runs into
//! attributed text.

use vstd::prelude::*;

use crate::ascii::CR;
use crate::columns::{
    char_reaching, chars_of_line, lemma_line_chars, lemma_prefix_bytes, len_utf8, line_chars, prefix_bytes,
};
use crate::doc::line_end_of;
use crate::markdown_core::{
    cell_align, parse_table_separator, row_cells, split_table_row, BlockKind, BlockLine, CellAlign, ParseOutput,
};
use crate::text::{drop_space, is_space, is_space_char, skip_space, string_of, texts};

verus! {

// --- inline runs ----------------------------------------------------

/// How a run of inline text is styled.
#[derive(Debug, Clone, Copy, PartialEq, Eq, Structural)]
pub enum RunKind {
    Plain,
    Code,
    Bold,
    Italic,
    Link,
}

/// A run of inline text; `url` is the target of a link.
#[derive(Debug)]
pub struct Run {
    pub kind: RunKind,
    pub text: String,
    pub url: String,
}

/// A run, as text.
pub struct RunModel {
    pub kind: RunKind,
    pub text: Seq<char>,
    pub url: Seq<char>,
}

impl View for Run {
    type V = RunModel;

    open spec fn view(&self) -> RunModel {
        RunModel { kind: self.kind, text: self.text@, url: self.url@ }
    }
}

pub open spec fn run_models(v: Seq<Run>) -> Seq<RunModel> {
    Seq::new(v.len(), |i: int| v[i]@)
}

/// First position at or after `i` of `c`.
pub open spec fn find_one(t: Seq<char>, i: int, c: char) -> Option<int>
    decreases t.len() - i,
{
    if i < 0 || i >= t.len() {
        None
    } else if t[i] == c {
        Some(i)
    } else {
        find_one(t, i + 1, c)
    }
}

/// First position at or after `i` of two `c` in a row.
pub open spec fn find_two(t: Seq<char>, i: int, c: char) -> Option<int>
    decreases t.len() - i,
{
    if i < 0 || i + 1 >= t.len() {
        None
    } else if t[i] == c && t[i + 1] == c {
        Some(i)
    } else {
        find_two(t, i + 1, c)
    }
}

/// First position at or after `i` of `c` or a line feed, or the end.
pub open spec fn stop_at(t: Seq<char>, i: int, c: char) -> int
    decreases t.len() - i,
{
    if 0 <= i < t.len() && t[i] != c && t[i] != '\n' {
        stop_at(t, i + 1, c)
    } else {
        i
    }
}

/// A link `[text](url)` whose bracket stands at `i`: ends of the text
/// and of the url.
pub open spec fn link_at(t: Seq<char>, i: int) -> Option<(int, int)> {
    let e = stop_at(t, i + 1, ']');
    if e + 1 < t.len() && t[e] == ']' && t[e + 1] == '(' {
        let m = stop_at(t, e + 2, ')');
        if m < t.len() && t[m] == ')' {
            Some((e, m))
        } else {
            None
        }
    } else {
        None
    }
}

/// The styled span at `i`: its kind, the range of its text, the range of
/// its url, and where the text goes on after it.
pub struct Span {
    pub kind: RunKind,
    pub a: int,
    pub b: int,
    pub url_a: int,
    pub url_b: int,
    pub next: int,
}

pub open spec fn span_at(t: Seq<char>, i: int) -> Option<Span> {
    if t[i] == '`' {
        match find_one(t, i + 1, '`') {
            Some(e) => Some(Span { kind: RunKind::Code, a: i + 1, b: e, url_a: 0, url_b: 0, next: e + 1 }),
            None => None,
        }
    } else if t[i] == '*' || t[i] == '_' {
        if i + 1 < t.len() && t[i + 1] == t[i] {
            match find_two(t, i + 2, t[i]) {
                Some(e) => Some(Span { kind: RunKind::Bold, a: i + 2, b: e, url_a: 0, url_b: 0, next: e + 2 }),
                None => None,
            }
        } else {
            match find_one(t, i + 1, t[i]) {
                Some(e) => Some(Span { kind: RunKind::Italic, a: i + 1, b: e, url_a: 0, url_b: 0, next: e + 1 }),
                None => None,
            }
        }
    } else if t[i] == '[' {
        match link_at(t, i) {
            Some((e, m)) => Some(
                Span { kind: RunKind::Link, a: i + 1, b: e, url_a: e + 2, url_b: m, next: m + 1 },
            ),
            None => None,
        }
    } else {
        None
    }
}

/// `runs` and one more, unless it is empty.
pub open spec fn with_run(runs: Seq<RunModel>, kind: RunKind, text: Seq<char>, url: Seq<char>) -> Seq<RunModel> {
    if text.len() == 0 {
        runs
    } else {
        runs.push(RunModel { kind, text, url })
    }
}

/// The runs of `t` from `i` on, after `runs`; `t[from..i]` is plain text
/// not yet emitted.
pub open spec fn inline_runs(t: Seq<char>, i: int, from: int, runs: Seq<RunModel>) -> Seq<RunModel>
    decreases t.len() - i,
{
    proof {
        if 0 <= i < t.len() {
            lemma_span_at(t, i);
        }
    }
    if i < 0 || i >= t.len() {
        with_run(runs, RunKind::Plain, t.subrange(from, t.len() as int), Seq::empty())
    } else {
        match span_at(t, i) {
            Some(sp) => inline_runs(
                t,
                sp.next,
                sp.next,
                with_run(
                    with_run(runs, RunKind::Plain, t.subrange(from, i), Seq::empty()),
                    sp.kind,
                    t.subrange(sp.a, sp.b),
                    t.subrange(sp.url_a, sp.url_b),
                ),
            ),
            None => inline_runs(t, i + 1, from, runs),
        }
    }
}

/// The runs of a line of text.
pub open spec fn runs_of(t: Seq<char>) -> Seq<RunModel> {
    inline_runs(t, 0, 0, Seq::empty())
}

proof fn lemma_find_one(t: Seq<char>, i: int, c: char)
    requires
        0 <= i,
    ensures
        find_one(t, i, c) matches Some(e) ==> i <= e < t.len() && t[e] == c,
    decreases t.len() - i,
{
    if i < t.len() && t[i] != c {
        lemma_find_one(t, i + 1, c);
    }
}

proof fn lemma_find_two(t: Seq<char>, i: int, c: char)
    requires
        0 <= i,
    ensures
        find_two(t, i, c) matches Some(e) ==> i <= e && e + 1 < t.len(),
    decreases t.len() - i,
{
    if i + 1 < t.len() && !(t[i] == c && t[i + 1] == c) {
        lemma_find_two(t, i + 1, c);
    }
}

proof fn lemma_stop_at(t: Seq<char>, i: int, c: char)
    requires
        0 <= i <= t.len(),
    ensures
        i <= stop_at(t, i, c) <= t.len(),
    decreases t.len() - i,
{
    if i < t.len() && t[i] != c && t[i] != '\n' {
        lemma_stop_at(t, i + 1, c);
    }
}

pub proof fn lemma_span_at(t: Seq<char>, i: int)
    requires
        0 <= i < t.len(),
    ensures
        span_at(t, i) matches Some(sp) ==> i < sp.a <= sp.b < sp.next <= t.len() && 0 <= sp.url_a <= sp.url_b
            < t.len(),
{
    lemma_find_one(t, i + 1, t[i]);
    lemma_find_two(t, i + 2, t[i]);
    lemma_stop_at(t, i + 1, ']');
    let e = stop_at(t, i + 1, ']');
    if e + 1 < t.len() {
        lemma_stop_at(t, e + 2, ')');
    }
}

fn find_match(t: &[char], i: usize, c: char) -> (r: Option<usize>)
    requires
        i <= t@.len(),
    ensures
        r matches Some(e) ==> find_one(t@, i as int, c) == Some(e as int) && i <= e < t@.len(),
        r is None ==> find_one(t@, i as int, c) is None,
{
    let mut j: usize = i;
    while j < t.len()
        invariant
            i <= j <= t@.len(),
            find_one(t@, j as int, c) == find_one(t@, i as int, c),
        decreases t@.len() - j,
    {
        if t[j] == c {
            return Some(j);
        }
        j += 1;
    }
    None
}

fn find_double_marker(t: &[char], i: usize, c: char) -> (r: Option<usize>)
    requires
        i <= t@.len(),
    ensures
        r matches Some(e) ==> find_two(t@, i as int, c) == Some(e as int) && i <= e && e + 1 < t@.len(),
        r is None ==> find_two(t@, i as int, c) is None,
{
    let mut j: usize = i;
    while j < t.len() && t.len() - j > 1
        invariant
            i <= j <= t@.len(),
            find_two(t@, j as int, c) == find_two(t@, i as int, c),
        decreases t@.len() - j,
    {
        if t[j] == c && t[j + 1] == c {
            return Some(j);
        }
        j += 1;
    }
    None
}

fn find_stop(t: &[char], i: usize, c: char) -> (r: usize)
    requires
        i <= t@.len(),
    ensures
        r == stop_at(t@, i as int, c),
        i <= r <= t@.len(),
{
    let mut j: usize = i;
    while j < t.len() && t[j] != c && t[j] != '\n'
        invariant
            i <= j <= t@.len(),
            stop_at(t@, j as int, c) == stop_at(t@, i as int, c),
        decreases t@.len() - j,
    {
        j += 1;
    }
    j
}

/// Ends of the text and of the url of a `[text](url)` link whose bracket
/// stands at `i`. Escaped brackets and balanced parens are not handled.
fn parse_link(t: &[char], i: usize) -> (r: Option<(usize, usize)>)
    requires
        i < t@.len(),
    ensures
        r matches Some((e, m)) ==> link_at(t@, i as int) == Some((e as int, m as int)),
        r is None ==> link_at(t@, i as int) is None,
{
    let n: usize = t.len();
    let e = find_stop(t, i + 1, ']');
    if e >= n || n - e < 2 || t[e] != ']' || t[e + 1] != '(' {
        return None;
    }
    let m = find_stop(t, e + 2, ')');
    if m < t.len() && t[m] == ')' {
        Some((e, m))
    } else {
        None
    }
}

fn push_run(runs: &mut Vec<Run>, kind: RunKind, t: &[char], a: usize, b: usize, url_a: usize, url_b: usize)
    requires
        a <= b <= t@.len(),
        url_a <= url_b <= t@.len(),
    ensures
        run_models(final(runs)@) == with_run(
            run_models(old(runs)@),
            kind,
            t@.subrange(a as int, b as int),
            t@.subrange(url_a as int, url_b as int),
        ),
{
    if a < b {
        let run = Run { kind, text: string_of(t, a, b), url: string_of(t, url_a, url_b) };
        let ghost before = run_models(runs@);
        runs.push(run);
        assert(run_models(runs@) =~= before.push(run@));
    }
}

/// Splits a line of text into plain, code, bold, italic and link runs.
pub fn render_inline(t: &[char]) -> (r: Vec<Run>)
    ensures
        run_models(r@) == runs_of(t@),
{
    let mut runs: Vec<Run> = Vec::new();
    let mut i: usize = 0;
    let mut from: usize = 0;
    proof {
        assert(run_models(runs@) =~= Seq::<RunModel>::empty());
    }
    while i < t.len()
        invariant
            from <= i <= t@.len(),
            inline_runs(t@, i as int, from as int, run_models(runs@)) == runs_of(t@),
        decreases t@.len() - i,
    {
        proof {
            lemma_span_at(t@, i as int);
            assert(t@.subrange(0, 0) =~= Seq::<char>::empty());
        }
        let c = t[i];
        let ghost before = run_models(runs@);
        let mut found = false;
        let mut next: usize = i + 1;
        if c == '`' {
            if let Some(e) = find_match(t, i + 1, '`') {
                push_run(&mut runs, RunKind::Plain, t, from, i, 0, 0);
                push_run(&mut runs, RunKind::Code, t, i + 1, e, 0, 0);
                found = true;
                next = e + 1;
            }
        } else if c == '*' || c == '_' {
            if t.len() - i > 1 && t[i + 1] == c {
                if let Some(e) = find_double_marker(t, i + 2, c) {
                    push_run(&mut runs, RunKind::Plain, t, from, i, 0, 0);
                    push_run(&mut runs, RunKind::Bold, t, i + 2, e, 0, 0);
                    found = true;
                    next = e + 2;
                }
            } else if let Some(e) = find_match(t, i + 1, c) {
                push_run(&mut runs, RunKind::Plain, t, from, i, 0, 0);
                push_run(&mut runs, RunKind::Italic, t, i + 1, e, 0, 0);
                found = true;
                next = e + 1;
            }
        } else if c == '[' {
            if let Some((e, m)) = parse_link(t, i) {
                push_run(&mut runs, RunKind::Plain, t, from, i, 0, 0);
                push_run(&mut runs, RunKind::Link, t, i + 1, e, e + 2, m);
                found = true;
                next = m + 1;
            }
        }
        if found {
            from = next;
        }
        i = next;
    }
    push_run(&mut runs, RunKind::Plain, t, from, t.len(), 0, 0);
    proof {
        assert(t@.subrange(0, 0) =~= Seq::<char>::empty());
    }
    runs
}

// --- lines ----------------------------------------------------------

/// End of the run of `c` at `i`.
pub open spec fn char_run(t: Seq<char>, i: int, c: char) -> int
    decreases t.len() - i,
{
    if 0 <= i < t.len() && t[i] == c {
        char_run(t, i + 1, c)
    } else {
        i
    }
}

fn find_char_run(t: &[char], i: usize, c: char) -> (r: usize)
    requires
        i <= t@.len(),
    ensures
        r == char_run(t@, i as int, c),
        i <= r <= t@.len(),
{
    let mut j: usize = i;
    while j < t.len() && t[j] == c
        invariant
            i <= j <= t@.len(),
            char_run(t@, j as int, c) == char_run(t@, i as int, c),
        decreases t@.len() - j,
    {
        j += 1;
    }
    j
}

pub open spec fn is_blank_char(c: char) -> bool {
    c == ' ' || c == '\t'
}

pub open spec fn skip_blank(t: Seq<char>, i: int) -> int
    decreases t.len() - i,
{
    if 0 <= i < t.len() && is_blank_char(t[i]) {
        skip_blank(t, i + 1)
    } else {
        i
    }
}

/// `hi` without the blanks before it, and with `cr` without the carriage
/// returns too, down to `lo`.
pub open spec fn drop_blank(t: Seq<char>, lo: int, hi: int, cr: bool) -> int
    decreases hi,
{
    if lo < hi && 0 < hi <= t.len() && (is_blank_char(t[hi - 1]) || (cr && t[hi - 1] == '\r')) {
        drop_blank(t, lo, hi - 1, cr)
    } else {
        hi
    }
}

pub open spec fn drop_hash(t: Seq<char>, lo: int, hi: int) -> int
    decreases hi,
{
    if lo < hi && 0 < hi <= t.len() && t[hi - 1] == '#' {
        drop_hash(t, lo, hi - 1)
    } else {
        hi
    }
}

/// A heading's text: without the hashes, the blanks around it, and an
/// optional closing run of hashes that a blank precedes.
pub open spec fn heading_text(t: Seq<char>) -> Seq<char> {
    let lo = skip_blank(t, char_run(t, char_run(t, 0, ' '), '#'));
    let hi = drop_blank(t, lo, t.len() as int, true);
    let k = drop_hash(t, lo, hi);
    if k < hi && (k == lo || is_blank_char(t[k - 1])) {
        t.subrange(lo, drop_blank(t, lo, k, false))
    } else {
        t.subrange(lo, hi)
    }
}

fn strip_heading(t: &[char]) -> (r: String)
    ensures
        r@ == heading_text(t@),
{
    let hashes = find_char_run(t, 0, ' ');
    let after = find_char_run(t, hashes, '#');
    let mut lo: usize = after;
    while lo < t.len() && (t[lo] == ' ' || t[lo] == '\t')
        invariant
            after <= lo <= t@.len(),
            skip_blank(t@, lo as int) == skip_blank(t@, after as int),
        decreases t@.len() - lo,
    {
        lo += 1;
    }
    let mut hi: usize = t.len();
    while hi > lo && (t[hi - 1] == ' ' || t[hi - 1] == '\t' || t[hi - 1] == '\r')
        invariant
            lo <= hi <= t@.len(),
            drop_blank(t@, lo as int, hi as int, true) == drop_blank(t@, lo as int, t@.len() as int, true),
        decreases hi,
    {
        hi -= 1;
    }
    let mut k: usize = hi;
    while k > lo && t[k - 1] == '#'
        invariant
            lo <= k <= hi <= t@.len(),
            drop_hash(t@, lo as int, k as int) == drop_hash(t@, lo as int, hi as int),
        decreases k,
    {
        k -= 1;
    }
    if k < hi && (k == lo || t[k - 1] == ' ' || t[k - 1] == '\t') {
        hi = k;
        while hi > lo && (t[hi - 1] == ' ' || t[hi - 1] == '\t')
            invariant
                lo <= hi <= k <= t@.len(),
                drop_blank(t@, lo as int, hi as int, false) == drop_blank(t@, lo as int, k as int, false),
            decreases hi,
        {
            hi -= 1;
        }
    }
    string_of(t, lo, hi)
}

/// Where the text of a blockquote line starts: after the leading spaces,
/// the `>` and one blank.
pub open spec fn quote_start(t: Seq<char>) -> int {
    let i = char_run(t, 0, ' ');
    if 0 <= i < t.len() && t[i] == '>' {
        if i + 1 < t.len() && is_blank_char(t[i + 1]) {
            i + 2
        } else {
            i + 1
        }
    } else {
        i
    }
}

fn find_quote_start(t: &[char]) -> (r: usize)
    ensures
        r == quote_start(t@),
        r <= t@.len(),
{
    let i = find_char_run(t, 0, ' ');
    if i < t.len() && t[i] == '>' {
        if t.len() - i > 1 && (t[i + 1] == ' ' || t[i + 1] == '\t') {
            i + 2
        } else {
            i + 1
        }
    } else {
        i
    }
}

/// A line that opens or closes a fence: at most three spaces, then three
/// or more backticks or tildes.
pub open spec fn is_fence(t: Seq<char>) -> bool {
    let i = char_run(t, 0, ' ');
    i < 4 && i < t.len() && (t[i] == '`' || t[i] == '~') && char_run(t, i, t[i]) - i >= 3
}

fn looks_like_fence(t: &[char]) -> (r: bool)
    ensures
        r == is_fence(t@),
{
    let i = find_char_run(t, 0, ' ');
    if i >= 4 || i >= t.len() {
        return false;
    }
    let c = t[i];
    if c != '`' && c != '~' {
        return false;
    }
    find_char_run(t, i, c) - i >= 3
}

/// The trimmed range of a paragraph line.
pub open spec fn trimmed_range(t: Seq<char>) -> (int, int) {
    let hi = drop_space(t, 0, t.len() as int);
    let lo = skip_space(t, 0);
    (if lo < hi {
        lo
    } else {
        hi
    }, hi)
}

/// A line's content in a paragraph: trimmed, without the backslash of a
/// hard break.
pub open spec fn line_content(t: Seq<char>) -> Seq<char> {
    let (lo, hi) = trimmed_range(t);
    if lo < hi && t[hi - 1] == '\\' {
        t.subrange(lo, hi - 1)
    } else {
        t.subrange(lo, hi)
    }
}

/// A hard line break: two or more trailing spaces, or a trailing
/// backslash.
pub open spec fn is_hard_break(t: Seq<char>) -> bool {
    let (lo, hi) = trimmed_range(t);
    let n = t.len() as int;
    (n >= 2 && t[n - 1] == ' ' && t[n - 2] == ' ') || (lo < hi && t[hi - 1] == '\\')
}

/// The lines of one paragraph joined: a soft break becomes a space, a
/// hard one a line separator.
pub open spec fn joined_lines(lines: Seq<Seq<char>>) -> Seq<char>
    decreases lines.len(),
{
    if lines.len() == 0 {
        Seq::empty()
    } else if lines.len() == 1 {
        line_content(lines[0])
    } else {
        let before = lines.drop_last();
        joined_lines(before).push(
            if is_hard_break(before.last()) {
                '\u{2028}'
            } else {
                ' '
            },
        ) + line_content(lines.last())
    }
}

proof fn lemma_trimmed_range(t: Seq<char>)
    ensures
        0 <= trimmed_range(t).0 <= trimmed_range(t).1 <= t.len(),
{
    lemma_drop_space(t, 0, t.len() as int);
    lemma_skip_space(t, 0);
}

proof fn lemma_drop_space(t: Seq<char>, lo: int, hi: int)
    requires
        0 <= lo <= hi <= t.len(),
    ensures
        lo <= drop_space(t, lo, hi) <= hi,
    decreases hi,
{
    if lo < hi && is_space(t[hi - 1]) {
        lemma_drop_space(t, lo, hi - 1);
    }
}

proof fn lemma_skip_space(t: Seq<char>, i: int)
    requires
        0 <= i <= t.len(),
    ensures
        i <= skip_space(t, i) <= t.len(),
    decreases t.len() - i,
{
    if i < t.len() && is_space(t[i]) {
        lemma_skip_space(t, i + 1);
    }
}

fn find_skip_space(t: &[char], i: usize) -> (r: usize)
    requires
        i <= t@.len(),
    ensures
        r == skip_space(t@, i as int),
        i <= r <= t@.len(),
{
    let mut j: usize = i;
    while j < t.len() && is_space_char(t[j])
        invariant
            i <= j <= t@.len(),
            skip_space(t@, j as int) == skip_space(t@, i as int),
        decreases t@.len() - j,
    {
        j += 1;
    }
    j
}

/// Appends the content of a paragraph line; returns whether a hard break
/// follows it.
fn push_content(out: &mut Vec<char>, t: &[char]) -> (hard: bool)
    ensures
        final(out)@ == old(out)@ + line_content(t@),
        hard == is_hard_break(t@),
{
    proof {
        lemma_trimmed_range(t@);
    }
    let mut hi: usize = t.len();
    while hi > 0 && is_space_char(t[hi - 1])
        invariant
            hi <= t@.len(),
            drop_space(t@, 0, hi as int) == drop_space(t@, 0, t@.len() as int),
        decreases hi,
    {
        hi -= 1;
    }
    let mut lo: usize = find_skip_space(t, 0);
    if lo > hi {
        lo = hi;
    }
    let slash = lo < hi && t[hi - 1] == '\\';
    let end: usize = if slash {
        hi - 1
    } else {
        hi
    };
    let mut k: usize = lo;
    while k < end
        invariant
            lo <= k <= end <= t@.len(),
            out@ == old(out)@ + t@.subrange(lo as int, k as int),
        decreases end - k,
    {
        out.push(t[k]);
        k += 1;
        assert(out@ =~= old(out)@ + t@.subrange(lo as int, k as int));
    }
    assert(out@ =~= old(out)@ + t@.subrange(lo as int, end as int));
    let n: usize = t.len();
    let spaces = n >= 2 && t[n - 1] == ' ' && t[n - 2] == ' ';
    spaces || slash
}

// --- list items -----------------------------------------------------

/// Number of tabs among the first `k` characters.
pub open spec fn tabs_in(t: Seq<char>, k: int) -> nat
    decreases k,
{
    if k <= 0 {
        0
    } else {
        tabs_in(t, k - 1) + if t[k - 1] == '\t' {
            1nat
        } else {
            0nat
        }
    }
}

/// Nesting depth of a list item from its leading white space: a tab is a
/// level, two to four spaces are one, and any indentation is at least one.
pub open spec fn list_depth(t: Seq<char>) -> int {
    let k = skip_space(t, 0);
    let leading = prefix_bytes(t, k) as int;
    let tabs = tabs_in(t, k) as int;
    if leading == 0 {
        0
    } else {
        let depth = tabs + (leading - tabs + 1) / 3;
        if depth < 1 {
            1
        } else {
            depth
        }
    }
}

/// Text of a list item after its marker of `marker_len` bytes, as far as
/// the indentation does not take it up.
pub open spec fn list_body(t: Seq<char>, marker_len: int) -> Seq<char> {
    let k = skip_space(t, 0);
    let leading = prefix_bytes(t, k) as int;
    let skip = if marker_len > leading {
        marker_len - leading
    } else {
        0
    };
    let rest = t.subrange(k, t.len() as int);
    let j = char_reaching(rest, 0, skip);
    if j < rest.len() && prefix_bytes(rest, j) != skip {
        Seq::empty()
    } else {
        rest.subrange(skip_space(rest, j), rest.len() as int)
    }
}

/// End of the characters at `i` that are not white space.
pub open spec fn word_end(t: Seq<char>, i: int) -> int
    decreases t.len() - i,
{
    if 0 <= i < t.len() && !is_space(t[i]) {
        word_end(t, i + 1)
    } else {
        i
    }
}

/// Marker shown before a list item: its number as written, or a bullet.
pub open spec fn list_prefix(t: Seq<char>, ordered: bool) -> Seq<char> {
    if ordered {
        let k = skip_space(t, 0);
        t.subrange(k, word_end(t, k)).push('\t')
    } else {
        seq!['\u{2022}', '\t']
    }
}

fn list_depth_of(t: &[char]) -> (r: usize)
    requires
        prefix_bytes(t@, t@.len() as int) < usize::MAX,
    ensures
        r == list_depth(t@),
{
    let k = find_skip_space(t, 0);
    let mut leading: usize = 0;
    let mut tabs: usize = 0;
    let mut i: usize = 0;
    while i < k
        invariant
            i <= k <= t@.len(),
            leading == prefix_bytes(t@, i as int),
            tabs == tabs_in(t@, i as int),
            tabs <= i <= leading,
            prefix_bytes(t@, t@.len() as int) < usize::MAX,
        decreases k - i,
    {
        proof {
            lemma_prefix_bytes(t@, i + 1, t@.len() as int);
        }
        leading += len_utf8(t[i]);
        if t[i] == '\t' {
            tabs += 1;
        }
        i += 1;
    }
    if leading == 0 {
        return 0;
    }
    proof {
        lemma_prefix_bytes(t@, k as int, t@.len() as int);
    }
    let depth: usize = tabs + (leading - tabs + 1) / 3;
    if depth < 1 {
        1
    } else {
        depth
    }
}

fn list_body_runs(t: &[char], marker_len: u32) -> (r: Vec<Run>)
    requires
        prefix_bytes(t@, t@.len() as int) < usize::MAX,
    ensures
        run_models(r@) == runs_of(list_body(t@, marker_len as int)),
{
    let k = find_skip_space(t, 0);
    let mut leading: usize = 0;
    let mut i: usize = 0;
    while i < k
        invariant
            i <= k <= t@.len(),
            leading == prefix_bytes(t@, i as int),
            prefix_bytes(t@, t@.len() as int) < usize::MAX,
        decreases k - i,
    {
        proof {
            lemma_prefix_bytes(t@, i + 1, t@.len() as int);
        }
        leading += len_utf8(t[i]);
        i += 1;
    }
    let skip: usize = if marker_len as usize > leading {
        marker_len as usize - leading
    } else {
        0
    };
    let rest = vstd::slice::slice_subrange(t, k, t.len());
    let mut j: usize = 0;
    let mut at: usize = 0;
    proof {
        lemma_tail_bytes(t@, k as int);
    }
    while j < rest.len() && at < skip
        invariant
            j <= rest@.len(),
            at == prefix_bytes(rest@, j as int),
            prefix_bytes(rest@, rest@.len() as int) <= usize::MAX,
            char_reaching(rest@, j as int, skip as int) == char_reaching(rest@, 0, skip as int),
        decreases rest@.len() - j,
    {
        proof {
            lemma_prefix_bytes(rest@, j + 1, rest@.len() as int);
        }
        at += len_utf8(rest[j]);
        j += 1;
    }
    if j < rest.len() && at != skip {
        let none = vstd::slice::slice_subrange(rest, 0, 0);
        assert(none@ =~= Seq::<char>::empty());
        return render_inline(none);
    }
    let from = find_skip_space(rest, j);
    render_inline(vstd::slice::slice_subrange(rest, from, rest.len()))
}

/// The bytes of a tail are no more than those of the whole.
proof fn lemma_tail_bytes(t: Seq<char>, k: int)
    requires
        0 <= k <= t.len(),
    ensures
        prefix_bytes(t.subrange(k, t.len() as int), t.len() - k) == prefix_bytes(t, t.len() as int) - prefix_bytes(
            t,
            k,
        ),
{
    lemma_part_bytes(t, k, t.len() - k);
}

proof fn lemma_part_bytes(t: Seq<char>, k: int, n: int)
    requires
        0 <= k,
        0 <= n,
        k + n <= t.len(),
    ensures
        prefix_bytes(t.subrange(k, t.len() as int), n) == prefix_bytes(t, k + n) - prefix_bytes(t, k),
    decreases n,
{
    if n > 0 {
        lemma_part_bytes(t, k, n - 1);
        assert(t.subrange(k, t.len() as int)[n - 1] == t[k + n - 1]);
    }
}

fn list_prefix_of(t: &[char], ordered: bool) -> (r: String)
    ensures
        r@ == list_prefix(t@, ordered),
{
    if ordered {
        let k = find_skip_space(t, 0);
        let mut e: usize = k;
        while e < t.len() && !is_space_char(t[e])
            invariant
                k <= e <= t@.len(),
                word_end(t@, e as int) == word_end(t@, k as int),
            decreases t@.len() - e,
        {
            e += 1;
        }
        let mut out = string_of(t, k, e);
        out.push('\t');
        out
    } else {
        let mut out = String::new();
        out.push('\u{2022}');
        out.push('\t');
        assert(out@ =~= seq!['\u{2022}', '\t']);
        out
    }
}

// --- blocks ---------------------------------------------------------

/// A block of the rendered document.
#[derive(Debug)]
pub enum Block {
    Blank,
    Heading { level: u32, text: String },
    Paragraph { runs: Vec<Run> },
    Quote { runs: Vec<Run> },
    ListItem { depth: usize, prefix: String, runs: Vec<Run> },
    Rule,
    /// Lines of code, joined by line separators.
    Code { text: String },
    Table { header: bool, aligns: Vec<CellAlign>, rows: Vec<Vec<Vec<Run>>> },
}

/// A block, as text.
pub enum BlockModel {
    Blank,
    Heading { level: u32, text: Seq<char> },
    Paragraph { runs: Seq<RunModel> },
    Quote { runs: Seq<RunModel> },
    ListItem { depth: int, prefix: Seq<char>, runs: Seq<RunModel> },
    Rule,
    Code { text: Seq<char> },
    Table { header: bool, aligns: Seq<CellAlign>, rows: Seq<Seq<Seq<RunModel>>> },
}

pub open spec fn cell_models(cells: Seq<Vec<Run>>) -> Seq<Seq<RunModel>> {
    Seq::new(cells.len(), |i: int| run_models(cells[i]@))
}

pub open spec fn row_models(rows: Seq<Vec<Vec<Run>>>) -> Seq<Seq<Seq<RunModel>>> {
    Seq::new(rows.len(), |i: int| cell_models(rows[i]@))
}

impl View for Block {
    type V = BlockModel;

    open spec fn view(&self) -> BlockModel {
        match self {
            Block::Blank => BlockModel::Blank,
            Block::Heading { level, text } => BlockModel::Heading { level: *level, text: text@ },
            Block::Paragraph { runs } => BlockModel::Paragraph { runs: run_models(runs@) },
            Block::Quote { runs } => BlockModel::Quote { runs: run_models(runs@) },
            Block::ListItem { depth, prefix, runs } => BlockModel::ListItem {
                depth: *depth as int,
                prefix: prefix@,
                runs: run_models(runs@),
            },
            Block::Rule => BlockModel::Rule,
            Block::Code { text } => BlockModel::Code { text: text@ },
            Block::Table { header, aligns, rows } => BlockModel::Table {
                header: *header,
                aligns: aligns@,
                rows: row_models(rows@),
            },
        }
    }
}

pub open spec fn block_models(v: Seq<Block>) -> Seq<BlockModel> {
    Seq::new(v.len(), |i: int| v[i]@)
}

/// Bytes of line `k`, without its line feed and a carriage return at its
/// end.
pub open spec fn line_bytes(bytes: Seq<u8>, starts: Seq<u32>, k: int) -> Seq<u8> {
    let start = starts[k] as int;
    let end = line_end_of(starts, k, bytes.len() as int);
    if end > start && bytes[end - 1] == CR {
        bytes.subrange(start, end - 1)
    } else {
        bytes.subrange(start, end)
    }
}

/// Text of line `k`; empty when there is no such line or it is not valid
/// UTF-8.
pub open spec fn line_at(bytes: Seq<u8>, starts: Seq<u32>, k: int) -> Seq<char> {
    if 0 <= k < starts.len() {
        line_chars(line_bytes(bytes, starts, k))
    } else {
        Seq::empty()
    }
}

/// Texts of the lines of the blocks `a..b`.
pub open spec fn lines_of(bytes: Seq<u8>, starts: Seq<u32>, blocks: Seq<BlockLine>, a: int, b: int) -> Seq<Seq<char>> {
    Seq::new((b - a) as nat, |i: int| line_at(bytes, starts, blocks[a + i].line_index as int))
}

/// The lines of a blockquote without their markers.
pub open spec fn unquoted(lines: Seq<Seq<char>>) -> Seq<Seq<char>> {
    Seq::new(lines.len(), |i: int| lines[i].subrange(quote_start(lines[i]), lines[i].len() as int))
}

/// End of the run of blocks of kind `kind` at `i`.
pub open spec fn run_end(blocks: Seq<BlockLine>, i: int, kind: BlockKind) -> int
    decreases blocks.len() - i,
{
    if 0 <= i < blocks.len() && blocks[i].kind == kind {
        run_end(blocks, i + 1, kind)
    } else {
        i
    }
}

/// Lines joined by line separators.
pub open spec fn separated(lines: Seq<Seq<char>>) -> Seq<char>
    decreases lines.len(),
{
    if lines.len() == 0 {
        Seq::empty()
    } else if lines.len() == 1 {
        lines[0]
    } else {
        separated(lines.drop_last()).push('\u{2028}') + lines.last()
    }
}

/// The lines of a fenced block without its fences.
pub open spec fn fenced_content(lines: Seq<Seq<char>>) -> Seq<Seq<char>> {
    let a: int = if lines.len() > 0 && is_fence(lines[0]) {
        1
    } else {
        0
    };
    let b: int = if lines.len() > a && is_fence(lines.last()) {
        lines.len() - 1
    } else {
        lines.len() as int
    };
    lines.subrange(a, b)
}

/// Cells of each row.
pub open spec fn table_cells(lines: Seq<Seq<char>>) -> Seq<Seq<Seq<char>>> {
    Seq::new(lines.len(), |i: int| row_cells(lines[i]))
}

/// Every cell of the row states an alignment.
pub open spec fn is_separator(cells: Seq<Seq<char>>) -> bool {
    forall|i: int| 0 <= i < cells.len() ==> cell_align(#[trigger] cells[i]) is Some
}

/// Number of cells of the longest of the first `n` rows.
pub open spec fn widest_row(rows: Seq<Seq<Seq<char>>>, n: int) -> int
    decreases n,
{
    if n <= 0 {
        0
    } else {
        let before = widest_row(rows, n - 1);
        if rows[n - 1].len() > before {
            rows[n - 1].len() as int
        } else {
            before
        }
    }
}

/// Cell `c` of a row, empty when the row is shorter.
pub open spec fn cell_or_empty(row: Seq<Seq<char>>, c: int) -> Seq<char> {
    if 0 <= c < row.len() {
        row[c]
    } else {
        Seq::empty()
    }
}

/// A row as `ncols` cells of runs.
pub open spec fn rendered_row(row: Seq<Seq<char>>, ncols: int) -> Seq<Seq<RunModel>> {
    Seq::new(ncols as nat, |c: int| runs_of(cell_or_empty(row, c)))
}

/// The table that `lines` make: with a separator as second line the first
/// is the header and the separator gives the alignments; columns without
/// one are left-aligned.
pub open spec fn table_model(lines: Seq<Seq<char>>) -> BlockModel {
    let rows = table_cells(lines);
    let header = rows.len() >= 2 && is_separator(rows[1]);
    let ncols = widest_row(rows, rows.len() as int);
    BlockModel::Table {
        header,
        aligns: Seq::new(
            ncols as nat,
            |c: int|
                if header && c < rows[1].len() {
                    cell_align(rows[1][c])->0
                } else {
                    CellAlign::Left
                },
        ),
        rows: if header {
            seq![rendered_row(rows[0], ncols)] + Seq::new(
                (rows.len() - 2) as nat,
                |i: int| rendered_row(rows[i + 2], ncols),
            )
        } else {
            Seq::new(rows.len(), |i: int| rendered_row(rows[i], ncols))
        },
    }
}

/// The block that starts at `i`, and where the next one does.
pub open spec fn block_at(bytes: Seq<u8>, starts: Seq<u32>, blocks: Seq<BlockLine>, i: int) -> (BlockModel, int) {
    let line = line_at(bytes, starts, blocks[i].line_index as int);
    let kind = blocks[i].kind;
    let end = run_end(blocks, i, kind);
    let lines = lines_of(bytes, starts, blocks, i, end);
    match kind {
        BlockKind::Blank => (BlockModel::Blank, i + 1),
        BlockKind::Heading { level } => (BlockModel::Heading { level, text: heading_text(line) }, i + 1),
        BlockKind::Paragraph => (BlockModel::Paragraph { runs: runs_of(joined_lines(lines)) }, end),
        BlockKind::BlockquoteLine => (BlockModel::Quote { runs: runs_of(joined_lines(unquoted(lines))) }, end),
        BlockKind::ListItem { ordered, marker_len } => (
            BlockModel::ListItem {
                depth: list_depth(line),
                prefix: list_prefix(line, ordered),
                runs: runs_of(list_body(line, marker_len as int)),
            },
            i + 1,
        ),
        BlockKind::HorizontalRule => (BlockModel::Rule, i + 1),
        BlockKind::FencedCode => (BlockModel::Code { text: separated(fenced_content(lines)) }, end),
        BlockKind::TableLine => (table_model(lines), end),
    }
}

/// The blocks of the document from `i` on.
pub open spec fn blocks_from(bytes: Seq<u8>, starts: Seq<u32>, blocks: Seq<BlockLine>, i: int) -> Seq<BlockModel>
    decreases blocks.len() - i,
{
    proof {
        if 0 <= i < blocks.len() {
            lemma_run_end(blocks, i, blocks[i].kind);
        }
    }
    if i < 0 || i >= blocks.len() {
        Seq::empty()
    } else {
        let (block, next) = block_at(bytes, starts, blocks, i);
        seq![block] + blocks_from(bytes, starts, blocks, next)
    }
}

pub proof fn lemma_run_end(blocks: Seq<BlockLine>, i: int, kind: BlockKind)
    requires
        0 <= i <= blocks.len(),
    ensures
        i <= run_end(blocks, i, kind) <= blocks.len(),
        i < blocks.len() && blocks[i].kind == kind ==> i < run_end(blocks, i, kind),
    decreases blocks.len() - i,
{
    if i < blocks.len() && blocks[i].kind == kind {
        lemma_run_end(blocks, i + 1, kind);
    }
}

fn find_run_end(blocks: &[BlockLine], start: usize, kind: BlockKind) -> (r: usize)
    requires
        start <= blocks@.len(),
    ensures
        r == run_end(blocks@, start as int, kind),
        start <= r <= blocks@.len(),
{
    let mut j: usize = start;
    while j < blocks.len() && blocks[j].kind == kind
        invariant
            start <= j <= blocks@.len(),
            run_end(blocks@, j as int, kind) == run_end(blocks@, start as int, kind),
        decreases blocks@.len() - j,
    {
        j += 1;
    }
    j
}

/// Characters of line `k` of the document.
fn line_chars_at(bytes: &[u8], starts: &[u32], k: usize) -> (r: Vec<char>)
    requires
        crate::format::line_starts_ok(starts@, bytes@.len() as int),
        bytes@.len() < u32::MAX,
    ensures
        r@ == line_at(bytes@, starts@, k as int),
        prefix_bytes(r@, r@.len() as int) < u32::MAX,
{
    if k >= starts.len() {
        let none: Vec<char> = Vec::new();
        assert(none@ =~= Seq::<char>::empty());
        return none;
    }
    let n: usize = starts.len();
    let start: usize = starts[k] as usize;
    let mut end: usize = if k + 1 < n {
        starts[k + 1] as usize - 1
    } else {
        bytes.len()
    };
    proof {
        if k + 1 < n {
            assert(starts@[k as int] < starts@[k + 1]);
            assert(starts@[k + 1] <= bytes@.len());
        }
        assert(starts@[k as int] <= bytes@.len());
    }
    if end > start && bytes[end - 1] == CR {
        end -= 1;
    }
    let line = vstd::slice::slice_subrange(bytes, start, end);
    let chars = chars_of_line(line);
    proof {
        assert(line@ == line_bytes(bytes@, starts@, k as int));
        lemma_line_chars(line@);
    }
    chars
}

/// The characters of several lines.
pub open spec fn char_lines(v: Seq<Vec<char>>) -> Seq<Seq<char>> {
    Seq::new(v.len(), |i: int| v[i]@)
}

fn lines_at(bytes: &[u8], parse: &ParseOutput, a: usize, b: usize) -> (r: Vec<Vec<char>>)
    requires
        parse.wf(bytes@.len() as int),
        bytes@.len() < u32::MAX,
        a <= b <= parse.blocks@.len(),
    ensures
        char_lines(r@) == lines_of(bytes@, parse.line_starts@, parse.blocks@, a as int, b as int),
        forall|i: int| 0 <= i < r@.len() ==> prefix_bytes((#[trigger] r@[i])@, r@[i]@.len() as int) < u32::MAX,
        r@.len() == b - a,
{
    let mut out: Vec<Vec<char>> = Vec::new();
    let mut k: usize = a;
    while k < b
        invariant
            parse.wf(bytes@.len() as int),
            bytes@.len() < u32::MAX,
            a <= k <= b <= parse.blocks@.len(),
            out@.len() == k - a,
            forall|i: int|
                0 <= i < out@.len() ==> (#[trigger] out@[i])@ == line_at(
                    bytes@,
                    parse.line_starts@,
                    parse.blocks@[a + i].line_index as int,
                ),
            forall|i: int|
                0 <= i < out@.len() ==> prefix_bytes((#[trigger] out@[i])@, out@[i]@.len() as int) < u32::MAX,
        decreases b - k,
    {
        out.push(line_chars_at(bytes, parse.line_starts.as_slice(), parse.blocks[k].line_index as usize));
        k += 1;
    }
    proof {
        assert(char_lines(out@) =~= lines_of(bytes@, parse.line_starts@, parse.blocks@, a as int, b as int));
    }
    out
}

/// The lines of one paragraph joined. With `quoted` their blockquote
/// markers are dropped first.
fn join_soft_lines(lines: &Vec<Vec<char>>, quoted: bool) -> (r: Vec<char>)
    requires
        forall|i: int|
            0 <= i < lines@.len() ==> prefix_bytes((#[trigger] lines@[i])@, lines@[i]@.len() as int) < u32::MAX,
    ensures
        r@ == joined_lines(
            if quoted {
                unquoted(char_lines(lines@))
            } else {
                char_lines(lines@)
            },
        ),
{
    let ghost all = if quoted {
        unquoted(char_lines(lines@))
    } else {
        char_lines(lines@)
    };
    let mut out: Vec<char> = Vec::new();
    let mut hard = false;
    let mut k: usize = 0;
    while k < lines.len()
        invariant
            k <= lines@.len(),
            all == (if quoted {
                unquoted(char_lines(lines@))
            } else {
                char_lines(lines@)
            }),
            all.len() == lines@.len(),
            forall|i: int|
                0 <= i < lines@.len() ==> prefix_bytes((#[trigger] lines@[i])@, lines@[i]@.len() as int) < u32::MAX,
            out@ == joined_lines(all.take(k as int)),
            k > 0 ==> hard == is_hard_break(all[k - 1]),
        decreases lines@.len() - k,
    {
        let line = lines[k].as_slice();
        let from: usize = if quoted {
            find_quote_start(line)
        } else {
            0
        };
        let text = vstd::slice::slice_subrange(line, from, line.len());
        proof {
            lemma_tail_bytes(line@, from as int);
            assert(char_lines(lines@)[k as int] == line@);
            assert(text@ =~= all[k as int]);
            assert(all.take(k + 1).drop_last() =~= all.take(k as int));
            assert(all.take(k + 1).last() == all[k as int]);
        }
        if k > 0 {
            out.push(
                if hard {
                    '\u{2028}'
                } else {
                    ' '
                },
            );
        }
        hard = push_content(&mut out, text);
        proof {
            if k == 0 {
                assert(out@ =~= joined_lines(all.take(1)));
            }
        }
        k += 1;
    }
    proof {
        assert(all.take(all.len() as int) =~= all);
    }
    out
}

/// The lines `a..b` joined by line separators.
fn join_separated(lines: &Vec<Vec<char>>, a: usize, b: usize) -> (r: String)
    requires
        a <= b <= lines@.len(),
    ensures
        r@ == separated(char_lines(lines@).subrange(a as int, b as int)),
{
    let ghost all = char_lines(lines@).subrange(a as int, b as int);
    let mut out: Vec<char> = Vec::new();
    let mut k: usize = a;
    while k < b
        invariant
            a <= k <= b <= lines@.len(),
            all == char_lines(lines@).subrange(a as int, b as int),
            out@ == separated(all.take(k - a)),
        decreases b - k,
    {
        let ghost before = out@;
        let ghost n = k - a;
        proof {
            assert(all.take(n + 1).drop_last() =~= all.take(n));
            assert(all[n] == lines@[k as int]@);
        }
        if k > a {
            out.push('\u{2028}');
        }
        let ghost base = out@;
        let line = lines[k].as_slice();
        let mut i: usize = 0;
        while i < line.len()
            invariant
                i <= line@.len(),
                out@ == base + line@.take(i as int),
            decreases line@.len() - i,
        {
            out.push(line[i]);
            i += 1;
            assert(out@ =~= base + line@.take(i as int));
        }
        proof {
            assert(line@.take(line@.len() as int) =~= line@);
            if n == 0 {
                assert(base =~= Seq::<char>::empty());
                assert(out@ =~= line@);
            }
        }
        k += 1;
    }
    proof {
        assert(all.take(all.len() as int) =~= all);
    }
    let r = string_of(out.as_slice(), 0, out.len());
    assert(r@ =~= out@);
    r
}

/// Code of a fenced block: its lines without the fences.
fn fenced_text(lines: &Vec<Vec<char>>) -> (r: String)
    ensures
        r@ == separated(fenced_content(char_lines(lines@))),
{
    let n: usize = lines.len();
    proof {
        if n > 0 {
            assert(char_lines(lines@)[0] == lines@[0]@);
            assert(char_lines(lines@).last() == lines@[n - 1]@);
        }
    }
    let a: usize = if n > 0 && looks_like_fence(lines[0].as_slice()) {
        1
    } else {
        0
    };
    let b: usize = if n > a && looks_like_fence(lines[n - 1].as_slice()) {
        n - 1
    } else {
        n
    };
    join_separated(lines, a, b)
}

fn cells_to_runs(row: &Vec<String>, ncols: usize) -> (r: Vec<Vec<Run>>)
    ensures
        cell_models(r@) == rendered_row(texts(row@), ncols as int),
{
    let mut out: Vec<Vec<Run>> = Vec::new();
    let mut c: usize = 0;
    while c < ncols
        invariant
            c <= ncols,
            out@.len() == c,
            forall|i: int|
                0 <= i < c ==> run_models((#[trigger] out@[i])@) == runs_of(cell_or_empty(texts(row@), i)),
        decreases ncols - c,
    {
        let chars: Vec<char> = if c < row.len() {
            crate::text::chars_of(row[c].as_str())
        } else {
            Vec::new()
        };
        assert(chars@ =~= cell_or_empty(texts(row@), c as int));
        out.push(render_inline(chars.as_slice()));
        c += 1;
    }
    assert(cell_models(out@) =~= rendered_row(texts(row@), ncols as int));
    out
}

fn build_table(lines: &Vec<Vec<char>>) -> (r: Block)
    ensures
        r@ == table_model(char_lines(lines@)),
{
    let ghost all = char_lines(lines@);
    let ghost cells = table_cells(all);
    let n: usize = lines.len();
    let mut rows: Vec<Vec<String>> = Vec::new();
    let mut aligns: Vec<CellAlign> = Vec::new();
    let mut header = false;
    let mut ncols: usize = 0;
    let mut k: usize = 0;
    while k < n
        invariant
            n == lines@.len(),
            k <= n,
            all == char_lines(lines@),
            cells == table_cells(all),
            rows@.len() == k,
            forall|i: int| 0 <= i < k ==> texts((#[trigger] rows@[i])@) == cells[i],
            ncols == widest_row(cells, k as int),
            header == (k >= 2 && is_separator(cells[1])),
            !header ==> aligns@.len() == 0,
            header ==> aligns@.len() == cells[1].len() && forall|c: int|
                0 <= c < aligns@.len() ==> cell_align(cells[1][c]) == Some(#[trigger] aligns@[c]),
        decreases n - k,
    {
        let line = string_of(lines[k].as_slice(), 0, lines[k].len());
        proof {
            assert(line@ =~= all[k as int]);
        }
        let row = split_table_row(line.as_str());
        if k == 1 {
            if let Some(a) = parse_table_separator(line.as_str()) {
                aligns = a;
                header = true;
            }
        }
        proof {
            assert(texts(row@).len() == row@.len());
        }
        if row.len() > ncols {
            ncols = row.len();
        }
        rows.push(row);
        k += 1;
    }
    proof {
        if header {
            lemma_widest_row(cells, n as int, 1);
        }
    }
    while aligns.len() < ncols
        invariant
            aligns@.len() <= ncols,
            header ==> cells[1].len() <= aligns@.len() && forall|c: int|
                0 <= c < cells[1].len() ==> cell_align(cells[1][c]) == Some(#[trigger] aligns@[c]),
            forall|c: int|
                0 <= c < aligns@.len() && (!header || c >= cells[1].len()) ==> (#[trigger] aligns@[c])
                    == CellAlign::Left,
        decreases ncols - aligns@.len(),
    {
        aligns.push(CellAlign::Left);
    }
    let mut out: Vec<Vec<Vec<Run>>> = Vec::new();
    let mut i: usize = 0;
    if header {
        out.push(cells_to_runs(&rows[0], ncols));
        i = 2;
    }
    let ghost first = i as int;
    let ghost lead = out@.len() as int;
    while i < n
        invariant
            n == rows@.len(),
            first <= i <= n,
            lead == (if header {
                1int
            } else {
                0int
            }),
            first == 2 * lead,
            cells.len() == n,
            forall|j: int| 0 <= j < n ==> texts((#[trigger] rows@[j])@) == cells[j],
            out@.len() == lead + (i - first),
            header ==> cell_models(out@[0]@) == rendered_row(cells[0], ncols as int),
            forall|j: int|
                lead <= j < out@.len() ==> cell_models((#[trigger] out@[j])@) == rendered_row(
                    cells[first + (j - lead)],
                    ncols as int,
                ),
        decreases n - i,
    {
        out.push(cells_to_runs(&rows[i], ncols));
        i += 1;
    }
    let r = Block::Table { header, aligns, rows: out };
    proof {
        let goal = table_model(all);
        let m = row_models(out@);
        if header {
            assert(m =~= seq![rendered_row(cells[0], ncols as int)] + Seq::new(
                (cells.len() - 2) as nat,
                |i: int| rendered_row(cells[i + 2], ncols as int),
            ));
        } else {
            assert(m =~= Seq::new(cells.len(), |i: int| rendered_row(cells[i], ncols as int)));
        }
        assert(aligns@ =~= goal->aligns);
    }
    r
}

proof fn lemma_widest_row(rows: Seq<Seq<Seq<char>>>, n: int, i: int)
    requires
        0 <= i < n <= rows.len(),
    ensures
        rows[i].len() <= widest_row(rows, n),
    decreases n,
{
    if i < n - 1 {
        lemma_widest_row(rows, n - 1, i);
    }
}

/// The rendered blocks of a document. Consecutive paragraph, blockquote,
/// code and table lines make one block each.
pub fn build(bytes: &[u8], parse: &ParseOutput) -> (out: Vec<Block>)
    requires
        parse.wf(bytes@.len() as int),
        bytes@.len() < u32::MAX,
    ensures
        block_models(out@) == blocks_from(bytes@, parse.line_starts@, parse.blocks@, 0),
{
    let ghost starts = parse.line_starts@;
    let ghost goal = blocks_from(bytes@, starts, parse.blocks@, 0);
    let mut out: Vec<Block> = Vec::new();
    let mut i: usize = 0;
    proof {
        assert(block_models(out@) + goal =~= goal);
    }
    while i < parse.blocks.len()
        invariant
            parse.wf(bytes@.len() as int),
            bytes@.len() < u32::MAX,
            starts == parse.line_starts@,
            i <= parse.blocks@.len(),
            goal == block_models(out@) + blocks_from(bytes@, starts, parse.blocks@, i as int),
        decreases parse.blocks@.len() - i,
    {
        let block = parse.blocks[i];
        let end = find_run_end(parse.blocks.as_slice(), i, block.kind);
        proof {
            lemma_run_end(parse.blocks@, i as int, block.kind);
        }
        let mut next: usize = i + 1;
        let made = match block.kind {
            BlockKind::Blank => Block::Blank,
            BlockKind::Heading { level } => {
                let line = line_chars_at(bytes, parse.line_starts.as_slice(), block.line_index as usize);
                Block::Heading { level, text: strip_heading(line.as_slice()) }
            },
            BlockKind::Paragraph => {
                next = end;
                let lines = lines_at(bytes, parse, i, end);
                let text = join_soft_lines(&lines, false);
                Block::Paragraph { runs: render_inline(text.as_slice()) }
            },
            BlockKind::BlockquoteLine => {
                next = end;
                let lines = lines_at(bytes, parse, i, end);
                let text = join_soft_lines(&lines, true);
                Block::Quote { runs: render_inline(text.as_slice()) }
            },
            BlockKind::ListItem { ordered, marker_len } => {
                let line = line_chars_at(bytes, parse.line_starts.as_slice(), block.line_index as usize);
                Block::ListItem {
                    depth: list_depth_of(line.as_slice()),
                    prefix: list_prefix_of(line.as_slice(), ordered),
                    runs: list_body_runs(line.as_slice(), marker_len),
                }
            },
            BlockKind::HorizontalRule => Block::Rule,
            BlockKind::FencedCode => {
                next = end;
                let lines = lines_at(bytes, parse, i, end);
                Block::Code { text: fenced_text(&lines) }
            },
            BlockKind::TableLine => {
                next = end;
                let lines = lines_at(bytes, parse, i, end);
                build_table(&lines)
            },
        };
        let ghost before = block_models(out@);
        proof {
            assert((made@, next as int) == block_at(bytes@, starts, parse.blocks@, i as int));
        }
        out.push(made);
        proof {
            let rest = blocks_from(bytes@, starts, parse.blocks@, next as int);
            assert(block_models(out@) =~= before.push(made@));
            assert(before + (seq![made@] + rest) =~= before.push(made@) + rest);
        }
        i = next;
    }
    proof {
        assert(block_models(out@) + Seq::<BlockModel>::empty() =~= block_models(out@));
    }
    out
}

/// Text without any inline mark is shown as it is, in one plain run.
pub proof fn law_unmarked_text(t: Seq<char>)
    requires
        t.len() > 0,
        forall|i: int|
            0 <= i < t.len() ==> !(#[trigger] t[i] == '`' || t[i] == '*' || t[i] == '_' || t[i] == '['),
    ensures
        runs_of(t) == seq![RunModel { kind: RunKind::Plain, text: t, url: Seq::empty() }],
{
    lemma_unmarked(t, 0);
    assert(t.subrange(0, t.len() as int) =~= t);
    assert(Seq::<RunModel>::empty().push(RunModel { kind: RunKind::Plain, text: t, url: Seq::empty() }) =~= seq![
        RunModel { kind: RunKind::Plain, text: t, url: Seq::empty() },
    ]);
}

proof fn lemma_unmarked(t: Seq<char>, i: int)
    requires
        0 <= i <= t.len(),
        t.len() > 0,
        forall|i: int|
            0 <= i < t.len() ==> !(#[trigger] t[i] == '`' || t[i] == '*' || t[i] == '_' || t[i] == '['),
    ensures
        inline_runs(t, i, 0, Seq::empty()) == with_run(
            Seq::empty(),
            RunKind::Plain,
            t.subrange(0, t.len() as int),
            Seq::empty(),
        ),
    decreases t.len() - i,
{
    if i < t.len() {
        assert(span_at(t, i) is None);
        lemma_unmarked(t, i + 1);
    }
}

/// No run is empty, whatever the marks.
pub proof fn law_runs_not_empty(t: Seq<char>, i: int, from: int, runs: Seq<RunModel>)
    requires
        0 <= from <= i <= t.len(),
        forall|k: int| 0 <= k < runs.len() ==> (#[trigger] runs[k]).text.len() > 0,
    ensures
        forall|k: int|
            0 <= k < inline_runs(t, i, from, runs).len() ==> (#[trigger] inline_runs(t, i, from, runs)[k]).text.len()
                > 0,
    decreases t.len() - i,
{
    if i < t.len() {
        lemma_span_at(t, i);
        match span_at(t, i) {
            Some(sp) => {
                let plain = with_run(runs, RunKind::Plain, t.subrange(from, i), Seq::empty());
                let styled = with_run(plain, sp.kind, t.subrange(sp.a, sp.b), t.subrange(sp.url_a, sp.url_b));
                assert forall|k: int| 0 <= k < styled.len() implies (#[trigger] styled[k]).text.len() > 0 by {
                    if k < runs.len() {
                        assert(styled[k] == runs[k]);
                    }
                }
                law_runs_not_empty(t, sp.next, sp.next, styled);
            },
            None => law_runs_not_empty(t, i + 1, from, runs),
        }
    }
}

} // verus!
