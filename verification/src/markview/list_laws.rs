//! Laws of rendered lines: list items, headings, quotes and paragraphs
//! are shown as they were written.

use vstd::prelude::*;

use crate::columns::{char_reaching, prefix_bytes};
use crate::markview::rendered::{
    char_run, drop_blank, drop_hash, fenced_content, heading_text, is_fence, is_hard_break, joined_lines, line_content,
    list_body, list_depth, list_prefix, quote_start, separated, skip_blank, tabs_in, trimmed_range, word_end,
};
use crate::text::{drop_space, is_space, skip_space};

verus! {

// --- white space ----------------------------------------------------

/// Spaces and tabs only.
pub open spec fn is_indent(t: Seq<char>) -> bool {
    forall|i: int| 0 <= i < t.len() ==> (#[trigger] t[i]) == ' ' || t[i] == '\t'
}

/// A character that is no white space in Unicode.
pub open spec fn is_visible(c: char) -> bool {
    let n = c as u32;
    !(0x09 <= n <= 0x0d || n == 0x20 || n == 0x85 || n == 0xa0 || n == 0x1680 || 0x2000 <= n <= 0x200a || n == 0x2028
        || n == 0x2029 || n == 0x202f || n == 0x205f || n == 0x3000)
}

pub proof fn lemma_visible(c: char)
    ensures
        is_space(c) == !is_visible(c),
{
}

/// White space in front is skipped up to a visible character.
proof fn lemma_skip(ws: Seq<char>, rest: Seq<char>, i: int)
    requires
        0 <= i <= ws.len(),
        forall|k: int| 0 <= k < ws.len() ==> !is_visible(#[trigger] ws[k]),
        rest.len() > 0 ==> is_visible(rest[0]),
    ensures
        skip_space(ws + rest, i) == ws.len(),
    decreases ws.len() - i,
{
    let t = ws + rest;
    if i < ws.len() {
        assert(t[i] == ws[i]);
        lemma_visible(ws[i]);
        lemma_skip(ws, rest, i + 1);
    } else if rest.len() > 0 {
        assert(t[i] == rest[0]);
        lemma_visible(rest[0]);
    }
}

/// White space behind is dropped down to a visible character.
proof fn lemma_drop(front: Seq<char>, ws: Seq<char>, lo: int, n: int)
    requires
        0 <= n <= ws.len(),
        0 <= lo <= front.len(),
        forall|k: int| 0 <= k < ws.len() ==> !is_visible(#[trigger] ws[k]),
        lo < front.len() ==> is_visible(front.last()),
    ensures
        drop_space(front + ws, lo, front.len() + n) == front.len(),
    decreases n,
{
    let t = front + ws;
    let hi = front.len() + n;
    if n > 0 {
        assert(t[hi - 1] == ws[n - 1]);
        lemma_visible(ws[n - 1]);
        lemma_drop(front, ws, lo, n - 1);
    } else if lo < front.len() {
        assert(t[hi - 1] == front.last());
        lemma_visible(front.last());
    }
}

proof fn lemma_ascii_bytes(t: Seq<char>, k: int)
    requires
        0 <= k <= t.len(),
        forall|i: int| 0 <= i < k ==> (#[trigger] t[i]) as u32 <= 0x7f,
    ensures
        prefix_bytes(t, k) == k,
    decreases k,
{
    if k > 0 {
        lemma_ascii_bytes(t, k - 1);
        assert(t[k - 1] as u32 <= 0x7f);
    }
}

// --- list items -----------------------------------------------------

/// Number of spaces in `t`.
pub open spec fn space_count(t: Seq<char>) -> int {
    t.filter(|c: char| c as u32 == 0x20).len() as int
}

/// Number of tabs in `t`.
pub open spec fn tab_count(t: Seq<char>) -> int {
    t.filter(|c: char| c as u32 == 0x09).len() as int
}

proof fn lemma_counts(indent: Seq<char>, rest: Seq<char>, k: int)
    requires
        is_indent(indent),
        0 <= k <= indent.len(),
    ensures
        tabs_in(indent + rest, k) == tab_count(indent.take(k)),
        space_count(indent.take(k)) + tab_count(indent.take(k)) == k,
    decreases k,
{
    reveal(Seq::filter);
    let head = indent.take(k);
    if k > 0 {
        lemma_counts(indent, rest, k - 1);
        assert(head.drop_last() =~= indent.take(k - 1));
        assert(head.last() == indent[k - 1]);
        assert((indent + rest)[k - 1] == indent[k - 1]);
        assert(indent[k - 1] == ' ' || indent[k - 1] == '\t');
    } else {
        assert(head =~= Seq::empty());
    }
}

proof fn lemma_depth(indent: Seq<char>, rest: Seq<char>)
    requires
        is_indent(indent),
        rest.len() > 0,
        is_visible(rest[0]),
    ensures
        skip_space(indent + rest, 0) == indent.len(),
        prefix_bytes(indent + rest, indent.len() as int) == indent.len(),
        tabs_in(indent + rest, indent.len() as int) == tab_count(indent),
        space_count(indent) + tab_count(indent) == indent.len(),
{
    let t = indent + rest;
    lemma_skip(indent, rest, 0);
    assert forall|i: int| 0 <= i < indent.len() implies (#[trigger] t[i]) as u32 <= 0x7f by {
        assert(t[i] == indent[i]);
    }
    lemma_ascii_bytes(t, indent.len() as int);
    lemma_counts(indent, rest, indent.len() as int);
    assert(indent.take(indent.len() as int) =~= indent);
}

/// How deep a list item is nested, by its indentation: not at all where
/// there is none, once per tab, and once for two to four spaces, with
/// each three more spaces once more. A single space counts as one level.
pub proof fn law_list_depth(indent: Seq<char>, rest: Seq<char>)
    requires
        is_indent(indent),
        rest.len() > 0,
        is_visible(rest[0]),
    ensures
        ({
            let depth = list_depth(indent + rest);
            let spaces = space_count(indent);
            let tabs = tab_count(indent);
            &&& depth == 0 <==> indent.len() == 0
            &&& spaces == 0 ==> depth == tabs
            &&& tabs == 0 && 1 <= spaces <= 4 ==> depth == 1
            &&& tabs == 0 && 5 <= spaces <= 7 ==> depth == 2
            &&& tabs + spaces > 1 ==> 3 * (depth - tabs) - 1 <= spaces <= 3 * (depth - tabs) + 1
        }),
{
    lemma_depth(indent, rest);
}

/// Three more spaces in front nest an item exactly once more, and so does
/// one more tab; only an item behind a single space gains nothing.
pub proof fn law_list_deeper(more: Seq<char>, indent: Seq<char>, rest: Seq<char>)
    requires
        is_indent(indent),
        rest.len() > 0,
        is_visible(rest[0]),
        more == seq![' ', ' ', ' '] || more == seq!['\t'],
        indent != seq![' '],
    ensures
        list_depth(more + indent + rest) == list_depth(indent + rest) + 1,
{
    reveal(Seq::filter);
    let wide = more + indent;
    assert(more + indent + rest =~= wide + rest);
    assert forall|i: int| 0 <= i < wide.len() implies (#[trigger] wide[i]) == ' ' || wide[i] == '\t' by {
        if i >= more.len() {
            assert(wide[i] == indent[i - more.len()]);
        }
    }
    lemma_depth(indent, rest);
    lemma_depth(wide, rest);
    lemma_count_front(more, indent);
    if indent.len() == 1 {
        assert(indent[0] == '\t') by {
            if indent[0] == ' ' {
                assert(indent =~= seq![' ']);
            }
        }
        assert(indent.drop_last() =~= Seq::empty());
        assert(tab_count(indent) == 1);
    } else if indent.len() == 0 {
        assert(indent =~= Seq::empty());
        assert(tab_count(indent) == 0);
    }
}

proof fn lemma_count_front(more: Seq<char>, indent: Seq<char>)
    requires
        more == seq![' ', ' ', ' '] || more == seq!['\t'],
    ensures
        tab_count(more + indent) == tab_count(indent) + if more.len() == 1 {
            1int
        } else {
            0int
        },
    decreases indent.len(),
{
    reveal(Seq::filter);
    let wide = more + indent;
    if indent.len() == 0 {
        assert(wide =~= more);
        if more.len() == 1 {
            assert(more.drop_last() =~= Seq::empty());
            assert(more.last() == '\t');
        } else {
            let two = more.drop_last();
            let one = two.drop_last();
            assert(one.drop_last() =~= Seq::empty());
            assert(more.last() == ' ' && two.last() == ' ' && one.last() == ' ');
            assert(tab_count(one.drop_last()) == 0);
            assert(tab_count(one) == 0);
            assert(tab_count(two) == 0);
        }
    } else {
        assert(wide.drop_last() =~= more + indent.drop_last());
        assert(wide.last() == indent.last());
        lemma_count_front(more, indent.drop_last());
    }
}

proof fn lemma_reaching(t: Seq<char>, k: int, n: int)
    requires
        0 <= k <= n <= t.len(),
        forall|i: int| 0 <= i < n ==> (#[trigger] t[i]) as u32 <= 0x7f,
    ensures
        char_reaching(t, k, n) == n,
        prefix_bytes(t, n) == n,
    decreases n - k,
{
    lemma_ascii_bytes(t, n);
    if k < n {
        lemma_ascii_bytes(t, k);
        lemma_reaching(t, k + 1, n);
    }
}

/// The text of a list item is its line without the marker, counted from
/// the start of the line, and without the white space that follows; an
/// item that is indented by at least that much keeps its marker.
pub proof fn law_list_body(indent: Seq<char>, rest: Seq<char>, marker_len: int, gap: Seq<char>, body: Seq<char>)
    requires
        is_indent(indent),
        rest.len() > 0,
        is_visible(rest[0]),
        0 <= marker_len <= indent.len() + rest.len(),
        forall|i: int| 0 <= i < rest.len() && i < marker_len ==> (#[trigger] rest[i]) as u32 <= 0x7f,
        ({
            let taken = if marker_len > indent.len() {
                marker_len
            } else {
                indent.len() as int
            };
            (indent + rest).skip(taken) == gap + body
        }),
        forall|i: int| 0 <= i < gap.len() ==> !is_visible(#[trigger] gap[i]),
        body.len() > 0 ==> is_visible(body[0]),
    ensures
        list_body(indent + rest, marker_len) == body,
{
    let t = indent + rest;
    lemma_depth(indent, rest);
    let n = indent.len() as int;
    let skip = if marker_len > n {
        marker_len - n
    } else {
        0
    };
    assert(t.subrange(n, t.len() as int) =~= rest);
    lemma_reaching(rest, 0, skip);
    let behind = rest.skip(skip);
    assert(behind =~= gap + body) by {
        assert(t.skip(n + skip) =~= behind);
    }
    lemma_skip_behind(rest, skip, gap, body);
    assert(rest.subrange(skip + gap.len(), rest.len() as int) =~= body) by {
        assert(behind.skip(gap.len() as int) =~= body);
    }
}

proof fn lemma_skip_behind(t: Seq<char>, k: int, gap: Seq<char>, body: Seq<char>)
    requires
        0 <= k <= t.len(),
        t.skip(k) == gap + body,
        forall|i: int| 0 <= i < gap.len() ==> !is_visible(#[trigger] gap[i]),
        body.len() > 0 ==> is_visible(body[0]),
    ensures
        skip_space(t, k) == k + gap.len(),
    decreases gap.len(),
{
    assert(t.skip(k).len() == gap.len() + body.len());
    if gap.len() > 0 {
        assert(t[k] == t.skip(k)[0]);
        lemma_visible(gap[0]);
        assert(t.skip(k + 1) =~= gap.skip(1) + body) by {
            assert(t.skip(k + 1) =~= t.skip(k).skip(1));
        }
        assert forall|i: int| 0 <= i < gap.skip(1).len() implies !is_visible(#[trigger] gap.skip(1)[i]) by {
            assert(gap.skip(1)[i] == gap[i + 1]);
        }
        lemma_skip_behind(t, k + 1, gap.skip(1), body);
    } else if body.len() > 0 {
        assert(t[k] == t.skip(k)[0]);
        lemma_visible(body[0]);
    }
}

proof fn lemma_word(word: Seq<char>, t: Seq<char>, k: int, i: int)
    requires
        0 <= i <= word.len(),
        0 <= k,
        k + word.len() <= t.len(),
        t.subrange(k, k + word.len()) == word,
        forall|j: int| 0 <= j < word.len() ==> is_visible(#[trigger] word[j]),
        k + word.len() < t.len() ==> !is_visible(t[k + word.len()]),
    ensures
        word_end(t, k + i) == k + word.len(),
    decreases word.len() - i,
{
    if i < word.len() {
        assert(t[k + i] == t.subrange(k, k + word.len())[i]);
        lemma_visible(word[i]);
        lemma_word(word, t, k, i + 1);
    } else if k + i < t.len() {
        lemma_visible(t[k + i]);
    }
}

/// An ordered item is led by its own number as written, another by a
/// bullet; a tab follows.
pub proof fn law_list_prefix(indent: Seq<char>, word: Seq<char>, rest: Seq<char>, ordered: bool)
    requires
        is_indent(indent),
        word.len() > 0,
        forall|j: int| 0 <= j < word.len() ==> is_visible(#[trigger] word[j]),
        rest.len() > 0 ==> !is_visible(rest[0]),
    ensures
        list_prefix(indent + (word + rest), ordered) == if ordered {
            word + seq!['\t']
        } else {
            seq!['\u{2022}', '\t']
        },
{
    let t = indent + (word + rest);
    let n = indent.len() as int;
    assert((word + rest)[0] == word[0]);
    lemma_depth(indent, word + rest);
    assert(t.subrange(n, n + word.len()) =~= word);
    if rest.len() > 0 {
        assert(t[n + word.len()] == rest[0]);
    }
    lemma_word(word, t, n, 0);
    assert(word.push('\t') =~= word + seq!['\t']);
}

// --- headings -------------------------------------------------------

/// Ends in a visible character behind which at most hashes follow.
pub open spec fn ends_in_word(t: Seq<char>) -> bool
    decreases t.len(),
{
    if t.len() == 0 {
        false
    } else if t.last() == '#' {
        ends_in_word(t.drop_last())
    } else {
        t.last() != ' ' && t.last() != '\t' && t.last() != '\r'
    }
}

pub open spec fn repeated(c: char, n: nat) -> Seq<char> {
    Seq::new(n, |i: int| c)
}

proof fn lemma_char_run(t: Seq<char>, k: int, c: char, n: nat, i: nat)
    requires
        0 <= k,
        i <= n,
        k + n <= t.len(),
        forall|j: int| k <= j < k + n ==> #[trigger] t[j] == c,
        k + n < t.len() ==> t[k + n] != c,
    ensures
        char_run(t, k + i, c) == k + n,
    decreases n - i,
{
    if i < n {
        assert(t[k + i] == c);
        lemma_char_run(t, k, c, n, i + 1);
    }
}

proof fn lemma_skip_blank(t: Seq<char>, k: int, n: nat, i: nat)
    requires
        0 <= k,
        i <= n,
        k + n <= t.len(),
        forall|j: int| k <= j < k + n ==> (#[trigger] t[j]) == ' ' || t[j] == '\t',
        k + n < t.len() ==> t[k + n] != ' ' && t[k + n] != '\t',
    ensures
        skip_blank(t, k + i) == k + n,
    decreases n - i,
{
    if i < n {
        assert(t[k + i] == ' ' || t[k + i] == '\t');
        lemma_skip_blank(t, k, n, i + 1);
    }
}

proof fn lemma_drop_blank(t: Seq<char>, lo: int, at: int, hi: int, cr: bool)
    requires
        0 <= lo <= at <= hi <= t.len(),
        forall|j: int| at <= j < hi ==> (#[trigger] t[j]) == ' ' || t[j] == '\t' || (cr && t[j] == '\r'),
        lo < at ==> t[at - 1] != ' ' && t[at - 1] != '\t' && !(cr && t[at - 1] == '\r'),
    ensures
        drop_blank(t, lo, hi, cr) == at,
    decreases hi,
{
    if at < hi {
        assert(t[hi - 1] == ' ' || t[hi - 1] == '\t' || (cr && t[hi - 1] == '\r'));
        lemma_drop_blank(t, lo, at, hi - 1, cr);
    }
}

proof fn lemma_drop_hash(t: Seq<char>, lo: int, at: int, hi: int)
    requires
        0 <= lo <= at <= hi <= t.len(),
        forall|j: int| at <= j < hi ==> (#[trigger] t[j]) == '#',
        lo < at ==> t[at - 1] != '#',
    ensures
        drop_hash(t, lo, hi) == at,
    decreases hi,
{
    if at < hi {
        assert(t[hi - 1] == '#');
        lemma_drop_hash(t, lo, at, hi - 1);
    }
}

/// Hashes at the end of a word belong to it.
proof fn lemma_word_hashes(t: Seq<char>, title: Seq<char>, lo: int, n: int)
    requires
        0 <= lo,
        0 <= n <= title.len(),
        lo + title.len() <= t.len(),
        t.subrange(lo, lo + title.len()) == title,
        ends_in_word(title.take(n)),
    ensures
        ({
            let k = drop_hash(t, lo, lo + n);
            lo < k <= lo + n && t[k - 1] != ' ' && t[k - 1] != '\t' && t[k - 1] != '#'
        }),
    decreases n,
{
    let head = title.take(n);
    assert(head.len() > 0);
    assert(t[lo + n - 1] == t.subrange(lo, lo + title.len())[n - 1]);
    assert(head.last() == title[n - 1]);
    if head.last() == '#' {
        assert(head.drop_last() =~= title.take(n - 1));
        lemma_word_hashes(t, title, lo, n - 1);
    }
}

/// A heading is shown as its title: without the hashes in front, the
/// blanks around it, and a closing run of hashes that a blank precedes.
pub proof fn law_heading_text(
    spaces: nat,
    level: nat,
    gap: Seq<char>,
    title: Seq<char>,
    close_gap: Seq<char>,
    close: nat,
    tail: Seq<char>,
)
    requires
        is_indent(gap),
        gap.len() > 0,
        level > 0,
        title.len() > 0,
        title[0] != ' ' && title[0] != '\t',
        ends_in_word(title),
        is_indent(close_gap),
        close > 0 <==> close_gap.len() > 0,
        forall|i: int| 0 <= i < tail.len() ==> (#[trigger] tail[i]) == ' ' || tail[i] == '\t' || tail[i] == '\r',
    ensures
        heading_text(
            repeated(' ', spaces) + repeated('#', level) + gap + title + close_gap + repeated('#', close) + tail,
        ) == title,
{
    let t = repeated(' ', spaces) + repeated('#', level) + gap + title + close_gap + repeated('#', close) + tail;
    let h = spaces as int;
    let g = h + level;
    let lo = g + gap.len();
    let e = lo + title.len();
    let c = e + close_gap.len();
    let hi = c + close;
    assert(t[h] == '#');
    assert(t[g] == gap[0]);
    assert(t[lo] == title[0]);
    lemma_char_run(t, 0, ' ', spaces, 0);
    lemma_char_run(t, h, '#', level, 0);
    assert forall|j: int| g <= j < lo implies (#[trigger] t[j]) == ' ' || t[j] == '\t' by {
        assert(t[j] == gap[j - g]);
    }
    lemma_skip_blank(t, g, gap.len(), 0);
    assert forall|j: int| hi <= j < t.len() implies (#[trigger] t[j]) == ' ' || t[j] == '\t' || t[j] == '\r' by {
        assert(t[j] == tail[j - hi]);
    }
    assert(t[e - 1] == title.last());
    if close > 0 {
        assert(t[hi - 1] == '#');
    }
    lemma_drop_blank(t, lo, hi, t.len() as int, true);
    assert(t.subrange(lo, e) =~= title);
    assert(title.take(title.len() as int) =~= title);
    if close > 0 {
        assert forall|j: int| c <= j < hi implies (#[trigger] t[j]) == '#' by {}
        assert(t[c - 1] == close_gap.last());
        lemma_drop_hash(t, lo, c, hi);
        assert forall|j: int| e <= j < c implies (#[trigger] t[j]) == ' ' || t[j] == '\t' by {
            assert(t[j] == close_gap[j - e]);
        }
        lemma_drop_blank(t, lo, e, c, false);
    } else {
        assert(hi == e);
        lemma_word_hashes(t, title, lo, title.len() as int);
    }
}

/// A quoted line goes on behind its `>` and one blank.
pub proof fn law_quote_start(spaces: nat, rest: Seq<char>)
    requires
        rest.len() > 0 ==> rest[0] == ' ' || rest[0] == '\t' || is_visible(rest[0]),
    ensures
        ({
            let t = repeated(' ', spaces) + seq!['>'] + rest;
            t.skip(quote_start(t)) == if rest.len() > 0 && (rest[0] == ' ' || rest[0] == '\t') {
                rest.skip(1)
            } else {
                rest
            }
        }),
{
    let t = repeated(' ', spaces) + seq!['>'] + rest;
    assert(t[spaces as int] == '>');
    lemma_char_run(t, 0, ' ', spaces, 0);
    if rest.len() > 0 {
        assert(t[spaces as int + 1] == rest[0]);
        if rest[0] == ' ' || rest[0] == '\t' {
            assert(t.skip(spaces as int + 2) =~= rest.skip(1));
        } else {
            assert(t.skip(spaces as int + 1) =~= rest);
        }
    } else {
        assert(t.skip(spaces as int + 1) =~= rest);
    }
}

/// Three or more backticks or tildes behind at most three spaces make a
/// fence; fewer, or a deeper indentation, do not.
pub proof fn law_fence(spaces: nat, c: char, n: nat, rest: Seq<char>)
    requires
        c != ' ',
        n > 0,
        rest.len() > 0 ==> rest[0] != c,
    ensures
        is_fence(repeated(' ', spaces) + repeated(c, n) + rest) <==> spaces <= 3 && n >= 3 && (c == '`' || c == '~'),
{
    let t = repeated(' ', spaces) + repeated(c, n) + rest;
    assert(t[spaces as int] == c);
    lemma_char_run(t, 0, ' ', spaces, 0);
    if rest.len() > 0 {
        assert(t[spaces as int + n] == rest[0]);
    }
    lemma_char_run(t, spaces as int, c, n, 0);
}

// --- paragraphs -----------------------------------------------------

/// How a line of a paragraph ends.
pub enum LineEnd {
    /// White space, but not two spaces at the end.
    Soft(Seq<char>),
    /// White space that ends in two spaces.
    Spaces(Seq<char>),
    /// A backslash, and white space.
    Slash(Seq<char>),
}

/// A line of a paragraph: white space, visible text, and its end.
pub struct WrittenLine {
    pub lead: Seq<char>,
    pub words: Seq<char>,
    pub end: LineEnd,
}

pub open spec fn is_white(t: Seq<char>) -> bool {
    forall|i: int| 0 <= i < t.len() ==> !is_visible(#[trigger] t[i])
}

pub open spec fn two_spaces(t: Seq<char>) -> bool {
    t.len() >= 2 && t[t.len() - 1] == ' ' && t[t.len() - 2] == ' '
}

impl WrittenLine {
    pub open spec fn valid(self) -> bool {
        &&& is_white(self.lead)
        &&& self.words.len() > 0 && is_visible(self.words[0]) && is_visible(self.words.last())
        &&& match self.end {
            LineEnd::Soft(w) => is_white(w) && !two_spaces(w) && self.words.last() != '\\',
            LineEnd::Spaces(w) => is_white(w) && two_spaces(w) && self.words.last() != '\\',
            LineEnd::Slash(w) => is_white(w),
        }
    }

    pub open spec fn text(self) -> Seq<char> {
        match self.end {
            LineEnd::Soft(w) => self.lead + self.words + w,
            LineEnd::Spaces(w) => self.lead + self.words + w,
            LineEnd::Slash(w) => self.lead + self.words.push('\\') + w,
        }
    }
}

proof fn lemma_content(line: WrittenLine)
    requires
        line.valid(),
    ensures
        line_content(line.text()) == line.words,
        is_hard_break(line.text()) == !(line.end is Soft),
{
    let (inner, w) = match line.end {
        LineEnd::Soft(w) => (line.words, w),
        LineEnd::Spaces(w) => (line.words, w),
        LineEnd::Slash(w) => (line.words.push('\\'), w),
    };
    let t = line.text();
    let n = line.lead.len() as int;
    assert(t =~= line.lead + (inner + w));
    assert(t =~= (line.lead + inner) + w);
    assert((inner + w)[0] == line.words[0]);
    lemma_skip(line.lead, inner + w, 0);
    assert((line.lead + inner).last() == inner.last());
    assert(is_visible('\\'));
    lemma_drop(line.lead + inner, w, 0, w.len() as int);
    let hi = n + inner.len();
    assert(trimmed_range(t) == (n, hi));
    assert(t[hi - 1] == inner.last());
    if line.end is Slash {
        assert(t.subrange(n, hi - 1) =~= line.words);
    } else {
        assert(t.subrange(n, hi) =~= line.words);
        let len = t.len() as int;
        if w.len() >= 2 {
            assert(t[len - 1] == w[w.len() - 1]);
            assert(t[len - 2] == w[w.len() - 2]);
        } else if w.len() == 1 {
            assert(t[len - 2] == inner.last());
        } else {
            assert(t[len - 1] == inner.last());
        }
        assert(!is_visible(' '));
    }
}

pub open spec fn line_texts(lines: Seq<WrittenLine>) -> Seq<Seq<char>> {
    Seq::new(lines.len(), |i: int| lines[i].text())
}

/// The words of the lines; between two lines a space, or a line separator
/// behind a hard break.
pub open spec fn flowed(lines: Seq<WrittenLine>) -> Seq<char>
    decreases lines.len(),
{
    if lines.len() == 0 {
        Seq::empty()
    } else if lines.len() == 1 {
        lines[0].words
    } else {
        lines[0].words + seq![
            if lines[0].end is Soft {
                ' '
            } else {
                '\u{2028}'
            },
        ] + flowed(lines.skip(1))
    }
}

proof fn lemma_flowed_last(lines: Seq<WrittenLine>)
    requires
        lines.len() > 1,
    ensures
        flowed(lines) == flowed(lines.drop_last()) + seq![
            if lines[lines.len() - 2].end is Soft {
                ' '
            } else {
                '\u{2028}'
            },
        ] + lines.last().words,
    decreases lines.len(),
{
    let rest = lines.skip(1);
    if lines.len() == 2 {
        assert(rest.len() == 1 && rest[0] == lines.last());
        assert(flowed(rest) == lines.last().words);
        assert(flowed(lines.drop_last()) == lines[0].words);
    } else {
        lemma_flowed_last(rest);
        assert(rest.drop_last() =~= lines.drop_last().skip(1));
        assert(rest[rest.len() - 2] == lines[lines.len() - 2]);
        assert(flowed(lines) =~= flowed(lines.drop_last()) + seq![
            if lines[lines.len() - 2].end is Soft {
                ' '
            } else {
                '\u{2028}'
            },
        ] + lines.last().words);
    }
}

/// The lines of a paragraph flow together: white space around them goes,
/// a soft break becomes a space, and two trailing spaces or a backslash
/// make a line break.
pub proof fn law_paragraph_flows(lines: Seq<WrittenLine>)
    requires
        forall|i: int| 0 <= i < lines.len() ==> (#[trigger] lines[i]).valid(),
    ensures
        joined_lines(line_texts(lines)) == flowed(lines),
    decreases lines.len(),
{
    let texts = line_texts(lines);
    if lines.len() == 1 {
        assert(lines[0].valid());
        lemma_content(lines[0]);
    } else if lines.len() > 1 {
        let before = lines.drop_last();
        assert forall|i: int| 0 <= i < before.len() implies (#[trigger] before[i]).valid() by {
            assert(before[i] == lines[i]);
        }
        assert(texts.drop_last() =~= line_texts(before));
        law_paragraph_flows(before);
        lemma_content(lines[lines.len() - 2]);
        lemma_content(lines[lines.len() - 1]);
        lemma_flowed_last(lines);
        let c = if lines[lines.len() - 2].end is Soft {
            ' '
        } else {
            '\u{2028}'
        };
        assert(texts.drop_last().last() == lines[lines.len() - 2].text());
        assert(joined_lines(texts) == flowed(before).push(c) + lines.last().words);
        assert(flowed(before).push(c) =~= flowed(before) + seq![c]);
    }
}

/// The lines of a fenced block stand one below the other, without the
/// fences.
pub proof fn law_fenced_lines(open: Seq<char>, lines: Seq<Seq<char>>, close: Seq<char>, closed: bool)
    requires
        is_fence(open),
        closed ==> is_fence(close),
        !closed && lines.len() > 0 ==> !is_fence(lines.last()),
    ensures
        fenced_content(
            seq![open] + lines + if closed {
                seq![close]
            } else {
                Seq::empty()
            },
        ) == lines,
{
    let tail = if closed {
        seq![close]
    } else {
        Seq::empty()
    };
    let all = seq![open] + lines + tail;
    assert(all[0] == open);
    if closed {
        assert(all.last() == close);
    } else if lines.len() > 0 {
        assert(all.last() == lines.last());
    }
    assert(all.subrange(1, 1 + lines.len() as int) =~= lines);
}

/// Lines that are put together take a line separator between them.
pub proof fn law_separated(first: Seq<char>, rest: Seq<Seq<char>>)
    requires
        rest.len() > 0,
    ensures
        separated(seq![first] + rest) == first + seq!['\u{2028}'] + separated(rest),
        separated(seq![first]) == first,
    decreases rest.len(),
{
    let all = seq![first] + rest;
    let before = rest.drop_last();
    assert(all.drop_last() =~= seq![first] + before);
    assert(all.last() == rest.last());
    if before.len() > 0 {
        law_separated(first, before);
        assert(separated(all) =~= first + seq!['\u{2028}'] + separated(rest));
    } else {
        assert(all.drop_last() =~= seq![first]);
        assert(separated(all.drop_last()) == first);
        assert(separated(rest) == rest[0]);
        assert(separated(all) =~= first + seq!['\u{2028}'] + separated(rest));
    }
}

} // verus!
