//! Laws of the markdown structure: the indexes are well formed, the
//! heading tree is the document outline, and every line gets one block.

use vstd::prelude::*;

use crate::ascii::{BACKTICK, HASH, LF, TILDE};
use crate::bytes::{index_from, lemma_index_from, lemma_line_starts, line_starts_in, past_byte};
use crate::format::cursor::byte_at;
use crate::format::nesting::{
    bounded, frames_open, lemma_closed, lemma_frames_grow, lemma_frames_pop, lemma_opened, lemma_styled,
    lemma_with_name, sound,
};
use crate::format::{intern_id, is_ancestor, starts_sorted, PathEntry, PathSegment, ScanState, StyleKind, ROOT_PARENT};
use crate::markdown_core::{
    close_headings, closes_fence, code_close, heading_level, heading_parent, inline_code, lemma_code_close,
    lemma_inline_code, lemma_run_of, lemma_spaces_at, marker_at, md_document, md_fence, md_fence_lines, md_heading,
    md_line, md_lines, md_plain_line, md_start, plain_line_kind, run_of, section_bytes, title_of, title_start,
    BlockKind, MdState,
};

verus! {

/// Level of a heading entry; zero for the root.
pub open spec fn level_of(e: PathEntry) -> u32 {
    match e.segment {
        PathSegment::Heading { level, .. } => level,
        _ => 0,
    }
}

/// Where the section of heading `i` ends: the start of the first entry
/// from `j` on that is not deeper, or the end of the input.
pub open spec fn section_end(paths: Seq<PathEntry>, i: int, j: int, len: int) -> int
    decreases paths.len() - j,
{
    if j < 0 || j >= paths.len() {
        len
    } else if level_of(paths[j]) <= level_of(paths[i]) {
        paths[j].start as int
    } else {
        section_end(paths, i, j + 1, len)
    }
}

/// Entry 0 is the root, every other entry is a heading of level 1 to 6,
/// and its parent is the nearest earlier entry of a smaller level.
pub open spec fn is_outline(paths: Seq<PathEntry>) -> bool {
    &&& paths.len() > 0
    &&& paths[0].segment is Root
    &&& paths[0].start == 0
    &&& paths[0].parent == ROOT_PARENT
    &&& forall|i: int|
        1 <= i < paths.len() ==> {
            let e = #[trigger] paths[i];
            &&& e.segment is Heading
            &&& 1 <= level_of(e) <= 6
            &&& e.parent < i
            &&& level_of(paths[e.parent as int]) < level_of(e)
        }
    &&& forall|i: int, j: int|
        1 <= i < paths.len() && paths[i].parent < j < i ==> level_of(#[trigger] paths[j]) >= level_of(
            #[trigger] paths[i],
        )
}

/// The open headings, the root first.
spec fn frames_of(stack: Seq<(u32, u32)>) -> Seq<u32> {
    seq![0u32] + Seq::new(stack.len(), |k: int| stack[k].0)
}

/// Entry `i` is one of the open headings from depth `from` on.
spec fn is_open(stack: Seq<(u32, u32)>, from: int, i: int) -> bool {
    exists|k: int| from <= k < stack.len() && (#[trigger] stack[k]).0 == i
}

/// An entry from `j` on ends the section of heading `i`.
spec fn has_section_end(paths: Seq<PathEntry>, i: int, j: int) -> bool {
    exists|k: int| j <= k < paths.len() && level_of(#[trigger] paths[k]) <= level_of(paths[i])
}

/// The open headings know their levels; whatever follows one is deeper;
/// whatever follows the heading before it is at least as deep as it.
#[verifier::opaque]
spec fn stack_ok(paths: Seq<PathEntry>, stack: Seq<(u32, u32)>) -> bool {
    &&& frames_open(paths, frames_of(stack))
    &&& forall|k: int| 0 <= k < stack.len() ==> level_of(paths[(#[trigger] stack[k]).0 as int]) == stack[k].1
    &&& forall|k: int, j: int|
        0 <= k < stack.len() && stack[k].0 < j < paths.len() ==> level_of(#[trigger] paths[j]) > (
        #[trigger] stack[k]).1
    &&& forall|k: int, j: int|
        0 <= k < stack.len() && frames_of(stack)[k] < j < paths.len() ==> level_of(#[trigger] paths[j]) >= (
        #[trigger] stack[k]).1
}

/// Every heading that is not open ends where its section does.
#[verifier::opaque]
spec fn sections_ok(paths: Seq<PathEntry>, stack: Seq<(u32, u32)>) -> bool {
    forall|i: int|
        1 <= i < paths.len() && !is_open(stack, 0, i) ==> has_section_end(paths, i, i + 1) && (
        #[trigger] paths[i]).end == section_end(paths, i, i + 1, 0)
}

/// The innermost open entry is the last one.
spec fn top_is_last(paths: Seq<PathEntry>, stack: Seq<(u32, u32)>) -> bool {
    frames_of(stack).last() == paths.len() - 1
}

/// The headings so far form an outline, and the stack holds its open
/// end.
#[verifier::opaque]
spec fn tree_ok(paths: Seq<PathEntry>, stack: Seq<(u32, u32)>) -> bool {
    &&& is_outline(paths)
    &&& stack_ok(paths, stack)
    &&& sections_ok(paths, stack)
    &&& top_is_last(paths, stack)
}

/// The indexes are well formed and lie in the consumed input.
spec fn scanned(s: Seq<u8>, st: ScanState) -> bool {
    &&& s.len() < u32::MAX
    &&& 0 <= st.pos <= s.len()
    &&& sound(st)
    &&& bounded(st, st.pos)
    &&& st.paths.len() <= st.pos + 1
}

/// At the start of a line, with one block per line before it.
spec fn ready(s: Seq<u8>, m: MdState) -> bool {
    &&& scanned(s, m.st)
    &&& tree_ok(m.st.paths, m.stack)
    &&& blocks_ok(s, m)
}

/// The block of line `k` is block `k`, and there is one for each line up
/// to the position.
#[verifier::opaque]
spec fn blocks_ok(s: Seq<u8>, m: MdState) -> bool {
    &&& forall|k: int| 0 <= k < m.blocks.len() ==> (#[trigger] m.blocks[k]).line_index == k
    &&& m.blocks.len() == line_starts_in(s, m.st.pos).len() - (if m.st.pos == 0 || s[m.st.pos - 1] == LF {
        1int
    } else {
        0int
    })
    &&& m.st.pos == 0 || m.st.pos == s.len() || s[m.st.pos - 1] == LF
}

// --- lines ----------------------------------------------------------

/// Between two line feeds no line starts.
proof fn lemma_line_starts_flat(s: Seq<u8>, a: int, b: int)
    requires
        0 <= a <= b <= s.len(),
        forall|k: int| a <= k < b ==> #[trigger] s[k] != LF,
    ensures
        line_starts_in(s, b) == line_starts_in(s, a),
    decreases b - a,
{
    if a < b {
        lemma_line_starts_flat(s, a, b - 1);
        assert(s[b - 1] != LF);
    }
}

/// Taking a whole line adds its block and keeps the count.
proof fn lemma_line_taken(s: Seq<u8>, m: MdState, kind: BlockKind)
    requires
        s.len() < u32::MAX,
        0 <= m.st.pos < s.len(),
        blocks_ok(s, m),
    ensures
        blocks_ok(s, m.line(s, kind).at(past_byte(s, m.st.pos, LF))),
        m.st.pos < past_byte(s, m.st.pos, LF) <= s.len(),
{
    reveal(blocks_ok);
    let p = m.st.pos;
    lemma_index_from(s, p, LF);
    let e = index_from(s, p, LF);
    lemma_line_starts_flat(s, p, e);
    lemma_line_starts(s, p);
    let after = m.line(s, kind).at(past_byte(s, p, LF));
    assert forall|k: int| 0 <= k < after.blocks.len() implies (#[trigger] after.blocks[k]).line_index == k by {
        if k < m.blocks.len() {
            assert(after.blocks[k] == m.blocks[k]);
        }
    }
    if e == s.len() {
        assert(p < e);
        assert(s[e - 1] != LF);
    }
}

/// Scanning for inline code stops at the end of the line.
proof fn lemma_inline_stop(s: Seq<u8>, st: ScanState)
    requires
        0 <= st.pos <= s.len(),
    ensures
        inline_code(s, st).pos == index_from(s, st.pos, LF),
    decreases s.len() - st.pos,
{
    let p = st.pos;
    if p < s.len() && s[p] != LF {
        if s[p] == BACKTICK {
            lemma_run_of(s, p, BACKTICK);
            let e = run_of(s, p, BACKTICK);
            lemma_index_skip(s, p, e);
            lemma_code_close(s, e, e - p);
            lemma_code_close_flat(s, e, e - p);
            match code_close(s, e, e - p) {
                Some(end) => {
                    lemma_index_skip(s, e, end);
                    lemma_inline_stop(s, st.styled(p, end, StyleKind::Code).at(end));
                },
                None => {
                    lemma_inline_stop(s, st.at(e));
                },
            }
        } else {
            lemma_inline_stop(s, st.at(p + 1));
        }
    }
}

proof fn lemma_index_skip(s: Seq<u8>, a: int, b: int)
    requires
        0 <= a <= b <= s.len(),
        forall|k: int| a <= k < b ==> #[trigger] s[k] != LF,
    ensures
        index_from(s, a, LF) == index_from(s, b, LF),
    decreases b - a,
{
    if a < b {
        assert(s[a] != LF);
        lemma_index_skip(s, a + 1, b);
    }
}

proof fn lemma_code_close_flat(s: Seq<u8>, i: int, count: int)
    requires
        0 <= i <= s.len(),
    ensures
        code_close(s, i, count) matches Some(e) ==> forall|k: int| i <= k < e ==> #[trigger] s[k] != LF,
    decreases s.len() - i,
{
    if i < s.len() && s[i] != LF {
        lemma_run_of(s, i, BACKTICK);
        if s[i] == BACKTICK {
            lemma_code_close_flat(s, run_of(s, i, BACKTICK), count);
        } else {
            lemma_code_close_flat(s, i + 1, count);
        }
    }
}

proof fn lemma_inline_sound(s: Seq<u8>, st: ScanState)
    requires
        s.len() < u32::MAX,
        0 <= st.pos <= s.len(),
        sound(st),
        bounded(st, st.pos),
    ensures
        sound(inline_code(s, st)),
        bounded(inline_code(s, st), inline_code(s, st).pos),
        inline_code(s, st).paths == st.paths,
        inline_code(s, st).names == st.names,
        st.pos <= inline_code(s, st).pos <= s.len(),
    decreases s.len() - st.pos,
{
    lemma_inline_code(s, st);
    let p = st.pos;
    if p < s.len() && s[p] != LF {
        if s[p] == BACKTICK {
            lemma_run_of(s, p, BACKTICK);
            let e = run_of(s, p, BACKTICK);
            lemma_code_close(s, e, e - p);
            match code_close(s, e, e - p) {
                Some(end) => {
                    lemma_styled(st, p, end, StyleKind::Code);
                    lemma_inline_sound(s, st.styled(p, end, StyleKind::Code).at(end));
                },
                None => {
                    lemma_inline_sound(s, st.at(e));
                },
            }
        } else {
            lemma_inline_sound(s, st.at(p + 1));
        }
    }
}

proof fn lemma_blocks_same(s: Seq<u8>, a: MdState, b: MdState)
    requires
        blocks_ok(s, a),
        a.blocks == b.blocks,
        a.st.pos == b.st.pos,
    ensures
        blocks_ok(s, b),
{
    reveal(blocks_ok);
}

proof fn lemma_plain_line(s: Seq<u8>, m: MdState, classify: bool)
    requires
        ready(s, m),
        m.st.pos < s.len(),
    ensures
        ready(s, md_plain_line(s, m, classify)),
        m.st.pos < md_plain_line(s, m, classify).st.pos,
{
    let kind = plain_line_kind(s, m.st.pos);
    lemma_line_taken(s, m, kind);
    let taken = m.line(s, kind).at(past_byte(s, m.st.pos, LF));
    let after = md_plain_line(s, m, classify);
    if !classify || kind == BlockKind::Paragraph {
        lemma_inline_sound(s, m.st);
        lemma_inline_stop(s, m.st);
        lemma_index_from(s, m.st.pos, LF);
        let q = index_from(s, m.st.pos, LF);
        assert(index_from(s, q, LF) == q);
        let st = inline_code(s, m.st);
        assert(after.st == st.at(taken.st.pos));
        assert(scanned(s, after.st));
        lemma_blocks_same(s, taken, after);
    }
}

proof fn lemma_fence_lines(s: Seq<u8>, m: MdState, c: u8, count: int)
    requires
        ready(s, m),
    ensures
        ready(s, md_fence_lines(s, m, c, count)),
        m.st.pos <= md_fence_lines(s, m, c, count).st.pos,
        md_fence_lines(s, m, c, count).st.at(m.st.pos) == m.st,
    decreases s.len() - m.st.pos,
{
    if m.st.pos < s.len() {
        lemma_line_taken(s, m, BlockKind::FencedCode);
        let next = m.line(s, BlockKind::FencedCode).at(past_byte(s, m.st.pos, LF));
        assert(ready(s, next));
        if !closes_fence(s, m.st.pos, c, count) {
            lemma_fence_lines(s, next, c, count);
        }
    }
}

proof fn lemma_fence(s: Seq<u8>, m: MdState, c: u8, count: int)
    requires
        ready(s, m),
        m.st.pos < s.len(),
    ensures
        ready(s, md_fence(s, m, c, count)),
        m.st.pos < md_fence(s, m, c, count).st.pos,
{
    let line = m.st.pos;
    lemma_line_taken(s, m, BlockKind::FencedCode);
    let first = m.line(s, BlockKind::FencedCode).at(past_byte(s, line, LF));
    assert(ready(s, first));
    lemma_fence_lines(s, first, c, count);
    let inside = md_fence_lines(s, first, c, count);
    let end = inside.st.pos;
    lemma_styled(m.st, line, end, StyleKind::CodeBlock);
    let after = md_fence(s, m, c, count);
    assert(inside.st.paths == m.st.paths && inside.st.names == m.st.names && inside.st.styles == m.st.styles) by {
        assert(inside.st.at(first.st.pos) == first.st);
    }
    assert(after.st == m.st.styled(line, end, StyleKind::CodeBlock).at(end));
    assert(scanned(s, after.st));
    assert(after.stack == inside.stack);
    lemma_blocks_same(s, inside, after);
}

// --- headings -------------------------------------------------------

/// Popping the innermost open heading, whose end may change.
proof fn lemma_pop_stack(paths: Seq<PathEntry>, after: Seq<PathEntry>, stack: Seq<(u32, u32)>)
    requires
        stack_ok(paths, stack),
        stack.len() > 0,
        paths.len() == after.len(),
        forall|j: int|
            0 <= j < paths.len() ==> (#[trigger] after[j]).parent == paths[j].parent && after[j].segment
                == paths[j].segment,
    ensures
        stack_ok(after, stack.drop_last()),
{
    reveal(stack_ok);
    let n = stack.len() as int;
    let rest = stack.drop_last();
    let frames = frames_of(stack);
    lemma_frames_pop(paths, after, frames);
    assert(frames.drop_last() =~= frames_of(rest));
    assert forall|k: int, j: int| 0 <= k < rest.len() && rest[k].0 < j < after.len() implies level_of(
        #[trigger] after[j],
    ) > (#[trigger] rest[k]).1 by {
        assert(rest[k] == stack[k]);
        assert(level_of(paths[j]) > stack[k].1);
    }
    assert forall|k: int, j: int| 0 <= k < rest.len() && frames_of(rest)[k] < j < after.len() implies level_of(
        #[trigger] after[j],
    ) >= (#[trigger] rest[k]).1 by {
        assert(rest[k] == stack[k]);
        assert(frames_of(rest)[k] == frames[k]);
        assert(level_of(paths[j]) >= stack[k].1);
    }
    assert forall|k: int| 0 <= k < rest.len() implies level_of(after[(#[trigger] rest[k]).0 as int]) == rest[k].1 by {
        assert(rest[k] == stack[k]);
        assert(frames[k + 1] < paths.len());
    }
}

/// Closing the innermost open heading keeps the indexes well formed.
proof fn lemma_close_top(st: ScanState, stack: Seq<(u32, u32)>, end: int, limit: int)
    requires
        sound(st),
        bounded(st, limit),
        0 <= end <= limit <= u32::MAX,
        stack_ok(st.paths, stack),
        stack.len() > 0,
    ensures
        stack.last().0 < st.paths.len(),
        sound(st.closed_at(stack.last().0 as int, end)),
        bounded(st.closed_at(stack.last().0 as int, end), limit),
        stack_ok(st.closed_at(stack.last().0 as int, end).paths, stack.drop_last()),
{
    let n = stack.len() as int;
    let top = stack.last().0 as int;
    assert(top < st.paths.len() && forall|j: int|
        top < j < st.paths.len() ==> #[trigger] is_ancestor(st.paths, top, j)) by {
        reveal(stack_ok);
        let frames = frames_of(stack);
        assert(frames[n] == top);
        assert(frames[n] < st.paths.len());
        assert forall|j: int| top < j < st.paths.len() implies #[trigger] is_ancestor(st.paths, top, j) by {
            assert(is_ancestor(st.paths, frames[n] as int, j));
        }
    }
    lemma_closed(st, top, end, limit);
    lemma_pop_stack(st.paths, st.closed_at(top, end).paths, stack);
}

/// Every open heading is an entry.
proof fn lemma_stack_bounds(paths: Seq<PathEntry>, stack: Seq<(u32, u32)>)
    requires
        stack_ok(paths, stack),
    ensures
        forall|k: int| 0 <= k < stack.len() ==> (#[trigger] stack[k]).0 < paths.len(),
        paths.len() > 0,
        frames_open(paths, frames_of(stack)),
{
    reveal(stack_ok);
    assert forall|k: int| 0 <= k < stack.len() implies (#[trigger] stack[k]).0 < paths.len() by {
        assert(frames_of(stack)[k + 1] < paths.len());
    }
    assert(frames_of(stack)[0] < paths.len());
}

/// What closing headings does: it pops the ones at `level` and deeper
/// and sets their ends, nothing else.
proof fn lemma_close_headings(m: MdState, level: u32, end: int, limit: int)
    requires
        sound(m.st),
        bounded(m.st, limit),
        0 <= end <= limit <= u32::MAX,
        stack_ok(m.st.paths, m.stack),
    ensures
        ({
            let r = close_headings(m, level, end);
            &&& r.stack.len() <= m.stack.len()
            &&& r.stack == m.stack.take(r.stack.len() as int)
            &&& forall|k: int| r.stack.len() <= k < m.stack.len() ==> (#[trigger] m.stack[k]).1 >= level
            &&& r.stack.len() > 0 ==> r.stack.last().1 < level
            &&& r.st.paths.len() == m.st.paths.len()
            &&& forall|j: int|
                0 <= j < m.st.paths.len() ==> {
                    let e = #[trigger] r.st.paths[j];
                    &&& e.start == m.st.paths[j].start
                    &&& e.parent == m.st.paths[j].parent
                    &&& e.segment == m.st.paths[j].segment
                    &&& e.end == if is_open(m.stack, r.stack.len() as int, j) {
                        end as u32
                    } else {
                        m.st.paths[j].end
                    }
                }
            &&& r.st.pos == m.st.pos
            &&& r.st.names == m.st.names
            &&& r.st.styles == m.st.styles
            &&& r.blocks == m.blocks
            &&& sound(r.st)
            &&& bounded(r.st, limit)
            &&& stack_ok(r.st.paths, r.stack)
        }),
    decreases m.stack.len(),
{
    let n = m.stack.len() as int;
    if n == 0 || m.stack.last().1 < level {
        assert(m.stack.take(n) =~= m.stack);
    } else {
        let top = m.stack.last().0 as int;
        lemma_close_top(m.st, m.stack, end, limit);
        let next = MdState {
            st: m.st.closed_at(top, end),
            stack: m.stack.drop_last(),
            ..m
        };
        lemma_close_headings(next, level, end, limit);
        let r = close_headings(m, level, end);
        assert(r == close_headings(next, level, end));
        let c = r.stack.len() as int;
        assert(next.stack.take(c) =~= m.stack.take(c));
        assert forall|k: int| c <= k < n implies (#[trigger] m.stack[k]).1 >= level by {
            if k < n - 1 {
                assert(next.stack[k] == m.stack[k]);
            }
        }
        assert forall|j: int| 0 <= j < m.st.paths.len() implies {
            let e = #[trigger] r.st.paths[j];
            &&& e.start == m.st.paths[j].start
            &&& e.parent == m.st.paths[j].parent
            &&& e.segment == m.st.paths[j].segment
            &&& e.end == if is_open(m.stack, c, j) {
                end as u32
            } else {
                m.st.paths[j].end
            }
        } by {
            lemma_open_drop(m.stack, c, j);
        }
    }
}

proof fn lemma_open_drop(stack: Seq<(u32, u32)>, from: int, j: int)
    requires
        stack.len() > 0,
        0 <= from < stack.len(),
    ensures
        is_open(stack, from, j) <==> (is_open(stack.drop_last(), from, j) || j == stack.last().0),
{
    let rest = stack.drop_last();
    if is_open(rest, from, j) {
        let k = choose|k: int| from <= k < rest.len() && (#[trigger] rest[k]).0 == j;
        assert(stack[k].0 == j);
    }
    if is_open(stack, from, j) {
        let k = choose|k: int| from <= k < stack.len() && (#[trigger] stack[k]).0 == j;
        if k < rest.len() {
            assert(rest[k].0 == j);
        }
    }
    if j == stack.last().0 {
        assert(stack[stack.len() - 1].0 == j);
    }
}

/// The end of a section depends on starts and levels only.
proof fn lemma_section_end_same(a: Seq<PathEntry>, b: Seq<PathEntry>, i: int, j: int, len: int)
    requires
        a.len() == b.len(),
        0 <= i < a.len(),
        forall|k: int|
            0 <= k < a.len() ==> (#[trigger] a[k]).start == b[k].start && level_of(a[k]) == level_of(b[k]),
    ensures
        section_end(a, i, j, len) == section_end(b, i, j, len),
    decreases a.len() - j,
{
    if 0 <= j < a.len() {
        assert(a[j].start == b[j].start);
        assert(a[i].start == b[i].start);
        lemma_section_end_same(a, b, i, j + 1, len);
    }
}

/// Once an entry ends a section, later entries do not matter.
proof fn lemma_section_end_push(a: Seq<PathEntry>, e: PathEntry, i: int, j: int, len: int, other: int)
    requires
        0 <= i < a.len(),
        0 <= j,
        has_section_end(a, i, j),
    ensures
        section_end(a.push(e), i, j, len) == section_end(a, i, j, other),
        has_section_end(a.push(e), i, j),
    decreases a.len() - j,
{
    let b = a.push(e);
    let k = choose|k: int| j <= k < a.len() && level_of(#[trigger] a[k]) <= level_of(a[i]);
    assert(b[k] == a[k] && b[i] == a[i]);
    assert(level_of(b[k]) <= level_of(b[i]));
    if j < a.len() {
        assert(b[j] == a[j]);
        if level_of(a[j]) > level_of(a[i]) {
            assert(has_section_end(a, i, j + 1)) by {
                assert(k > j);
            }
            lemma_section_end_push(a, e, i, j + 1, len, other);
        }
    }
}

/// Without an entry that ends it, a section ends with what is appended,
/// or with the input.
proof fn lemma_section_end_open(a: Seq<PathEntry>, i: int, j: int, len: int)
    requires
        0 <= i < a.len(),
        0 <= j <= a.len(),
        forall|k: int| j <= k < a.len() ==> level_of(#[trigger] a[k]) > level_of(a[i]),
    ensures
        section_end(a, i, j, len) == len,
        forall|e: PathEntry|
            level_of(e) <= level_of(a[i]) ==> #[trigger] section_end(a.push(e), i, j, len) == e.start,
    decreases a.len() - j,
{
    if j < a.len() {
        lemma_section_end_open(a, i, j + 1, len);
        assert forall|e: PathEntry| level_of(e) <= level_of(a[i]) implies #[trigger] section_end(
            a.push(e),
            i,
            j,
            len,
        ) == e.start by {
            let b = a.push(e);
            assert(b[j] == a[j] && b[i] == a[i]);
            assert(section_end(b, i, j + 1, len) == e.start);
        }
    } else {
        assert forall|e: PathEntry| level_of(e) <= level_of(a[i]) implies #[trigger] section_end(
            a.push(e),
            i,
            j,
            len,
        ) == e.start by {
            let b = a.push(e);
            assert(b[j] == e && b[i] == a[i]);
        }
    }
}

/// `after` has the entries of `before`, apart from their ends, and one
/// more heading whose parent is above it and is the nearest such entry.
spec fn extends(before: Seq<PathEntry>, after: Seq<PathEntry>, parent: int) -> bool {
    let n = before.len() as int;
    &&& after.len() == n + 1
    &&& forall|j: int|
        0 <= j < n ==> (#[trigger] after[j]).start == before[j].start && after[j].parent == before[j].parent
            && after[j].segment == before[j].segment
    &&& after[n].parent == parent
    &&& after[n].segment is Heading
    &&& 1 <= level_of(after[n]) <= 6
    &&& 0 <= parent < n
    &&& level_of(after[parent]) < level_of(after[n])
    &&& forall|j: int| parent < j < n ==> level_of(#[trigger] after[j]) >= level_of(after[n])
}

proof fn lemma_push_outline(before: Seq<PathEntry>, after: Seq<PathEntry>, parent: int)
    requires
        is_outline(before),
        extends(before, after, parent),
    ensures
        is_outline(after),
{
    let n = before.len() as int;
    assert forall|j: int| 0 <= j < n implies level_of(#[trigger] after[j]) == level_of(before[j]) by {
        assert(after[j].start == before[j].start);
    }
    assert forall|i: int| 1 <= i < after.len() implies {
        let x = #[trigger] after[i];
        &&& x.segment is Heading
        &&& 1 <= level_of(x) <= 6
        &&& x.parent < i
        &&& level_of(after[x.parent as int]) < level_of(x)
    } by {
        if i < n {
            assert(before[i].segment is Heading);
            assert(level_of(after[before[i].parent as int]) == level_of(before[before[i].parent as int]));
        }
    }
    assert forall|i: int, j: int| 1 <= i < after.len() && after[i].parent < j < i implies level_of(
        #[trigger] after[j],
    ) >= level_of(#[trigger] after[i]) by {
        if i < n {
            assert(level_of(before[j]) >= level_of(before[i]));
        }
    }
    assert(after[0].start == before[0].start);
}

proof fn lemma_push_stack(
    before: Seq<PathEntry>,
    old_stack: Seq<(u32, u32)>,
    after: Seq<PathEntry>,
    kept: Seq<(u32, u32)>,
    parent: int,
)
    requires
        stack_ok(before, old_stack),
        extends(before, after, parent),
        kept.len() <= old_stack.len(),
        kept == old_stack.take(kept.len() as int),
        frames_of(kept).last() == parent,
        before.len() < u32::MAX,
    ensures
        stack_ok(after, kept.push((before.len() as u32, level_of(after[before.len() as int])))),
{
    reveal(stack_ok);
    let n = before.len() as int;
    let c = kept.len() as int;
    let level = level_of(after[n]);
    let stack = kept.push((n as u32, level));
    let frames = frames_of(kept);
    let old_frames = frames_of(old_stack);
    assert forall|j: int| 0 <= j < n implies level_of(#[trigger] after[j]) == level_of(before[j]) by {
        assert(after[j].start == before[j].start);
    }
    assert forall|k: int| 0 <= k < frames.len() implies #[trigger] frames[k] == old_frames[k] by {
        if k > 0 {
            assert(kept[k - 1] == old_stack[k - 1]);
        }
    }
    assert(old_frames[c] == parent) by {
        assert(frames[c] == old_frames[c]);
    }
    assert(frames_open(before, frames)) by {
        assert forall|k: int, j: int| 0 <= k < frames.len() && frames[k] <= j < before.len() implies #[trigger] is_ancestor(
            before,
            #[trigger] frames[k] as int,
            j,
        ) by {
            assert(is_ancestor(before, old_frames[k] as int, j));
        }
        assert forall|i: int, j: int| 0 <= i < j < frames.len() implies (#[trigger] frames[i]) < (
        #[trigger] frames[j]) by {
            assert(old_frames[i] < old_frames[j]);
        }
    }
    assert(frames_of(stack) =~= frames.push(n as u32));
    assert(is_ancestor(after, parent, parent));
    assert(is_ancestor(after, parent, n));
    lemma_frames_grow(before, frames, after, n);
    assert forall|k: int| 0 <= k < stack.len() implies level_of(after[(#[trigger] stack[k]).0 as int]) == stack[k].1 by {
        if k < c {
            assert(stack[k] == old_stack[k]);
            assert(old_frames[k + 1] < n);
        }
    }
    assert forall|k: int, j: int| 0 <= k < stack.len() && stack[k].0 < j < after.len() implies level_of(
        #[trigger] after[j],
    ) > (#[trigger] stack[k]).1 by {
        if k < c {
            assert(stack[k] == old_stack[k]);
            if j == n {
                if k < c - 1 {
                    assert(old_frames[k + 1] < old_frames[c]);
                    assert(level_of(before[parent]) > old_stack[k].1);
                } else {
                    assert(level_of(before[old_stack[k].0 as int]) == old_stack[k].1);
                    assert(old_frames[k + 1] == parent);
                }
            } else {
                assert(level_of(before[j]) > old_stack[k].1);
            }
        }
    }
    assert forall|k: int, j: int| 0 <= k < stack.len() && frames_of(stack)[k] < j < after.len() implies level_of(
        #[trigger] after[j],
    ) >= (#[trigger] stack[k]).1 by {
        assert(frames_of(stack)[k] == frames[k]);
        if k < c {
            assert(stack[k] == old_stack[k]);
            if j == n {
                if k < c - 1 {
                    assert(old_frames[k + 1] < old_frames[c]);
                    assert(level_of(before[parent]) > old_stack[k].1);
                } else {
                    assert(level_of(before[old_stack[k].0 as int]) == old_stack[k].1);
                    assert(old_frames[k + 1] == parent);
                }
            } else {
                assert(level_of(before[j]) >= old_stack[k].1);
            }
        }
    }
}

proof fn lemma_push_sections(
    before: Seq<PathEntry>,
    old_stack: Seq<(u32, u32)>,
    closed: Seq<PathEntry>,
    kept: Seq<(u32, u32)>,
    e: PathEntry,
    parent: int,
)
    requires
        stack_ok(before, old_stack),
        sections_ok(before, old_stack),
        extends(before, closed.push(e), parent),
        kept.len() <= old_stack.len(),
        kept == old_stack.take(kept.len() as int),
        forall|k: int| kept.len() <= k < old_stack.len() ==> (#[trigger] old_stack[k]).1 >= level_of(e),
        forall|j: int|
            0 <= j < before.len() ==> (#[trigger] closed[j]).end == if is_open(old_stack, kept.len() as int, j) {
                e.start
            } else {
                before[j].end
            },
        before.len() < u32::MAX,
    ensures
        sections_ok(closed.push(e), kept.push((before.len() as u32, level_of(e)))),
{
    reveal(stack_ok);
    reveal(sections_ok);
    let n = before.len() as int;
    let c = kept.len() as int;
    let paths = closed.push(e);
    let stack = kept.push((n as u32, level_of(e)));
    assert forall|j: int| 0 <= j < n implies (#[trigger] before[j]).start == closed[j].start && level_of(before[j])
        == level_of(closed[j]) by {
        assert(paths[j].start == before[j].start);
        assert(paths[j] == closed[j]);
    }
    assert(paths[n] == e);
    assert forall|i: int| 1 <= i < paths.len() && !is_open(stack, 0, i) implies has_section_end(paths, i, i + 1) && (
    #[trigger] paths[i]).end == section_end(paths, i, i + 1, 0) by {
        assert(i < n) by {
            if i == n {
                assert(stack[c].0 == i);
            }
        }
        assert(paths[i] == closed[i]);
        if is_open(old_stack, 0, i) {
            let k = choose|k: int| 0 <= k < old_stack.len() && (#[trigger] old_stack[k]).0 == i;
            if k < c {
                assert(old_stack[k] == kept[k]);
                assert(stack[k].0 == i);
            }
            assert(is_open(old_stack, c, i));
            assert(level_of(before[i]) == old_stack[k].1);
            assert forall|j: int| i + 1 <= j < closed.len() implies level_of(#[trigger] closed[j]) > level_of(
                closed[i],
            ) by {
                assert(level_of(before[j]) > old_stack[k].1);
            }
            lemma_section_end_open(closed, i, i + 1, 0);
            assert(section_end(closed.push(e), i, i + 1, 0) == e.start);
            assert(level_of(paths[n]) <= level_of(paths[i]));
        } else {
            assert(!is_open(old_stack, c, i)) by {
                if is_open(old_stack, c, i) {
                    let k = choose|k: int| c <= k < old_stack.len() && (#[trigger] old_stack[k]).0 == i;
                    assert(is_open(old_stack, 0, i));
                }
            }
            assert(before[i].end == section_end(before, i, i + 1, 0));
            let k = choose|k: int| i + 1 <= k < before.len() && level_of(#[trigger] before[k]) <= level_of(before[i]);
            assert(level_of(closed[k]) <= level_of(closed[i]));
            assert(has_section_end(closed, i, i + 1));
            lemma_section_end_same(before, closed, i, i + 1, 0);
            lemma_section_end_push(closed, e, i, i + 1, 0, 0);
        }
    }
}

/// The nearest heading above `level` is the parent of the next heading
/// of that level.
proof fn lemma_extends(
    before: Seq<PathEntry>,
    stack: Seq<(u32, u32)>,
    closed: Seq<PathEntry>,
    kept: Seq<(u32, u32)>,
    e: PathEntry,
)
    requires
        stack_ok(before, stack),
        top_is_last(before, stack),
        before.len() < u32::MAX,
        closed.len() == before.len(),
        kept.len() <= stack.len(),
        kept == stack.take(kept.len() as int),
        forall|k: int| kept.len() <= k < stack.len() ==> (#[trigger] stack[k]).1 >= level_of(e),
        kept.len() > 0 ==> kept.last().1 < level_of(e),
        forall|j: int|
            0 <= j < before.len() ==> (#[trigger] closed[j]).start == before[j].start && closed[j].parent
                == before[j].parent && closed[j].segment == before[j].segment,
        before[0].segment is Root,
        1 <= level_of(e) <= 6,
        e.segment is Heading,
        e.parent == frames_of(kept).last(),
    ensures
        extends(before, closed.push(e), e.parent as int),
{
    reveal(stack_ok);
    let n = before.len() as int;
    let c = kept.len() as int;
    let frames = frames_of(stack);
    let paths = closed.push(e);
    let p = e.parent as int;
    assert(frames[c] == p) by {
        if c > 0 {
            assert(kept[c - 1] == stack[c - 1]);
        }
    }
    assert(frames[c] < n);
    assert forall|j: int| 0 <= j < n implies (#[trigger] paths[j]).start == before[j].start && paths[j].parent
        == before[j].parent && paths[j].segment == before[j].segment by {
        assert(paths[j] == closed[j]);
    }
    assert forall|j: int| p < j < n implies level_of(#[trigger] paths[j]) >= level_of(paths[n]) by {
        assert(paths[j].segment == before[j].segment);
        if c < stack.len() {
            assert(stack[c].1 >= level_of(e));
            assert(level_of(before[j]) >= stack[c].1);
        } else {
            assert(frames.last() == n - 1);
        }
    }
    assert(paths[p].segment == before[p].segment);
    if c > 0 {
        assert(kept[c - 1] == stack[c - 1]);
        assert(level_of(before[stack[c - 1].0 as int]) == stack[c - 1].1);
    }
}

/// Closing the headings at `level` and deeper and opening a new one
/// keeps the outline.
proof fn lemma_push_heading(m: MdState, r: MdState, level: u32, line: int, e: PathEntry)
    requires
        sound(m.st),
        tree_ok(m.st.paths, m.stack),
        m.st.paths.len() < ROOT_PARENT,
        bounded(m.st, line),
        0 <= line < u32::MAX,
        r == close_headings(m, level, line),
        1 <= level <= 6,
        e.start == line,
        e.parent == heading_parent(r),
        e.segment is Heading,
        level_of(e) == level,
    ensures
        tree_ok(r.st.paths.push(e), r.stack.push((m.st.paths.len() as u32, level))),
        heading_parent(r) < m.st.paths.len(),
{
    reveal(tree_ok);
    lemma_close_headings(m, level, line, line);
    let old = m.st.paths;
    let closed = r.st.paths;
    let p = e.parent as int;
    assert(frames_of(r.stack).last() == p);
    lemma_extends(old, m.stack, closed, r.stack, e);
    lemma_push_outline(old, closed.push(e), p);
    lemma_push_stack(old, m.stack, closed.push(e), r.stack, p);
    lemma_push_sections(old, m.stack, closed, r.stack, e, p);
    assert(frames_of(r.stack.push((old.len() as u32, level))).last() == old.len());
}

proof fn lemma_heading(s: Seq<u8>, m: MdState, a: int, level: u32)
    requires
        ready(s, m),
        m.st.pos < s.len(),
        marker_at(s, m.st.pos) == Some(a),
        heading_level(s, a) == Some(level),
    ensures
        ready(s, md_heading(s, m, a, level)),
        m.st.pos < md_heading(s, m, a, level).st.pos,
{
    let line = m.st.pos;
    lemma_spaces_at(s, line, 4);
    lemma_run_of(s, a, HASH);
    let p = run_of(s, a, HASH);
    let text = title_start(s, a);
    assert(text <= s.len());
    assert forall|k: int| line <= k < text implies #[trigger] s[k] != LF by {
        if k < a {
            assert(s[k] == crate::ascii::SPACE);
        } else if k < p {
            assert(s[k] == HASH);
        }
    }
    lemma_index_skip(s, line, text);
    lemma_index_from(s, line, LF);
    let end = index_from(s, text, LF);
    assert(index_from(s, end, LF) == end);
    let next = past_byte(s, end, LF);
    assert(next == past_byte(s, line, LF));
    lemma_line_taken(s, m, BlockKind::Heading { level });
    let title = title_of(s.subrange(text, end));
    let id = intern_id(m.st.names, title) as u32;
    let noted = m.line(s, BlockKind::Heading { level });
    let named = MdState { st: m.st.with_name(title), ..noted };
    lemma_with_name(m.st, title);
    let r = close_headings(named, level, line);
    assert(stack_ok(named.st.paths, named.stack)) by {
        reveal(tree_ok);
    }
    lemma_close_headings(named, level, line, line);
    let n = m.st.paths.len() as int;
    let seg = PathSegment::Heading { level, text: id };
    let e = PathEntry { start: line as u32, end: 0, parent: heading_parent(r), segment: seg };
    lemma_push_heading(named, r, level, line, e);
    lemma_opened(r.st, line, heading_parent(r), seg);
    lemma_styled(r.st.opened(line, heading_parent(r), seg), line, end, StyleKind::Heading);
    let after = md_heading(s, m, a, level);
    assert(after.st =~= r.st.opened(line, heading_parent(r), seg).styled(line, end, StyleKind::Heading).at(next));
    assert(after.st.paths == r.st.paths.push(e));
    assert(after.stack == r.stack.push((n as u32, level)));
    lemma_blocks_same(s, m.line(s, BlockKind::Heading { level }).at(next), after);
}

proof fn lemma_line(s: Seq<u8>, m: MdState, classify: bool)
    requires
        ready(s, m),
        m.st.pos < s.len(),
    ensures
        ready(s, md_line(s, m, classify)),
        m.st.pos < md_line(s, m, classify).st.pos,
{
    lemma_plain_line(s, m, classify);
    if let Some(a) = marker_at(s, m.st.pos) {
        if let Some(b) = byte_at(s, a) {
            if b == HASH {
                if let Some(level) = heading_level(s, a) {
                    lemma_heading(s, m, a, level);
                }
            } else if (b == BACKTICK || b == TILDE) && run_of(s, a, b) - a >= 3 {
                lemma_fence(s, m, b, run_of(s, a, b) - a);
            }
        }
    }
}

proof fn lemma_lines(s: Seq<u8>, m: MdState, classify: bool)
    requires
        ready(s, m),
    ensures
        ready(s, md_lines(s, m, classify)),
        md_lines(s, m, classify).st.pos == s.len(),
    decreases s.len() - m.st.pos,
{
    if m.st.pos < s.len() {
        lemma_line(s, m, classify);
        lemma_lines(s, md_line(s, m, classify), classify);
    }
}

proof fn lemma_start(s: Seq<u8>)
    requires
        s.len() < u32::MAX,
    ensures
        ready(s, md_start()),
{
    reveal(stack_ok);
    reveal(sections_ok);
    reveal(tree_ok);
    reveal(blocks_ok);
    lemma_opened(ScanState::empty(), 0, ROOT_PARENT, PathSegment::Root);
    let m = md_start();
    assert(frames_of(m.stack) =~= seq![0u32]);
}

/// Whatever the input: entries are sorted by start with parents first,
/// nested or disjoint, and refer to interned titles; style spans are
/// sorted and disjoint; the root covers the document; the whole input is
/// consumed.
pub proof fn law_markdown_indexes(s: Seq<u8>, classify: bool)
    requires
        s.len() < u32::MAX,
    ensures
        sound(md_document(s, classify).st),
        bounded(md_document(s, classify).st, s.len() as int),
        md_document(s, classify).st.pos == s.len(),
        1 <= md_document(s, classify).st.paths.len() <= s.len() + 1,
        md_document(s, classify).st.paths[0] == (PathEntry {
            start: 0,
            end: s.len() as u32,
            parent: ROOT_PARENT,
            segment: PathSegment::Root,
        }),
{
    reveal(tree_ok);
    reveal(blocks_ok);
    lemma_start(s);
    lemma_lines(s, md_start(), classify);
    let m = md_lines(s, md_start(), classify);
    lemma_close_headings(m, 0, s.len() as int, s.len() as int);
    let r = close_headings(m, 0, s.len() as int);
    assert(r.stack.len() == 0);
    lemma_stack_bounds(r.st.paths, r.stack);
    let frames = frames_of(r.stack);
    assert forall|j: int| 0 < j < r.st.paths.len() implies #[trigger] is_ancestor(r.st.paths, 0, j) by {
        assert(is_ancestor(r.st.paths, frames[0] as int, j));
    }
    lemma_closed(r.st, 0, s.len() as int, s.len() as int);
}

/// The heading tree is the document outline: the parent of a heading is
/// the nearest earlier heading of a smaller level, or the root.
pub proof fn law_markdown_outline(s: Seq<u8>, classify: bool)
    requires
        s.len() < u32::MAX,
    ensures
        is_outline(md_document(s, classify).st.paths),
{
    reveal(tree_ok);
    reveal(blocks_ok);
    lemma_start(s);
    lemma_lines(s, md_start(), classify);
    let m = md_lines(s, md_start(), classify);
    lemma_close_headings(m, 0, s.len() as int, s.len() as int);
    let r = close_headings(m, 0, s.len() as int);
    let old = m.st.paths;
    let paths = md_document(s, classify).st.paths;
    assert forall|i: int| 0 <= i < old.len() implies (#[trigger] paths[i]).start == old[i].start && paths[i].parent
        == old[i].parent && paths[i].segment == old[i].segment by {
        assert(r.st.paths[i].start == old[i].start);
    }
    assert forall|i: int| 1 <= i < paths.len() implies {
        let x = #[trigger] paths[i];
        &&& x.segment is Heading
        &&& 1 <= level_of(x) <= 6
        &&& x.parent < i
        &&& level_of(paths[x.parent as int]) < level_of(x)
    } by {
        assert(old[i].segment is Heading);
        assert(level_of(paths[old[i].parent as int]) == level_of(old[old[i].parent as int]));
    }
    assert forall|i: int, j: int| 1 <= i < paths.len() && paths[i].parent < j < i implies level_of(
        #[trigger] paths[j],
    ) >= level_of(#[trigger] paths[i]) by {
        assert(level_of(old[j]) >= level_of(old[i]));
    }
}

/// A heading's range is its section: it ends where the next heading of
/// the same or a smaller level starts, or with the document.
pub proof fn law_markdown_sections(s: Seq<u8>, classify: bool, i: int)
    requires
        s.len() < u32::MAX,
        1 <= i < md_document(s, classify).st.paths.len(),
    ensures
        ({
            let paths = md_document(s, classify).st.paths;
            paths[i].end == section_end(paths, i, i + 1, s.len() as int)
        }),
{
    reveal(stack_ok);
    reveal(sections_ok);
    reveal(tree_ok);
    reveal(blocks_ok);
    lemma_start(s);
    lemma_lines(s, md_start(), classify);
    let m = md_lines(s, md_start(), classify);
    lemma_close_headings(m, 0, s.len() as int, s.len() as int);
    let r = close_headings(m, 0, s.len() as int);
    assert(r.stack.len() == 0);
    let old = m.st.paths;
    let paths = md_document(s, classify).st.paths;
    assert forall|k: int| 0 <= k < old.len() implies (#[trigger] old[k]).start == paths[k].start && level_of(old[k])
        == level_of(paths[k]) by {
        assert(r.st.paths[k].start == old[k].start);
    }
    assert(paths[i] == r.st.paths[i]);
    lemma_section_end_same(old, paths, i, i + 1, s.len() as int);
    if is_open(m.stack, 0, i) {
        let k = choose|k: int| 0 <= k < m.stack.len() && (#[trigger] m.stack[k]).0 == i;
        assert(level_of(old[i]) == m.stack[k].1);
        assert forall|j: int| i + 1 <= j < old.len() implies level_of(#[trigger] old[j]) > level_of(old[i]) by {
            assert(level_of(old[j]) > m.stack[k].1);
        }
        lemma_section_end_open(old, i, i + 1, s.len() as int);
    } else {
        assert(old[i].end == section_end(old, i, i + 1, 0));
        lemma_section_end_default(old, i, i + 1, 0, s.len() as int);
    }
}

proof fn lemma_section_end_default(a: Seq<PathEntry>, i: int, j: int, x: int, y: int)
    requires
        0 <= i < a.len(),
        0 <= j,
        has_section_end(a, i, j),
    ensures
        section_end(a, i, j, x) == section_end(a, i, j, y),
    decreases a.len() - j,
{
    let k = choose|k: int| j <= k < a.len() && level_of(#[trigger] a[k]) <= level_of(a[i]);
    if j < a.len() && level_of(a[j]) > level_of(a[i]) {
        assert(k > j);
        assert(has_section_end(a, i, j + 1));
        lemma_section_end_default(a, i, j + 1, x, y);
    }
}

/// Every line has exactly one block, in order: block `k` is that of line
/// `k`, and there are as many blocks as lines. (An empty last line has no
/// block.)
pub proof fn law_markdown_blocks(s: Seq<u8>)
    requires
        s.len() < u32::MAX,
    ensures
        ({
            let blocks = md_document(s, true).blocks;
            &&& forall|k: int| 0 <= k < blocks.len() ==> (#[trigger] blocks[k]).line_index == k
            &&& blocks.len() == line_starts_in(s, s.len() as int).len() - (if s.len() == 0 || s.last() == LF {
                1int
            } else {
                0int
            })
        }),
{
    reveal(tree_ok);
    reveal(blocks_ok);
    lemma_start(s);
    lemma_lines(s, md_start(), true);
    let m = md_lines(s, md_start(), true);
    lemma_close_headings(m, 0, s.len() as int, s.len() as int);
}

/// A section ends no later than one that holds it.
proof fn lemma_section_end_within(a: Seq<PathEntry>, p: int, i: int, j: int, len: int)
    requires
        starts_sorted(a),
        0 <= p < a.len(),
        0 <= i < a.len(),
        0 <= j,
        level_of(a[p]) <= level_of(a[i]),
        forall|k: int| 0 <= k < a.len() ==> (#[trigger] a[k]).start <= len,
    ensures
        section_end(a, i, j, len) <= section_end(a, p, j, len),
    decreases a.len() - j,
{
    if j < a.len() {
        if level_of(a[j]) <= level_of(a[i]) && level_of(a[j]) > level_of(a[p]) {
            lemma_section_end_later(a, p, j, len);
        } else if level_of(a[j]) > level_of(a[i]) {
            lemma_section_end_within(a, p, i, j + 1, len);
        }
    }
}

/// A section that goes on at `j` ends at or after the start of `j`.
proof fn lemma_section_end_later(a: Seq<PathEntry>, p: int, j: int, len: int)
    requires
        starts_sorted(a),
        0 <= p < a.len(),
        0 <= j < a.len(),
        forall|k: int| 0 <= k < a.len() ==> (#[trigger] a[k]).start <= len,
    ensures
        a[j].start <= section_end(a, p, j, len),
    decreases a.len() - j,
{
    if level_of(a[j]) > level_of(a[p]) {
        if j + 1 < a.len() {
            assert(a[j].start <= a[j + 1].start);
            lemma_section_end_later(a, p, j + 1, len);
        } else {
            assert(section_end(a, p, j + 1, len) == len);
        }
    }
}

/// Deeper headings do not end a section.
proof fn lemma_section_end_skip(a: Seq<PathEntry>, p: int, i: int, j: int, len: int)
    requires
        0 <= p < a.len(),
        0 <= i <= j <= a.len(),
        forall|k: int| i <= k < j ==> level_of(#[trigger] a[k]) > level_of(a[p]),
    ensures
        section_end(a, p, i, len) == section_end(a, p, j, len),
    decreases j - i,
{
    if i < j {
        lemma_section_end_skip(a, p, i + 1, j, len);
    }
}

/// Ranges are properly nested: a section lies in the section or document
/// that it belongs to.
pub proof fn law_markdown_ranges_nested(s: Seq<u8>, classify: bool, i: int)
    requires
        s.len() < u32::MAX,
        1 <= i < md_document(s, classify).st.paths.len(),
    ensures
        ({
            let paths = md_document(s, classify).st.paths;
            let e = paths[i];
            let p = paths[e.parent as int];
            e.parent < i && p.start <= e.start && e.end <= p.end
        }),
{
    law_markdown_indexes(s, classify);
    law_markdown_outline(s, classify);
    law_markdown_sections(s, classify, i);
    let paths = md_document(s, classify).st.paths;
    let p = paths[i].parent as int;
    assert(paths[i].segment is Heading);
    assert(paths[p].start <= paths[i].start);
    assert(paths[i].end <= s.len());
    if p >= 1 {
        law_markdown_sections(s, classify, p);
        assert forall|k: int| p + 1 <= k < i + 1 implies level_of(#[trigger] paths[k]) > level_of(paths[p]) by {
            if k < i {
                assert(level_of(paths[k]) >= level_of(paths[i]));
            }
        }
        lemma_section_end_skip(paths, p, p + 1, i + 1, s.len() as int);
        lemma_section_end_within(paths, p, i, i + 1, s.len() as int);
    }
}

/// The first entry from `i` on that stands directly under the root, or
/// the number of entries.
pub open spec fn next_top(paths: Seq<PathEntry>, i: int) -> int
    decreases paths.len() - i,
{
    if 0 <= i < paths.len() && paths[i].parent != 0 {
        next_top(paths, i + 1)
    } else {
        i
    }
}

/// Where entry `n` starts; the end of a document of `len` bytes when there
/// is none.
pub open spec fn start_or_end(paths: Seq<PathEntry>, n: int, len: int) -> int {
    if 0 <= n < paths.len() {
        paths[n].start as int
    } else {
        len
    }
}

/// The top-level sections from entry `i` on, end to end.
pub open spec fn top_sections(s: Seq<u8>, paths: Seq<PathEntry>, i: int) -> Seq<u8>
    decreases paths.len() - i,
{
    if i < 0 || i >= paths.len() {
        Seq::empty()
    } else if paths[i].parent == 0 {
        section_bytes(s, paths[i]) + top_sections(s, paths, i + 1)
    } else {
        top_sections(s, paths, i + 1)
    }
}

proof fn lemma_next_top(paths: Seq<PathEntry>, i: int)
    requires
        0 <= i <= paths.len(),
    ensures
        i <= next_top(paths, i) <= paths.len(),
        forall|j: int| i <= j < next_top(paths, i) ==> (#[trigger] paths[j]).parent != 0,
        next_top(paths, i) < paths.len() ==> paths[next_top(paths, i)].parent == 0,
    decreases paths.len() - i,
{
    if i < paths.len() && paths[i].parent != 0 {
        lemma_next_top(paths, i + 1);
    }
}

/// Between a top-level heading and the next one all headings are deeper.
proof fn lemma_below_top(paths: Seq<PathEntry>, t: int, n: int, j: int)
    requires
        is_outline(paths),
        1 <= t < j < n <= paths.len(),
        paths[t].parent == 0,
        forall|k: int| t < k < n ==> (#[trigger] paths[k]).parent != 0,
    ensures
        level_of(paths[j]) > level_of(paths[t]),
    decreases j,
{
    let p = paths[j].parent as int;
    assert(paths[j].segment is Heading && p < j);
    assert(level_of(paths[p]) < level_of(paths[j]));
    if p < t {
        assert(level_of(paths[t]) >= level_of(paths[j]));
        assert(paths[t].parent < p < t);
        assert(level_of(paths[p]) >= level_of(paths[t]));
    } else if p > t {
        lemma_below_top(paths, t, n, p);
    }
}

/// A top-level section ends where the next one starts, the last one with
/// the document.
proof fn lemma_top_end(s: Seq<u8>, classify: bool, t: int)
    requires
        s.len() < u32::MAX,
        1 <= t < md_document(s, classify).st.paths.len(),
        md_document(s, classify).st.paths[t].parent == 0,
    ensures
        ({
            let paths = md_document(s, classify).st.paths;
            paths[t].end == start_or_end(paths, next_top(paths, t + 1), s.len() as int)
        }),
{
    let paths = md_document(s, classify).st.paths;
    law_markdown_outline(s, classify);
    law_markdown_sections(s, classify, t);
    lemma_next_top(paths, t + 1);
    let n = next_top(paths, t + 1);
    assert forall|k: int| t + 1 <= k < n implies level_of(#[trigger] paths[k]) > level_of(paths[t]) by {
        lemma_below_top(paths, t, n, k);
    }
    lemma_section_end_skip(paths, t, t + 1, n, s.len() as int);
    if n < paths.len() {
        assert(paths[n].segment is Heading);
        assert(paths[n].parent < t < n);
        assert(level_of(paths[t]) >= level_of(paths[n]));
    }
}

proof fn lemma_top_sections(s: Seq<u8>, classify: bool, i: int)
    requires
        s.len() < u32::MAX,
        1 <= i <= md_document(s, classify).st.paths.len(),
    ensures
        ({
            let paths = md_document(s, classify).st.paths;
            let from = start_or_end(paths, next_top(paths, i), s.len() as int);
            0 <= from <= s.len() && top_sections(s, paths, i) == s.subrange(from, s.len() as int)
        }),
    decreases md_document(s, classify).st.paths.len() - i,
{
    let paths = md_document(s, classify).st.paths;
    law_markdown_indexes(s, classify);
    lemma_next_top(paths, i);
    if i < paths.len() {
        lemma_top_sections(s, classify, i + 1);
        if paths[i].parent == 0 {
            law_markdown_outline(s, classify);
            lemma_top_end(s, classify, i);
            lemma_next_top(paths, i + 1);
            let n = next_top(paths, i + 1);
            if n < paths.len() {
                assert(paths[i].start <= paths[n].start);
            }
            assert(paths[i].segment is Heading);
            let a = paths[i].start as int;
            let b = paths[i].end as int;
            assert(section_bytes(s, paths[i]) =~= s.subrange(a, b));
            assert(s.subrange(a, b) + s.subrange(b, s.len() as int) =~= s.subrange(a, s.len() as int));
        }
    } else {
        assert(s.subrange(s.len() as int, s.len() as int) =~= Seq::<u8>::empty());
    }
}

/// The top-level sections follow one another without gap or overlap: what
/// precedes the first heading and the sections, end to end, are the
/// document.
pub proof fn law_markdown_sections_cover(s: Seq<u8>, classify: bool)
    requires
        s.len() < u32::MAX,
        md_document(s, classify).st.paths.len() > 1,
    ensures
        ({
            let paths = md_document(s, classify).st.paths;
            &&& paths[1].parent == 0
            &&& s.take(paths[1].start as int) + top_sections(s, paths, 1) == s
        }),
{
    let paths = md_document(s, classify).st.paths;
    law_markdown_indexes(s, classify);
    law_markdown_outline(s, classify);
    lemma_top_sections(s, classify, 1);
    assert(paths[1].segment is Heading && paths[1].parent < 1);
    let a = paths[1].start as int;
    assert(s.take(a) + s.subrange(a, s.len() as int) =~= s);
}

} // verus!
