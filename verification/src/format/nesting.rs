//! Shape invariants of the indexes that the parsers build.

use vstd::prelude::*;

use crate::format::{
    climb, is_ancestor, lookup_spec, parents_ok, path_to, started, starts_sorted, lemma_started, PathEntry,
    PathSegment, ScanState, StyleKind, StyleSpan, ROOT_PARENT,
};

verus! {

/// Of two entries the earlier one either ends before the later one
/// starts or is an ancestor of it.
pub open spec fn laminar(entries: Seq<PathEntry>) -> bool {
    forall|i: int, j: int|
        0 <= i < j < entries.len() ==> (#[trigger] entries[i]).end <= (#[trigger] entries[j]).start || is_ancestor(
            entries,
            i,
            j,
        )
}

/// Style spans are sorted and do not overlap.
pub open spec fn styles_ordered(styles: Seq<StyleSpan>) -> bool {
    &&& forall|i: int| 0 <= i < styles.len() ==> (#[trigger] styles[i]).start <= styles[i].end
    &&& forall|i: int, j: int|
        0 <= i < j < styles.len() ==> (#[trigger] styles[i]).end <= (#[trigger] styles[j]).start
}

/// The names a segment refers to are among the first `n` ids.
pub open spec fn segment_named(segment: PathSegment, n: nat) -> bool {
    match segment {
        PathSegment::Key(id) => id < n,
        PathSegment::Element { name, .. } => name < n,
        PathSegment::Attribute(id) => id < n,
        PathSegment::Heading { text, .. } => text < n,
        _ => true,
    }
}

pub open spec fn entries_named(entries: Seq<PathEntry>, n: nat) -> bool {
    forall|i: int| 0 <= i < entries.len() ==> segment_named((#[trigger] entries[i]).segment, n)
}

/// Everything in the state lies at or before `limit`.
pub open spec fn bounded(st: ScanState, limit: int) -> bool {
    &&& forall|i: int|
        0 <= i < st.paths.len() ==> (#[trigger] st.paths[i]).start <= limit && st.paths[i].end <= limit
    &&& forall|i: int| 0 <= i < st.styles.len() ==> (#[trigger] st.styles[i]).end <= limit
}

/// The indexes are well formed.
pub open spec fn sound(st: ScanState) -> bool {
    &&& parents_ok(st.paths)
    &&& starts_sorted(st.paths)
    &&& laminar(st.paths)
    &&& styles_ordered(st.styles)
    &&& entries_named(st.paths, st.names.len())
    &&& st.names.no_duplicates()
}

/// `after` keeps the entries of `before`, and each new one descends from
/// `this`.
pub open spec fn grew(before: ScanState, after: ScanState, this: int) -> bool {
    &&& before.paths.len() <= after.paths.len()
    &&& forall|i: int| 0 <= i < before.paths.len() ==> #[trigger] after.paths[i] == before.paths[i]
    &&& forall|j: int| before.paths.len() <= j < after.paths.len() ==> #[trigger] is_ancestor(after.paths, this, j)
    &&& before.names.len() <= after.names.len()
    &&& before.pos <= after.pos
}

/// Ancestry depends only on the parents at and below the descendant.
pub proof fn lemma_ancestor_same(e1: Seq<PathEntry>, e2: Seq<PathEntry>, a: int, i: int)
    requires
        is_ancestor(e1, a, i),
        i < e1.len(),
        i < e2.len(),
        forall|k: int| 0 <= k <= i ==> (#[trigger] e1[k]).parent == (#[trigger] e2[k]).parent,
    ensures
        is_ancestor(e2, a, i),
    decreases i + 1,
{
    if a != i {
        assert(e1[i].parent == e2[i].parent);
        lemma_ancestor_same(e1, e2, a, e1[i].parent as int);
    }
}

pub proof fn lemma_ancestor_trans(e: Seq<PathEntry>, a: int, b: int, c: int)
    requires
        is_ancestor(e, a, b),
        is_ancestor(e, b, c),
    ensures
        is_ancestor(e, a, c),
    decreases c + 1,
{
    if b != c {
        lemma_ancestor_trans(e, a, b, e[c].parent as int);
    }
}

/// Opening an entry at or after everything that has ended keeps the
/// indexes well formed.
pub proof fn lemma_opened(st: ScanState, start: int, parent: u32, segment: PathSegment)
    requires
        sound(st),
        bounded(st, start),
        0 <= start <= u32::MAX,
        parent == ROOT_PARENT || parent < st.paths.len(),
        segment_named(segment, st.names.len()),
    ensures
        sound(st.opened(start, parent, segment)),
        bounded(st.opened(start, parent, segment), start),
        parent < st.paths.len() && st.paths.len() < ROOT_PARENT ==> is_ancestor(
            st.opened(start, parent, segment).paths,
            parent as int,
            st.paths.len() as int,
        ),
{
    let after = st.opened(start, parent, segment);
    let n = st.paths.len() as int;
    assert forall|i: int, j: int| 0 <= i < j < after.paths.len() implies (#[trigger] after.paths[i]).end <= (
    #[trigger] after.paths[j]).start || is_ancestor(after.paths, i, j) by {
        assert(after.paths[i] == st.paths[i]);
        if j < n {
            assert(after.paths[j] == st.paths[j]);
            if st.paths[i].end > st.paths[j].start {
                lemma_ancestor_same(st.paths, after.paths, i, j);
            }
        }
    }
    assert forall|i: int| 0 <= i < after.paths.len() implies segment_named(
        (#[trigger] after.paths[i]).segment,
        after.names.len(),
    ) by {
        if i < n {
            assert(after.paths[i] == st.paths[i]);
        }
    }
    assert forall|i: int| 0 <= i < after.paths.len() implies (#[trigger] after.paths[i]).parent == ROOT_PARENT
        || after.paths[i].parent < i by {
        if i < n {
            assert(after.paths[i] == st.paths[i]);
        }
    }
    assert forall|i: int| 0 <= i < after.paths.len() implies (#[trigger] after.paths[i]).start <= start
        && after.paths[i].end <= start by {
        if i < n {
            assert(after.paths[i] == st.paths[i]);
        }
    }
    if parent < n && n < ROOT_PARENT {
        assert(is_ancestor(after.paths, parent as int, parent as int));
        assert(after.paths[n].parent == parent);
    }
}

/// Closing an entry whose later entries all descend from it keeps the
/// indexes well formed.
pub proof fn lemma_closed(st: ScanState, i: int, end: int, limit: int)
    requires
        sound(st),
        0 <= i < st.paths.len(),
        0 <= end <= u32::MAX,
        forall|j: int| i < j < st.paths.len() ==> #[trigger] is_ancestor(st.paths, i, j),
    ensures
        sound(st.closed_at(i, end)),
        bounded(st, limit) && end <= limit ==> bounded(st.closed_at(i, end), limit),
        forall|a: int, j: int|
            0 <= j < st.paths.len() && is_ancestor(st.paths, a, j) ==> #[trigger] is_ancestor(
                st.closed_at(i, end).paths,
                a,
                j,
            ),
{
    let after = st.closed_at(i, end);
    assert forall|a: int, j: int| 0 <= j < st.paths.len() && is_ancestor(st.paths, a, j) implies #[trigger] is_ancestor(
        after.paths,
        a,
        j,
    ) by {
        lemma_ancestor_same(st.paths, after.paths, a, j);
    }
    assert forall|x: int, y: int| 0 <= x < y < after.paths.len() implies (#[trigger] after.paths[x]).end <= (
    #[trigger] after.paths[y]).start || is_ancestor(after.paths, x, y) by {
        assert(after.paths[y].start == st.paths[y].start);
        if x == i {
            assert(is_ancestor(st.paths, i, y));
            assert(is_ancestor(after.paths, x, y));
        } else if st.paths[x].end > st.paths[y].start {
            assert(is_ancestor(st.paths, x, y));
            assert(is_ancestor(after.paths, x, y));
        }
    }
    assert forall|x: int| 0 <= x < after.paths.len() implies segment_named(
        (#[trigger] after.paths[x]).segment,
        after.names.len(),
    ) by {
        assert(after.paths[x].segment == st.paths[x].segment);
        assert(segment_named(st.paths[x].segment, st.names.len()));
    }
    assert forall|x: int| 0 <= x < after.paths.len() implies (#[trigger] after.paths[x]).parent == ROOT_PARENT
        || after.paths[x].parent < x by {
        assert(after.paths[x].parent == st.paths[x].parent);
    }
    assert forall|x: int, y: int| 0 <= x <= y < after.paths.len() implies after.paths[x].start
        <= after.paths[y].start by {
        assert(after.paths[x].start == st.paths[x].start);
        assert(after.paths[y].start == st.paths[y].start);
    }
}

/// Appending an entry that is already complete keeps the indexes well
/// formed.
pub proof fn lemma_spanned(st: ScanState, start: int, end: int, parent: u32, segment: PathSegment)
    requires
        sound(st),
        bounded(st, start),
        0 <= start <= end <= u32::MAX,
        parent < st.paths.len() < ROOT_PARENT,
        segment_named(segment, st.names.len()),
    ensures
        sound(st.spanned(start, end, parent, segment)),
        bounded(st.spanned(start, end, parent, segment), end),
        is_ancestor(st.spanned(start, end, parent, segment).paths, parent as int, st.paths.len() as int),
{
    let n = st.paths.len() as int;
    let opened = st.opened(start, parent, segment);
    lemma_opened(st, start, parent, segment);
    lemma_closed(opened, n, end, end);
    assert(opened.closed_at(n, end).paths =~= st.spanned(start, end, parent, segment).paths);
    assert(opened.closed_at(n, end) =~= st.spanned(start, end, parent, segment));
}

/// Appending a style at or after everything styled so far keeps the
/// indexes well formed.
pub proof fn lemma_styled(st: ScanState, start: int, end: int, kind: StyleKind)
    requires
        sound(st),
        bounded(st, start),
        0 <= start <= end <= u32::MAX,
    ensures
        sound(st.styled(start, end, kind)),
        bounded(st.styled(start, end, kind), end),
{
    let after = st.styled(start, end, kind);
    let n = st.styles.len() as int;
    assert forall|i: int| 0 <= i < after.styles.len() implies (#[trigger] after.styles[i]).start <= after.styles[i].end
        && after.styles[i].end <= end by {
        if i < n {
            assert(after.styles[i] == st.styles[i]);
        }
    }
    assert forall|i: int, j: int| 0 <= i < j < after.styles.len() implies (#[trigger] after.styles[i]).end <= (
    #[trigger] after.styles[j]).start by {
        assert(after.styles[i] == st.styles[i]);
        if j < n {
            assert(after.styles[j] == st.styles[j]);
        }
    }
}

/// Interning a name keeps the indexes well formed.
pub proof fn lemma_with_name(st: ScanState, name: Seq<u8>)
    requires
        sound(st),
    ensures
        sound(st.with_name(name)),
        st.names.len() <= st.with_name(name).names.len() <= st.names.len() + 1,
        0 <= crate::format::interner::intern_id(st.names, name) < st.with_name(name).names.len(),
{
    let after = st.with_name(name);
    assert forall|i: int| 0 <= i < after.paths.len() implies segment_named(
        (#[trigger] after.paths[i]).segment,
        after.names.len(),
    ) by {
        assert(segment_named(st.paths[i].segment, st.names.len()));
    }
}

pub proof fn lemma_grew_trans(a: ScanState, b: ScanState, c: ScanState, this: int)
    requires
        grew(a, b, this),
        grew(b, c, this),
    ensures
        grew(a, c, this),
{
    assert forall|j: int| a.paths.len() <= j < c.paths.len() implies #[trigger] is_ancestor(c.paths, this, j) by {
        if j < b.paths.len() {
            assert(is_ancestor(b.paths, this, j));
            assert forall|k: int| 0 <= k <= j implies (#[trigger] b.paths[k]).parent == (#[trigger] c.paths[k]).parent by {
                assert(c.paths[k] == b.paths[k]);
            }
            lemma_ancestor_same(b.paths, c.paths, this, j);
        }
    }
}

/// Opening entry `entry` under `this`, growing below it and closing it
/// amounts to growing below `this`.
pub proof fn lemma_grew_around(a: ScanState, opened: ScanState, inner: ScanState, this: int, end: int)
    requires
        opened.paths.len() == a.paths.len() + 1,
        forall|i: int| 0 <= i < a.paths.len() ==> #[trigger] opened.paths[i] == a.paths[i],
        is_ancestor(opened.paths, this, a.paths.len() as int),
        a.names.len() <= opened.names.len(),
        a.pos <= opened.pos,
        grew(opened, inner, a.paths.len() as int),
    ensures
        grew(a, inner.closed_at(a.paths.len() as int, end), this),
        grew(a, inner, this),
{
    let n = a.paths.len() as int;
    let after = inner.closed_at(n, end);
    assert forall|i: int| 0 <= i < n implies #[trigger] after.paths[i] == a.paths[i] by {
        assert(inner.paths[i] == opened.paths[i]);
        assert(opened.paths[i] == a.paths[i]);
    }
    assert forall|i: int| 0 <= i < n implies #[trigger] inner.paths[i] == a.paths[i] by {
        assert(inner.paths[i] == opened.paths[i]);
        assert(opened.paths[i] == a.paths[i]);
    }
    assert forall|k: int| 0 <= k <= n implies (#[trigger] opened.paths[k]).parent == (#[trigger] inner.paths[k]).parent by {
        assert(inner.paths[k] == opened.paths[k]);
    }
    lemma_ancestor_same(opened.paths, inner.paths, this, n);
    assert forall|j: int| n <= j < after.paths.len() implies #[trigger] is_ancestor(after.paths, this, j) by {
        if j > n {
            assert(is_ancestor(inner.paths, n, j));
        }
        lemma_ancestor_trans(inner.paths, this, n, j);
        lemma_ancestor_same(inner.paths, after.paths, this, j);
    }
    assert forall|j: int| n <= j < inner.paths.len() implies #[trigger] is_ancestor(inner.paths, this, j) by {
        if j > n {
            assert(is_ancestor(inner.paths, n, j));
        }
        lemma_ancestor_trans(inner.paths, this, n, j);
    }
}

// --- open entries ----------------------------------------------------

/// Inner entries open later.
pub open spec fn stack_sorted(stack: Seq<u32>) -> bool {
    forall|i: int, j: int| 0 <= i < j < stack.len() ==> (#[trigger] stack[i]) < (#[trigger] stack[j])
}

/// `frames` are the entries that are still open, the root first: every
/// entry from one of them on descends from it.
pub open spec fn frames_open(paths: Seq<PathEntry>, frames: Seq<u32>) -> bool {
    &&& frames.len() > 0
    &&& frames[0] == 0
    &&& stack_sorted(frames)
    &&& forall|k: int| 0 <= k < frames.len() ==> (#[trigger] frames[k]) < paths.len()
    &&& forall|k: int, j: int|
        0 <= k < frames.len() && frames[k] <= j < paths.len() ==> #[trigger] is_ancestor(
            paths,
            #[trigger] frames[k] as int,
            j,
        )
}

/// Entries opened under the innermost frame keep all frames open; the
/// first of them becomes a frame if it stays open.
pub proof fn lemma_frames_grow(paths: Seq<PathEntry>, frames: Seq<u32>, after: Seq<PathEntry>, elem: int)
    requires
        frames_open(paths, frames),
        elem == paths.len(),
        elem < after.len(),
        forall|i: int| 0 <= i < elem ==> (#[trigger] after[i]).parent == paths[i].parent,
        is_ancestor(after, frames.last() as int, elem),
        forall|j: int| elem < j < after.len() ==> #[trigger] is_ancestor(after, elem, j),
        elem <= u32::MAX,
    ensures
        frames_open(after, frames.push(elem as u32)),
        frames_open(after, frames),
{
    let stack = frames.push(elem as u32);
    let top = frames.last() as int;
    assert(frames[frames.len() - 1] < elem);
    assert forall|k: int, j: int| 0 <= k < stack.len() && stack[k] <= j < after.len() implies #[trigger] is_ancestor(
        after,
        #[trigger] stack[k] as int,
        j,
    ) by {
        if k < frames.len() {
            assert(stack[k] == frames[k]);
            if j < elem {
                assert(is_ancestor(paths, frames[k] as int, j));
                lemma_ancestor_same(paths, after, frames[k] as int, j);
            } else {
                assert(k == frames.len() - 1 || frames[k] < frames[frames.len() - 1]);
                assert(is_ancestor(paths, frames[k] as int, top));
                lemma_ancestor_same(paths, after, frames[k] as int, top);
                lemma_ancestor_trans(after, frames[k] as int, top, elem);
                if elem < j {
                    lemma_ancestor_trans(after, frames[k] as int, elem, j);
                }
            }
        }
    }
    assert forall|k: int, j: int| 0 <= k < frames.len() && frames[k] <= j < after.len() implies #[trigger] is_ancestor(
        after,
        #[trigger] frames[k] as int,
        j,
    ) by {
        assert(stack[k] == frames[k]);
        assert(is_ancestor(after, stack[k] as int, j));
    }
    assert forall|i: int, j: int| 0 <= i < j < stack.len() implies (#[trigger] stack[i]) < (#[trigger] stack[j]) by {
        if j < frames.len() {
            assert(frames[i] < frames[j]);
        } else {
            assert(frames[i] < elem);
        }
    }
}

/// Frames stay open when nothing but ranges and segments change.
pub proof fn lemma_frames_same(paths: Seq<PathEntry>, after: Seq<PathEntry>, frames: Seq<u32>)
    requires
        frames_open(paths, frames),
        paths.len() == after.len(),
        forall|i: int| 0 <= i < paths.len() ==> (#[trigger] after[i]).parent == paths[i].parent,
    ensures
        frames_open(after, frames),
{
    assert forall|k: int, j: int| 0 <= k < frames.len() && frames[k] <= j < after.len() implies #[trigger] is_ancestor(
        after,
        #[trigger] frames[k] as int,
        j,
    ) by {
        assert(is_ancestor(paths, frames[k] as int, j));
        lemma_ancestor_same(paths, after, frames[k] as int, j);
    }
}

/// Closing the innermost frame leaves the others open.
pub proof fn lemma_frames_pop(paths: Seq<PathEntry>, after: Seq<PathEntry>, frames: Seq<u32>)
    requires
        frames_open(paths, frames),
        frames.len() > 1,
        paths.len() == after.len(),
        forall|i: int| 0 <= i < paths.len() ==> (#[trigger] after[i]).parent == paths[i].parent,
    ensures
        frames_open(after, frames.drop_last()),
{
    lemma_frames_same(paths, after, frames);
    let outer = frames.drop_last();
    assert forall|k: int, j: int| 0 <= k < outer.len() && outer[k] <= j < after.len() implies #[trigger] is_ancestor(
        after,
        #[trigger] outer[k] as int,
        j,
    ) by {
        assert(outer[k] == frames[k]);
        assert(is_ancestor(after, frames[k] as int, j));
    }
    assert forall|k: int| 0 <= k < outer.len() implies (#[trigger] outer[k]) < after.len() by {
        assert(outer[k] == frames[k]);
    }
}

// --- lookup ---------------------------------------------------------

/// The range of entry `i` contains `offset`.
pub open spec fn covers(entries: Seq<PathEntry>, i: int, offset: int) -> bool {
    0 <= i < entries.len() && entries[i].start <= offset < entries[i].end
}

proof fn lemma_climb(entries: Seq<PathEntry>, i: int, offset: int)
    requires
        parents_ok(entries),
        0 <= i < entries.len() <= ROOT_PARENT,
    ensures
        0 <= climb(entries, i, offset) <= i,
        is_ancestor(entries, climb(entries, i, offset), i),
        entries[climb(entries, i, offset)].end > offset || entries[climb(entries, i, offset)].parent == ROOT_PARENT,
        forall|k: int|
            #[trigger] is_ancestor(entries, k, i) && entries[k].end > offset ==> is_ancestor(
                entries,
                k,
                climb(entries, i, offset),
            ),
    decreases i,
{
    if entries[i].end <= offset && entries[i].parent < i {
        let up = entries[i].parent as int;
        lemma_climb(entries, up, offset);
        assert forall|k: int| #[trigger] is_ancestor(entries, k, i) && entries[k].end > offset implies is_ancestor(
            entries,
            k,
            climb(entries, i, offset),
        ) by {
            assert(is_ancestor(entries, k, up));
        }
    }
}

/// The index finds the innermost entry around an offset: if any entry's
/// range contains it, so does the range of the entry found, and every
/// entry whose range contains it is that entry or an ancestor of it.
pub proof fn law_lookup_innermost(entries: Seq<PathEntry>, offset: int, k: int)
    requires
        parents_ok(entries),
        starts_sorted(entries),
        laminar(entries),
        entries.len() <= ROOT_PARENT,
        covers(entries, k, offset),
    ensures
        lookup_spec(entries, offset) matches Some(r) && covers(entries, r, offset) && is_ancestor(entries, k, r),
{
    lemma_started(entries, offset);
    let last = started(entries, offset) - 1;
    assert(k <= last);
    lemma_climb(entries, last, offset);
    let r = climb(entries, last, offset);
    assert(entries[last].start <= offset);
    if k != last {
        assert(entries[k].end <= entries[last].start || is_ancestor(entries, k, last));
    }
    assert(is_ancestor(entries, k, last));
    assert(is_ancestor(entries, k, r));
    if entries[r].end <= offset {
        assert(entries[r].parent == ROOT_PARENT);
        assert(k == r);
    }
}

/// With a first entry at offset zero the index answers for every offset,
/// also for one that lies behind every entry.
pub proof fn law_lookup_total(entries: Seq<PathEntry>, offset: int)
    requires
        starts_sorted(entries),
        entries.len() > 0,
        entries[0].start == 0,
        0 <= offset,
    ensures
        lookup_spec(entries, offset) is Some,
{
    lemma_started(entries, offset);
    if started(entries, offset) == 0 {
        assert(entries[0].start > offset);
    }
}

/// An entry's path extends the path of its parent by its own segment.
pub proof fn law_path_extends_parent(entries: Seq<PathEntry>, i: int)
    requires
        parents_ok(entries),
        0 <= i < entries.len() <= ROOT_PARENT,
    ensures
        path_to(entries, i) == path_to(entries, entries[i].parent as int) + (if entries[i].segment is Root {
            Seq::empty()
        } else {
            seq![entries[i].segment]
        }),
{
    let above = path_to(entries, entries[i].parent as int);
    assert(above + Seq::<PathSegment>::empty() =~= above);
    assert(above + seq![entries[i].segment] =~= above.push(entries[i].segment));
}

/// Number of entries directly under `parent`.
pub open spec fn child_count(paths: Seq<PathEntry>, parent: u32) -> nat
    decreases paths.len(),
{
    if paths.len() == 0 {
        0
    } else {
        child_count(paths.drop_last(), parent) + if paths.last().parent == parent {
            1nat
        } else {
            0nat
        }
    }
}

pub proof fn lemma_child_count_same(a: Seq<PathEntry>, b: Seq<PathEntry>, parent: u32)
    requires
        a.len() <= b.len(),
        forall|k: int| 0 <= k < a.len() ==> (#[trigger] b[k]).parent == a[k].parent,
        forall|k: int| a.len() <= k < b.len() ==> (#[trigger] b[k]).parent != parent,
    ensures
        child_count(b, parent) == child_count(a, parent),
    decreases b.len(),
{
    if b.len() > a.len() {
        lemma_child_count_same(a, b.drop_last(), parent);
    } else if b.len() > 0 {
        assert(b[b.len() - 1].parent == a[a.len() - 1].parent);
        lemma_child_count_same(a.drop_last(), b.drop_last(), parent);
    }
}

pub proof fn lemma_child_count_none(paths: Seq<PathEntry>, parent: u32)
    requires
        forall|k: int| 0 <= k < paths.len() ==> (#[trigger] paths[k]).parent != parent,
    ensures
        child_count(paths, parent) == 0,
    decreases paths.len(),
{
    if paths.len() > 0 {
        lemma_child_count_none(paths.drop_last(), parent);
    }
}

pub proof fn lemma_child_count_bound(paths: Seq<PathEntry>, parent: u32)
    ensures
        child_count(paths, parent) <= paths.len(),
    decreases paths.len(),
{
    if paths.len() > 0 {
        lemma_child_count_bound(paths.drop_last(), parent);
    }
}

pub proof fn lemma_child_count_take(paths: Seq<PathEntry>, parent: u32, i: int, j: int)
    requires
        0 <= i <= j <= paths.len(),
    ensures
        child_count(paths.take(i), parent) <= child_count(paths.take(j), parent),
        i < j && paths[i].parent == parent ==> child_count(paths.take(i), parent) < child_count(paths.take(j), parent),
    decreases j - i,
{
    if i < j {
        lemma_child_count_take(paths, parent, i, j - 1);
        assert(paths.take(j).drop_last() =~= paths.take(j - 1));
    }
}

/// Where siblings never share a segment, a path leads to one entry.
pub proof fn lemma_paths_apart(paths: Seq<PathEntry>, i: int, j: int)
    requires
        0 < paths.len() <= ROOT_PARENT,
        paths[0].segment is Root,
        paths[0].parent == ROOT_PARENT,
        forall|k: int| 1 <= k < paths.len() ==> !((#[trigger] paths[k]).segment is Root) && paths[k].parent < k,
        forall|a: int, b: int|
            1 <= a < b < paths.len() && (#[trigger] paths[a]).parent == (#[trigger] paths[b]).parent
                ==> paths[a].segment != paths[b].segment,
        0 <= i < paths.len(),
        0 <= j < paths.len(),
        path_to(paths, i) == path_to(paths, j),
    ensures
        i == j,
    decreases i,
{
    assert(path_to(paths, 0) == Seq::<PathSegment>::empty());
    if i > 0 {
        assert(path_to(paths, i).last() == paths[i].segment);
    }
    if j > 0 {
        assert(path_to(paths, j).last() == paths[j].segment);
    }
    if i > 0 && j > 0 {
        let pi = paths[i].parent as int;
        let pj = paths[j].parent as int;
        assert(path_to(paths, i).drop_last() =~= path_to(paths, pi));
        assert(path_to(paths, j).drop_last() =~= path_to(paths, pj));
        lemma_paths_apart(paths, pi, pj);
        if i < j {
            assert(paths[i].segment != paths[j].segment);
        }
        if j < i {
            assert(paths[j].segment != paths[i].segment);
        }
    }
}

/// A parent starts no later than its children, and once it has an end
/// they end no later.
#[verifier::opaque]
pub open spec fn ranges_nested(paths: Seq<PathEntry>) -> bool {
    forall|i: int|
        0 <= i < paths.len() && (#[trigger] paths[i]).parent < i ==> paths[paths[i].parent as int].start
            <= paths[i].start && (paths[paths[i].parent as int].end > 0 ==> paths[i].end
            <= paths[paths[i].parent as int].end)
}

pub proof fn lemma_nested_push(paths: Seq<PathEntry>, e: PathEntry)
    requires
        ranges_nested(paths),
        parents_ok(paths),
        e.parent < paths.len() ==> paths[e.parent as int].start <= e.start && (paths[e.parent as int].end == 0
            || e.end <= paths[e.parent as int].end),
    ensures
        ranges_nested(paths.push(e)),
{
    reveal(ranges_nested);
    let after = paths.push(e);
    assert forall|i: int| 0 <= i < after.len() && (#[trigger] after[i]).parent < i implies after[after[i].parent as int].start
        <= after[i].start && (after[after[i].parent as int].end > 0 ==> after[i].end
        <= after[after[i].parent as int].end) by {
        if i < paths.len() {
            assert(after[i] == paths[i]);
        }
    }
}

/// Completing an entry inside an open one keeps ranges nested.
pub proof fn lemma_nested_closed(paths: Seq<PathEntry>, k: int, end: u32)
    requires
        ranges_nested(paths),
        0 <= k < paths.len(),
        forall|i: int| k < i < paths.len() && (#[trigger] paths[i]).parent == k ==> paths[i].end <= end,
        paths[k].parent < k ==> paths[paths[k].parent as int].end == 0,
    ensures
        ranges_nested(paths.update(k, PathEntry { end, ..paths[k] })),
{
    reveal(ranges_nested);
    let after = paths.update(k, PathEntry { end, ..paths[k] });
    assert forall|i: int| 0 <= i < after.len() && (#[trigger] after[i]).parent < i implies after[after[i].parent as int].start
        <= after[i].start && (after[after[i].parent as int].end > 0 ==> after[i].end
        <= after[after[i].parent as int].end) by {
        assert(after[i].parent == paths[i].parent);
        assert(paths[paths[i].parent as int].start <= paths[i].start);
    }
}

/// Number of entries before `n`, other than `i`, that descend from `i`.
pub open spec fn descendants(paths: Seq<PathEntry>, i: int, n: int) -> nat
    decreases n,
{
    if n <= 0 {
        0
    } else {
        descendants(paths, i, n - 1) + if n - 1 != i && is_ancestor(paths, i, n - 1) {
            1nat
        } else {
            0nat
        }
    }
}

pub proof fn lemma_ancestor_below(paths: Seq<PathEntry>, a: int, i: int)
    requires
        is_ancestor(paths, a, i),
        0 <= i,
    ensures
        a <= i,
    decreases i + 1,
{
    if a != i {
        lemma_ancestor_below(paths, a, paths[i].parent as int);
    }
}

/// Descent depends on the parents alone.
pub proof fn lemma_descendants_same(e1: Seq<PathEntry>, e2: Seq<PathEntry>, i: int, n: int)
    requires
        n <= e1.len(),
        n <= e2.len(),
        forall|k: int| 0 <= k < n ==> (#[trigger] e1[k]).parent == (#[trigger] e2[k]).parent,
    ensures
        descendants(e1, i, n) == descendants(e2, i, n),
    decreases n,
{
    if n > 0 {
        lemma_descendants_same(e1, e2, i, n - 1);
        if is_ancestor(e1, i, n - 1) {
            lemma_ancestor_same(e1, e2, i, n - 1);
        }
        if is_ancestor(e2, i, n - 1) {
            lemma_ancestor_same(e2, e1, i, n - 1);
        }
    }
}

proof fn lemma_descendants_range(paths: Seq<PathEntry>, i: int, n: int)
    requires
        0 <= i,
        n <= paths.len(),
        forall|j: int| i < j < paths.len() ==> #[trigger] is_ancestor(paths, i, j),
    ensures
        descendants(paths, i, n) == if n > i {
            n - 1 - i
        } else {
            0
        },
    decreases n,
{
    if n > 0 {
        lemma_descendants_range(paths, i, n - 1);
        if n - 1 < i && is_ancestor(paths, i, n - 1) {
            lemma_ancestor_below(paths, i, n - 1);
        }
    }
}

/// Where everything after `i` descends from it, all of that counts.
pub proof fn lemma_descendants_all(paths: Seq<PathEntry>, i: int)
    requires
        0 <= i < paths.len(),
        forall|j: int| i < j < paths.len() ==> #[trigger] is_ancestor(paths, i, j),
    ensures
        descendants(paths, i, paths.len() as int) == paths.len() - 1 - i,
{
    lemma_descendants_range(paths, i, paths.len() as int);
}

} // verus!
