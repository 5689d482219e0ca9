//! Laws of the XML grammar: whatever the input, the indexes it yields
//! are well formed, and sibling indices count same-named siblings.

use vstd::prelude::*;

use crate::ascii::{BANG, GT, LT, QUESTION, SLASH};
use crate::bytes::{index_from, lemma_index_from, lemma_skip_ws_bounds, occurs_at, past_byte, skip_ws_from};
use crate::format::cursor::byte_at;
use crate::format::nesting::{
    bounded, entries_named, frames_open, grew, laminar, lemma_ancestor_same, lemma_closed, lemma_frames_grow,
    lemma_frames_pop, lemma_frames_same, lemma_grew_trans, lemma_nested_closed, lemma_nested_push, lemma_opened,
    lemma_spanned, lemma_styled, lemma_with_name, ranges_nested, segment_named, sound,
};
use crate::format::xml::{
    attr_value_end, cdata_close, cdata_open, close_frames, closed_by, comment_close, comment_open, doctype_end,
    element_name, is_name_start, lemma_attr_value_end, lemma_attribute_moves, lemma_closed_by, lemma_doctype_end,
    lemma_name_end, lemma_sibling_count_bound, lemma_sibling_count_same, matching_frame, name_end, pi_close,
    sibling_count, unique_siblings_fixed, without_lone_index, xml_attribute, xml_attributes, xml_close_tag,
    xml_content, xml_document, xml_markup, xml_open_tag, xml_span, XmlState,
};
use crate::format::{
    intern_id, interned, is_ancestor, parents_ok, path_to, starts_sorted, PathEntry, PathSegment, ScanState, StyleKind,
    ROOT_PARENT,
};

verus! {

/// Each element carries its 1-based position among the same-named
/// elements before it under its parent.
pub open spec fn numbered(paths: Seq<PathEntry>) -> bool {
    forall|i: int|
        0 <= i < paths.len() ==> (#[trigger] paths[i].segment matches PathSegment::Element { name, sibling_index }
            ==> sibling_index == sibling_count(paths.take(i), paths[i].parent, name) + 1)
}

/// Index state while scanning.
spec fn scanning(s: Seq<u8>, st: ScanState) -> bool {
    &&& s.len() < u32::MAX
    &&& 0 <= st.pos <= s.len()
    &&& sound(st)
    &&& bounded(st, st.pos)
    &&& st.names.len() <= st.pos
    &&& st.paths.len() <= st.pos + 1
    &&& numbered(st.paths)
    &&& all_tagged(s, st.paths, st.names)
    &&& owned(st.paths)
    &&& ranges_nested(st.paths)
}

/// An element starts at the `<` of a tag with its name and, once it has
/// an end, ends behind a `>` or with the input. An attribute starts with
/// its name.
pub open spec fn tagged(s: Seq<u8>, names: Seq<Seq<u8>>, e: PathEntry) -> bool {
    let start = e.start as int;
    match e.segment {
        PathSegment::Element { name, .. } => {
            &&& byte_at(s, start) == Some(LT)
            &&& start + 1 < name_end(s, start + 1)
            &&& is_name_start(s[start + 1])
            &&& name < names.len() && names[name as int] == s.subrange(start + 1, name_end(s, start + 1))
            &&& e.end > 0 ==> byte_at(s, e.end - 1) == Some(GT) || e.end == s.len()
        },
        PathSegment::Attribute(id) => {
            &&& start < name_end(s, start) <= e.end
            &&& is_name_start(s[start])
            &&& id < names.len() && names[id as int] == s.subrange(start, name_end(s, start))
        },
        PathSegment::Root => true,
        _ => false,
    }
}

#[verifier::opaque]
spec fn all_tagged(s: Seq<u8>, paths: Seq<PathEntry>, names: Seq<Seq<u8>>) -> bool {
    forall|i: int| 0 <= i < paths.len() ==> tagged(s, names, #[trigger] paths[i])
}

/// Every entry but the first has a parent, and nothing is nested in an
/// attribute.
#[verifier::opaque]
spec fn owned(paths: Seq<PathEntry>) -> bool {
    forall|i: int|
        0 < i < paths.len() ==> !((#[trigger] paths[i]).segment is Root) && paths[i].parent < i && !(
        paths[paths[i].parent as int].segment is Attribute)
}

proof fn lemma_tagged_named(s: Seq<u8>, paths: Seq<PathEntry>, names: Seq<Seq<u8>>, name: Seq<u8>)
    requires
        all_tagged(s, paths, names),
    ensures
        all_tagged(s, paths, interned(names, name)),
        interned(names, name)[intern_id(names, name)] == name,
{
    reveal(all_tagged);
    let after = interned(names, name);
    if names.contains(name) {
        assert(names[names.index_of(name)] == name);
    }
    assert forall|i: int| 0 <= i < paths.len() implies tagged(s, after, #[trigger] paths[i]) by {
        assert(tagged(s, names, paths[i]));
    }
}

proof fn lemma_tagged_pushed(s: Seq<u8>, paths: Seq<PathEntry>, names: Seq<Seq<u8>>, e: PathEntry)
    requires
        all_tagged(s, paths, names),
        tagged(s, names, e),
        owned(paths),
        e.parent < paths.len(),
        !(e.segment is Root),
        !(paths[e.parent as int].segment is Attribute),
    ensures
        all_tagged(s, paths.push(e), names),
        owned(paths.push(e)),
{
    reveal(all_tagged);
    reveal(owned);
    let after = paths.push(e);
    assert forall|i: int| 0 <= i < after.len() implies tagged(s, names, #[trigger] after[i]) by {
        if i < paths.len() {
            assert(after[i] == paths[i]);
        }
    }
    assert forall|i: int| 0 < i < after.len() implies !((#[trigger] after[i]).segment is Root) && after[i].parent < i
        && !(after[after[i].parent as int].segment is Attribute) by {
        if i < paths.len() {
            assert(after[i] == paths[i]);
        }
    }
}

proof fn lemma_tagged_closed(s: Seq<u8>, paths: Seq<PathEntry>, names: Seq<Seq<u8>>, k: int, end: u32)
    requires
        all_tagged(s, paths, names),
        owned(paths),
        0 <= k < paths.len(),
        !(paths[k].segment is Attribute),
        end == 0 || byte_at(s, end - 1) == Some(GT) || end == s.len(),
    ensures
        all_tagged(s, paths.update(k, PathEntry { end, ..paths[k] }), names),
        owned(paths.update(k, PathEntry { end, ..paths[k] })),
{
    reveal(all_tagged);
    reveal(owned);
    let after = paths.update(k, PathEntry { end, ..paths[k] });
    assert forall|i: int| 0 <= i < after.len() implies tagged(s, names, #[trigger] after[i]) by {
        assert(tagged(s, names, paths[i]));
    }
    assert forall|i: int| 0 < i < after.len() implies !((#[trigger] after[i]).segment is Root) && after[i].parent < i
        && !(after[after[i].parent as int].segment is Attribute) by {
        assert(after[i].parent == paths[i].parent);
        assert(after[after[i].parent as int].segment == paths[paths[i].parent as int].segment);
    }
}

/// Frames are elements without an end, each the parent of the next.
spec fn frames_tags(paths: Seq<PathEntry>, stack: Seq<u32>) -> bool {
    &&& forall|k: int|
        0 <= k < stack.len() ==> !(paths[#[trigger] stack[k] as int].segment is Attribute) && paths[stack[k] as int].end
            == 0
    &&& forall|k: int| 1 <= k < stack.len() ==> paths[#[trigger] stack[k] as int].parent == stack[k - 1]
}

spec fn ready(s: Seq<u8>, x: XmlState) -> bool {
    scanning(s, x.st) && frames_open(x.st.paths, x.stack) && is_root(x.st.paths) && frames_tags(x.st.paths, x.stack)
}

spec fn is_root(paths: Seq<PathEntry>) -> bool {
    paths.len() > 0 && paths[0].start == 0 && paths[0].parent == ROOT_PARENT && paths[0].segment is Root
}

proof fn lemma_numbered_push(paths: Seq<PathEntry>, e: PathEntry)
    requires
        numbered(paths),
        e.segment matches PathSegment::Element { name, sibling_index } ==> sibling_index == sibling_count(
            paths,
            e.parent,
            name,
        ) + 1,
    ensures
        numbered(paths.push(e)),
{
    let after = paths.push(e);
    assert forall|i: int| 0 <= i < after.len() implies (#[trigger] after[i].segment matches PathSegment::Element {
        name,
        sibling_index,
    } ==> sibling_index == sibling_count(after.take(i), after[i].parent, name) + 1) by {
        if i < paths.len() {
            assert(after.take(i) =~= paths.take(i));
            assert(after[i] == paths[i]);
            assert(paths[i].segment == paths[i].segment);
        } else {
            assert(after.take(i) =~= paths);
        }
    }
}

proof fn lemma_numbered_closed(paths: Seq<PathEntry>, k: int, end: u32)
    requires
        numbered(paths),
        0 <= k < paths.len(),
    ensures
        numbered(paths.update(k, PathEntry { end, ..paths[k] })),
{
    let after = paths.update(k, PathEntry { end, ..paths[k] });
    assert forall|i: int| 0 <= i < after.len() implies (#[trigger] after[i].segment matches PathSegment::Element {
        name,
        sibling_index,
    } ==> sibling_index == sibling_count(after.take(i), after[i].parent, name) + 1) by {
        assert(paths[i].segment == after[i].segment);
        if let PathSegment::Element { name, .. } = after[i].segment {
            lemma_sibling_count_same(paths.take(i), after.take(i), after[i].parent, name);
        }
    }
}

proof fn lemma_attribute(s: Seq<u8>, st: ScanState, parent: u32)
    requires
        scanning(s, st),
        st.pos < s.len(),
        is_name_start(s[st.pos]),
        parent < st.paths.len(),
        !(st.paths[parent as int].segment is Attribute),
        st.paths[parent as int].end == 0,
    ensures
        scanning(s, xml_attribute(s, st, parent)),
        grew(st, xml_attribute(s, st, parent), parent as int),
        st.pos < xml_attribute(s, st, parent).pos,
{
    let a = st.pos;
    lemma_attribute_moves(s, st, parent);
    lemma_name_end(s, a);
    let n = name_end(s, a);
    let name = s.subrange(a, n);
    let segment = PathSegment::Attribute(intern_id(st.names, name) as u32);
    let named0 = st.with_name(name);
    lemma_with_name(st, name);
    let named = named0.styled(a, n, StyleKind::AttrName);
    lemma_styled(named0, a, n, StyleKind::AttrName);
    lemma_skip_ws_bounds(s, n);
    let w = skip_ws_from(s, n);
    let after = xml_attribute(s, st, parent);
    lemma_tagged_named(s, st.paths, st.names, name);
    if byte_at(s, w) != Some(crate::ascii::EQUALS) {
        lemma_spanned(named0, a, n, parent, segment);
        let spanned = named0.spanned(a, n, parent, segment);
        lemma_ordered_styles(named, named0.spanned(a, n, parent, segment), after);
        lemma_numbered_push(st.paths, spanned.paths.last());
        lemma_tagged_pushed(s, st.paths, named0.names, spanned.paths.last());
        lemma_nested_push(st.paths, spanned.paths.last());
        assert(after.paths =~= st.paths.push(spanned.paths.last()));
    } else {
        lemma_skip_ws_bounds(s, w + 1);
        let v = skip_ws_from(s, w + 1);
        lemma_attr_value_end(s, v);
        let e = attr_value_end(s, v);
        let valued = named.styled(v, e, StyleKind::AttrValue);
        lemma_styled(named, v, e, StyleKind::AttrValue);
        lemma_spanned(named0, a, e, parent, segment);
        let spanned = named0.spanned(a, e, parent, segment);
        lemma_ordered_styles(valued, spanned, after);
        lemma_numbered_push(st.paths, spanned.paths.last());
        lemma_tagged_pushed(s, st.paths, named0.names, spanned.paths.last());
        lemma_nested_push(st.paths, spanned.paths.last());
        assert(after.paths =~= st.paths.push(spanned.paths.last()));
    }
    assert forall|i: int| 0 <= i < st.paths.len() implies #[trigger] after.paths[i] == st.paths[i] by {}
}

/// A state with the styles of one well-formed state and the entries and
/// names of another is well formed.
proof fn lemma_ordered_styles(styles_of: ScanState, paths_of: ScanState, both: ScanState)
    requires
        sound(styles_of),
        sound(paths_of),
        both.styles == styles_of.styles,
        both.paths == paths_of.paths,
        both.names == paths_of.names,
    ensures
        sound(both),
{
}

proof fn lemma_attributes(s: Seq<u8>, st: ScanState, elem: u32)
    requires
        scanning(s, st),
        elem < st.paths.len(),
        !(st.paths[elem as int].segment is Attribute),
        st.paths[elem as int].end == 0,
    ensures
        xml_attributes(s, st, elem).0.err is None ==> byte_at(s, xml_attributes(s, st, elem).0.st.pos - 1) == Some(GT),
        scanning(s, xml_attributes(s, st, elem).0.st),
        grew(st, xml_attributes(s, st, elem).0.st, elem as int),
    decreases s.len() - st.pos,
{
    lemma_skip_ws_bounds(s, st.pos);
    let w = skip_ws_from(s, st.pos);
    if w < s.len() {
        if s[w] == GT || (s[w] == SLASH && byte_at(s, w + 1) == Some(GT)) {
        } else if is_name_start(s[w]) {
            lemma_attribute(s, st.at(w), elem);
            let next = xml_attribute(s, st.at(w), elem);
            lemma_attributes(s, next, elem);
            lemma_grew_trans(st, next, xml_attributes(s, next, elem).0.st, elem as int);
        } else {
            lemma_attributes(s, st.at(w + 1), elem);
        }
    }
}

proof fn lemma_span(s: Seq<u8>, x: XmlState, end: int, kind: StyleKind)
    requires
        ready(s, x),
        x.st.pos < end <= s.len(),
    ensures
        ready(s, xml_span(x, end, kind)),
{
    lemma_styled(x.st, x.st.pos, end, kind);
}

proof fn lemma_open_tag(s: Seq<u8>, x: XmlState)
    requires
        ready(s, x),
        x.st.pos + 1 < s.len(),
        s[x.st.pos] == LT,
        is_name_start(s[x.st.pos + 1]),
    ensures
        ready(s, xml_open_tag(s, x).x),
        x.st.pos < xml_open_tag(s, x).x.st.pos,
{
    let m = x.st.pos;
    lemma_name_end(s, m + 1);
    let n = name_end(s, m + 1);
    let name = s.subrange(m + 1, n);
    let id = intern_id(x.st.names, name) as u32;
    let parent = x.stack.last();
    assert(x.stack[x.stack.len() - 1] < x.st.paths.len());
    let elem = x.st.paths.len() as int;
    lemma_sibling_count_bound(x.st.paths, parent, id);
    let segment = PathSegment::Element {
        name: id,
        sibling_index: (sibling_count(x.st.paths, parent, id) + 1) as u32,
    };
    let named = x.st.with_name(name);
    lemma_with_name(x.st, name);
    let entered = named.opened(m, parent, segment);
    lemma_opened(named, m, parent, segment);
    let styled = entered.styled(m + 1, n, StyleKind::Tag);
    lemma_styled(entered, m + 1, n, StyleKind::Tag);
    let opened = named.styled(m + 1, n, StyleKind::Tag).opened(m, parent, segment).at(n);
    assert(opened =~= styled.at(n));
    lemma_numbered_push(x.st.paths, opened.paths.last());
    lemma_tagged_named(s, x.st.paths, x.st.names, name);
    assert(!(x.st.paths[x.stack[x.stack.len() - 1] as int].segment is Attribute));
    lemma_tagged_pushed(s, x.st.paths, named.names, opened.paths.last());
    lemma_nested_push(x.st.paths, opened.paths.last());
    assert(opened.paths =~= x.st.paths.push(opened.paths.last()));
    assert(scanning(s, opened));
    lemma_attributes(s, opened, elem as u32);
    let after = xml_attributes(s, opened, elem as u32).0.st;
    assert forall|i: int| 0 <= i < elem implies #[trigger] after.paths[i] == x.st.paths[i] by {
        assert(after.paths[i] == opened.paths[i]);
    }
    assert forall|k: int| 0 <= k <= elem implies (#[trigger] opened.paths[k]).parent == (#[trigger] after.paths[k]).parent by {
        assert(after.paths[k] == opened.paths[k]);
    }
    lemma_ancestor_same(opened.paths, after.paths, parent as int, elem);
    lemma_frames_grow(x.st.paths, x.stack, after.paths, elem);
    assert(after.paths[0] == x.st.paths[0]);
    assert(after.paths[elem] == opened.paths[elem]);
    assert(frames_tags(after.paths, x.stack.push(elem as u32)));
    let res = xml_attributes(s, opened, elem as u32);
    if res.0.err is None && res.1 {
        lemma_closed(after, elem, after.pos, after.pos);
        lemma_numbered_closed(after.paths, elem, after.pos as u32);
        lemma_tagged_closed(s, after.paths, after.names, elem, after.pos as u32);
        let closed = after.closed_at(elem, after.pos);
        lemma_nested_closed(after.paths, elem, after.pos as u32);
        lemma_frames_same(after.paths, closed.paths, x.stack);
    }
}

proof fn lemma_close_frames(s: Seq<u8>, x: XmlState, depth: int)
    requires
        ready(s, x),
        1 <= depth,
        byte_at(s, x.st.pos - 1) == Some(GT) || x.st.pos == s.len(),
    ensures
        ready(s, close_frames(x, depth, x.st.pos)),
        close_frames(x, depth, x.st.pos).st.pos == x.st.pos,
    decreases x.stack.len(),
{
    if x.stack.len() > depth {
        let top = x.stack.last() as int;
        assert(x.stack[x.stack.len() - 1] < x.st.paths.len());
        assert forall|j: int| top < j < x.st.paths.len() implies #[trigger] is_ancestor(x.st.paths, top, j) by {
            assert(is_ancestor(x.st.paths, x.stack[x.stack.len() - 1] as int, j));
        }
        lemma_closed(x.st, top, x.st.pos, x.st.pos);
        lemma_numbered_closed(x.st.paths, top, x.st.pos as u32);
        assert(!(x.st.paths[x.stack[x.stack.len() - 1] as int].segment is Attribute));
        lemma_tagged_closed(s, x.st.paths, x.st.names, top, x.st.pos as u32);
        let next = XmlState { st: x.st.closed_at(top, x.st.pos), stack: x.stack.drop_last() };
        lemma_frames_pop(x.st.paths, next.st.paths, x.stack);
        let n = x.stack.len() as int;
        assert(x.st.paths[x.stack[n - 1] as int].parent == x.stack[n - 2]);
        assert(x.st.paths[x.stack[n - 2] as int].end == 0);
        lemma_nested_closed(x.st.paths, top, x.st.pos as u32);
        assert forall|k: int| 0 <= k < next.stack.len() implies !(next.st.paths[#[trigger] next.stack[k] as int].segment is Attribute)
            && next.st.paths[next.stack[k] as int].end == 0 by {
            assert(x.stack[k] < x.stack[n - 1]);
            assert(next.stack[k] == x.stack[k]);
        }
        assert forall|k: int| 1 <= k < next.stack.len() implies next.st.paths[#[trigger] next.stack[k] as int].parent
            == next.stack[k - 1] by {
            assert(x.st.paths[x.stack[k] as int].parent == x.stack[k - 1]);
        }
        lemma_close_frames(s, next, depth);
    }
}

proof fn lemma_matching_frame(paths: Seq<PathEntry>, stack: Seq<u32>, name: u32)
    requires
        stack.len() > 0 ==> stack[0] == 0,
    ensures
        matching_frame(paths, stack, name) matches Some(depth) ==> 1 <= depth < stack.len(),
    decreases stack.len(),
{
    if stack.len() > 0 && stack.last() != 0 {
        lemma_matching_frame(paths, stack.drop_last(), name);
    }
}

proof fn lemma_close_tag(s: Seq<u8>, x: XmlState)
    requires
        ready(s, x),
        x.st.pos + 1 < s.len(),
    ensures
        ready(s, xml_close_tag(s, x)),
        x.st.pos < xml_close_tag(s, x).st.pos,
{
    let m = x.st.pos;
    lemma_name_end(s, m + 2);
    let n = name_end(s, m + 2);
    let name = s.subrange(m + 2, n);
    let id = intern_id(x.st.names, name) as u32;
    lemma_index_from(s, n, GT);
    let end = past_byte(s, n, GT);
    lemma_with_name(x.st, name);
    lemma_styled(x.st.with_name(name), m + 2, n, StyleKind::Tag);
    lemma_tagged_named(s, x.st.paths, x.st.names, name);
    let after = XmlState { st: x.st.with_name(name).styled(m + 2, n, StyleKind::Tag).at(end), stack: x.stack };
    assert(ready(s, after));
    lemma_matching_frame(x.st.paths, x.stack, id);
    if let Some(depth) = matching_frame(x.st.paths, x.stack, id) {
        lemma_close_frames(s, after, depth);
    }
}

/// A declaration, comment or CDATA section.
proof fn lemma_bang(s: Seq<u8>, x: XmlState)
    requires
        ready(s, x),
        x.st.pos + 1 < s.len(),
        s[x.st.pos + 1] == BANG,
    ensures
        ready(s, xml_markup(s, x).x),
        x.st.pos < xml_markup(s, x).x.st.pos,
{
    let m = x.st.pos;
    if occurs_at(s, m + 2, comment_open()) {
        lemma_closed_by(s, m + 4, comment_close());
        lemma_span(s, x, closed_by(s, m + 4, comment_close()), StyleKind::Comment);
    } else if occurs_at(s, m + 2, cdata_open()) {
        lemma_closed_by(s, m + 9, cdata_close());
        lemma_span(s, x, closed_by(s, m + 9, cdata_close()), StyleKind::CData);
    } else {
        lemma_doctype_end(s, m + 2, 0);
        lemma_span(s, x, doctype_end(s, m + 2, 0), StyleKind::Pi);
    }
}

/// A `<` that starts no markup.
proof fn lemma_stray(s: Seq<u8>, x: XmlState)
    requires
        ready(s, x),
        x.st.pos < s.len(),
    ensures
        ready(s, x.at(x.st.pos + 1)),
{
}

proof fn lemma_markup(s: Seq<u8>, x: XmlState)
    requires
        ready(s, x),
        x.st.pos < s.len(),
        s[x.st.pos] == LT,
    ensures
        ready(s, xml_markup(s, x).x),
        x.st.pos < xml_markup(s, x).x.st.pos,
{
    let m = x.st.pos;
    match byte_at(s, m + 1) {
        Some(b) => if b == QUESTION {
            lemma_closed_by(s, m + 2, pi_close());
            lemma_span(s, x, closed_by(s, m + 2, pi_close()), StyleKind::Pi);
        } else if b == BANG {
            lemma_bang(s, x);
        } else if b == SLASH {
            lemma_close_tag(s, x);
        } else if is_name_start(b) {
            lemma_open_tag(s, x);
        } else {
            lemma_stray(s, x);
        },
        None => {
            lemma_stray(s, x);
        },
    }
}

proof fn lemma_content(s: Seq<u8>, x: XmlState)
    requires
        ready(s, x),
    ensures
        ready(s, xml_content(s, x).x),
        xml_content(s, x).err is None ==> xml_content(s, x).x.st.pos == s.len(),
    decreases s.len() - x.st.pos,
{
    if x.st.pos < s.len() {
        if s[x.st.pos] == LT {
            lemma_markup(s, x);
            let step = xml_markup(s, x);
            if step.err is None {
                lemma_content(s, step.x);
            }
        } else {
            lemma_index_from(s, x.st.pos, LT);
            lemma_content(s, x.at(index_from(s, x.st.pos, LT)));
        }
    }
}

proof fn lemma_document_start(s: Seq<u8>)
    requires
        s.len() < u32::MAX,
    ensures
        ready(
            s,
            XmlState { st: ScanState::empty().opened(0, ROOT_PARENT, PathSegment::Root), stack: seq![0u32] },
        ),
{
    lemma_opened(ScanState::empty(), 0, ROOT_PARENT, PathSegment::Root);
    reveal(all_tagged);
    reveal(owned);
    reveal(ranges_nested);
}

proof fn lemma_fixed(paths: Seq<PathEntry>, names: nat)
    requires
        parents_ok(paths),
        starts_sorted(paths),
        laminar(paths),
        entries_named(paths, names),
    ensures
        parents_ok(unique_siblings_fixed(paths)),
        starts_sorted(unique_siblings_fixed(paths)),
        laminar(unique_siblings_fixed(paths)),
        entries_named(unique_siblings_fixed(paths), names),
{
    let fixed = unique_siblings_fixed(paths);
    assert forall|i: int| 0 <= i < paths.len() implies (#[trigger] fixed[i]).start == paths[i].start && fixed[i].end
        == paths[i].end && fixed[i].parent == paths[i].parent && segment_named(fixed[i].segment, names) by {
        assert(segment_named(paths[i].segment, names));
    }
    assert forall|i: int, j: int| 0 <= i < j < fixed.len() implies (#[trigger] fixed[i]).end <= (
    #[trigger] fixed[j]).start || is_ancestor(fixed, i, j) by {
        assert(paths[i].end <= paths[j].start || is_ancestor(paths, i, j));
        if paths[i].end > paths[j].start {
            lemma_ancestor_same(paths, fixed, i, j);
        }
    }
    assert forall|i: int| 0 <= i < fixed.len() implies (#[trigger] fixed[i]).parent == ROOT_PARENT || fixed[i].parent
        < i by {
        assert(paths[i].parent == fixed[i].parent);
    }
}

/// Whatever the input, broken or not: entries are sorted by start with
/// parents first, nested or disjoint, and refer to interned names; style
/// spans are sorted and disjoint; the first entry is the root, and it
/// covers a document that parses.
pub proof fn law_xml_indexes(s: Seq<u8>)
    requires
        s.len() < u32::MAX,
    ensures
        sound(xml_document(s).st),
        1 <= xml_document(s).st.paths.len() <= s.len() + 1,
        0 <= xml_document(s).st.pos <= s.len(),
        bounded(xml_document(s).st, s.len() as int),
        xml_document(s).st.paths[0].segment is Root,
        xml_document(s).st.paths[0].start == 0,
        xml_document(s).st.paths[0].parent == ROOT_PARENT,
        xml_document(s).err is None ==> xml_document(s).st.pos == s.len(),
        xml_document(s).err is None ==> xml_document(s).st.paths[0].end == s.len(),
{
    let start = XmlState {
        st: ScanState::empty().opened(0, ROOT_PARENT, PathSegment::Root),
        stack: seq![0u32],
    };
    lemma_document_start(s);
    lemma_content(s, start);
    let step = xml_content(s, start);
    let st = step.x.st;
    if step.err is None {
        assert forall|j: int| 0 < j < st.paths.len() implies #[trigger] is_ancestor(st.paths, 0, j) by {
            assert(is_ancestor(st.paths, step.x.stack[0] as int, j));
        }
        lemma_closed(st, 0, s.len() as int, s.len() as int);
    }
    let done = scanned(s);
    lemma_fixed(done.paths, done.names.len());
    let fixed = unique_siblings_fixed(done.paths);
    assert(fixed[0] == done.paths[0]);
    assert forall|i: int| 0 <= i < fixed.len() implies (#[trigger] fixed[i]).start <= s.len() && fixed[i].end
        <= s.len() by {
        assert(done.paths[i].start <= s.len());
    }
}

/// What was scanned, before sibling indices are dropped.
spec fn scanned(s: Seq<u8>) -> ScanState {
    let start = XmlState {
        st: ScanState::empty().opened(0, ROOT_PARENT, PathSegment::Root),
        stack: seq![0u32],
    };
    let step = xml_content(s, start);
    if step.err is Some {
        step.x.st
    } else {
        step.x.st.closed_at(0, s.len() as int)
    }
}

/// An element without a same-named sibling has sibling index zero; any
/// other carries its 1-based position among its same-named siblings, in
/// document order.
pub proof fn law_sibling_index(s: Seq<u8>, i: int, name: u32, sibling_index: u32)
    requires
        s.len() < u32::MAX,
        0 <= i < xml_document(s).st.paths.len(),
        xml_document(s).st.paths[i].segment == (PathSegment::Element { name, sibling_index }),
    ensures
        ({
            let paths = xml_document(s).st.paths;
            let parent = paths[i].parent;
            sibling_index == if sibling_count(paths, parent, name) == 1 {
                0
            } else {
                (sibling_count(paths.take(i), parent, name) + 1) as int
            }
        }),
{
    let start = XmlState {
        st: ScanState::empty().opened(0, ROOT_PARENT, PathSegment::Root),
        stack: seq![0u32],
    };
    lemma_document_start(s);
    lemma_content(s, start);
    let st = xml_content(s, start).x.st;
    lemma_numbered_closed(st.paths, 0, s.len() as u32);
    let closed = scanned(s).paths;
    let fixed = xml_document(s).st.paths;
    assert(fixed == unique_siblings_fixed(closed));
    let parent = fixed[i].parent;
    assert forall|k: int| 0 <= k < closed.len() implies (#[trigger] closed[k]).parent == fixed[k].parent
        && element_name(closed[k].segment) == element_name(fixed[k].segment) by {
        assert(fixed[k] == without_lone_index(closed, closed[k]));
    }
    lemma_sibling_count_same(closed, fixed, parent, name);
    lemma_sibling_count_same(closed.take(i), fixed.take(i), parent, name);
    assert(fixed[i] == without_lone_index(closed, closed[i]));
    assert(closed[i].segment is Element);
}

/// Elements under one parent never share both name and index.
spec fn siblings_apart(paths: Seq<PathEntry>) -> bool {
    forall|i: int, j: int|
        0 <= i < j < paths.len() && (#[trigger] paths[i]).segment is Element && paths[i].parent == (
        #[trigger] paths[j]).parent ==> paths[i].segment != paths[j].segment
}

proof fn lemma_sibling_count_take(paths: Seq<PathEntry>, parent: u32, name: u32, i: int, j: int)
    requires
        0 <= i <= j <= paths.len(),
    ensures
        sibling_count(paths.take(i), parent, name) <= sibling_count(paths.take(j), parent, name),
        i < j && element_name(paths[i].segment) == Some(name) && paths[i].parent == parent ==> sibling_count(
            paths.take(i),
            parent,
            name,
        ) < sibling_count(paths.take(j), parent, name),
    decreases j - i,
{
    if i < j {
        lemma_sibling_count_take(paths, parent, name, i, j - 1);
        assert(paths.take(j).drop_last() =~= paths.take(j - 1));
    }
}

proof fn lemma_numbered_apart(paths: Seq<PathEntry>)
    requires
        numbered(paths),
    ensures
        siblings_apart(paths),
        siblings_apart(unique_siblings_fixed(paths)),
{
    let fixed = unique_siblings_fixed(paths);
    assert forall|i: int, j: int|
        0 <= i < j < paths.len() && (#[trigger] paths[i]).segment is Element && paths[i].parent == (
        #[trigger] paths[j]).parent implies paths[i].segment != paths[j].segment by {
        if let PathSegment::Element { name, .. } = paths[i].segment {
            lemma_sibling_count_take(paths, paths[i].parent, name, i, j);
            assert(paths[j].segment == paths[j].segment);
        }
    }
    assert forall|i: int, j: int|
        0 <= i < j < fixed.len() && (#[trigger] fixed[i]).segment is Element && fixed[i].parent == (
        #[trigger] fixed[j]).parent implies fixed[i].segment != fixed[j].segment by {
        assert(fixed[i] == without_lone_index(paths, paths[i]));
        assert(fixed[j] == without_lone_index(paths, paths[j]));
        if let PathSegment::Element { name, .. } = paths[i].segment {
            if element_name(paths[j].segment) == Some(name) {
                lemma_sibling_count_take(paths, paths[i].parent, name, i, j);
                lemma_sibling_count_take(paths, paths[i].parent, name, j, paths.len() as int);
                assert(paths.take(paths.len() as int) =~= paths);
                assert(fixed[i] == paths[i] && fixed[j] == paths[j]);
            }
        }
    }
}

proof fn lemma_paths_apart(paths: Seq<PathEntry>, i: int, j: int)
    requires
        owned(paths),
        siblings_apart(paths),
        forall|k: int| 0 <= k < paths.len() ==> (#[trigger] paths[k]).segment is Root || paths[k].segment is Element
            || paths[k].segment is Attribute,
        paths.len() > 0,
        paths[0].segment is Root,
        paths[0].parent == ROOT_PARENT,
        paths.len() <= ROOT_PARENT,
        0 <= i < paths.len(),
        0 <= j < paths.len(),
        !(paths[i].segment is Attribute),
        !(paths[j].segment is Attribute),
        path_to(paths, i) == path_to(paths, j),
    ensures
        i == j,
    decreases i,
{
    reveal(owned);
    assert(path_to(paths, 0) == Seq::<PathSegment>::empty());
    if i > 0 {
        assert(path_to(paths, i).last() == paths[i].segment);
    }
    if j > 0 {
        assert(path_to(paths, j).last() == paths[j].segment);
    }
    if i > 0 && j > 0 {
        let pi = paths[i].parent as int;
        let pj = paths[j].parent as int;
        assert(path_to(paths, i).drop_last() =~= path_to(paths, pi));
        assert(path_to(paths, j).drop_last() =~= path_to(paths, pj));
        lemma_paths_apart(paths, pi, pj);
        if i < j {
            assert(paths[i].segment != paths[j].segment);
        }
        if j < i {
            assert(paths[j].segment != paths[i].segment);
        }
    }
}

proof fn lemma_scanned(s: Seq<u8>)
    requires
        s.len() < u32::MAX,
    ensures
        all_tagged(s, xml_document(s).st.paths, xml_document(s).st.names),
        owned(xml_document(s).st.paths),
        siblings_apart(xml_document(s).st.paths),
        ranges_nested(xml_document(s).st.paths),
{
    let start = XmlState {
        st: ScanState::empty().opened(0, ROOT_PARENT, PathSegment::Root),
        stack: seq![0u32],
    };
    lemma_document_start(s);
    lemma_content(s, start);
    let step = xml_content(s, start);
    let st = step.x.st;
    if step.err is None {
        lemma_numbered_closed(st.paths, 0, s.len() as u32);
        lemma_tagged_closed(s, st.paths, st.names, 0, s.len() as u32);
        lemma_nested_closed(st.paths, 0, s.len() as u32);
    }
    let done = scanned(s);
    lemma_nested_fixed(done.paths);
    lemma_numbered_apart(done.paths);
    let fixed = unique_siblings_fixed(done.paths);
    reveal(all_tagged);
    reveal(owned);
    assert forall|i: int| 0 <= i < fixed.len() implies tagged(s, done.names, #[trigger] fixed[i]) by {
        assert(tagged(s, done.names, done.paths[i]));
    }
    assert forall|i: int| 0 < i < fixed.len() implies !((#[trigger] fixed[i]).segment is Root) && fixed[i].parent < i
        && !(fixed[fixed[i].parent as int].segment is Attribute) by {
        assert(fixed[i] == without_lone_index(done.paths, done.paths[i]));
        let p = done.paths[i].parent as int;
        assert(fixed[p] == without_lone_index(done.paths, done.paths[p]));
    }
}

proof fn lemma_nested_fixed(paths: Seq<PathEntry>)
    requires
        ranges_nested(paths),
    ensures
        ranges_nested(unique_siblings_fixed(paths)),
{
    reveal(ranges_nested);
    let fixed = unique_siblings_fixed(paths);
    assert forall|i: int| 0 <= i < fixed.len() && (#[trigger] fixed[i]).parent < i implies fixed[fixed[i].parent as int].start
        <= fixed[i].start && (fixed[fixed[i].parent as int].end > 0 ==> fixed[i].end
        <= fixed[fixed[i].parent as int].end) by {
        assert(fixed[i] == without_lone_index(paths, paths[i]));
        let p = paths[i].parent as int;
        assert(fixed[p] == without_lone_index(paths, paths[p]));
    }
}

/// Ranges are properly nested: an element starts no later than what is in
/// it, and once it has an end everything in it ends no later. The root of
/// a document that parses has one.
pub proof fn law_xml_ranges_nested(s: Seq<u8>, i: int)
    requires
        s.len() < u32::MAX,
        1 <= i < xml_document(s).st.paths.len(),
    ensures
        ({
            let paths = xml_document(s).st.paths;
            let e = paths[i];
            let p = paths[e.parent as int];
            e.parent < i && p.start <= e.start && (p.end > 0 ==> e.end <= p.end)
        }),
{
    lemma_scanned(s);
    reveal(ranges_nested);
    reveal(owned);
    assert(xml_document(s).st.paths[i].parent < i);
}

/// An element is found under its own name: its entry starts at the `<`
/// of a tag with that name and, once it has an end, ends behind a `>` or
/// with the input. An attribute's entry starts with its name.
pub proof fn law_xml_names(s: Seq<u8>, i: int)
    requires
        s.len() < u32::MAX,
        0 <= i < xml_document(s).st.paths.len(),
    ensures
        tagged(s, xml_document(s).st.names, xml_document(s).st.paths[i]),
{
    lemma_scanned(s);
    reveal(all_tagged);
}

/// What an element belongs to is an element or the root.
pub proof fn law_xml_parents(s: Seq<u8>, i: int)
    requires
        s.len() < u32::MAX,
        1 <= i < xml_document(s).st.paths.len(),
    ensures
        ({
            let paths = xml_document(s).st.paths;
            let p = paths[i].parent as int;
            p < i && !(paths[i].segment is Root) && (p == 0 || paths[p].segment is Element)
        }),
{
    lemma_scanned(s);
    reveal(owned);
    let paths = xml_document(s).st.paths;
    assert(paths[i].parent < i);
    let p = paths[i].parent as int;
    law_xml_names(s, p);
    if p > 0 {
        assert(!(paths[p].segment is Root));
    }
}

/// A path singles out its element: two different elements never have the
/// same path.
pub proof fn law_xml_paths_distinct(s: Seq<u8>, i: int, j: int)
    requires
        s.len() < u32::MAX,
        0 <= i < xml_document(s).st.paths.len(),
        0 <= j < xml_document(s).st.paths.len(),
        xml_document(s).st.paths[i].segment is Element,
        xml_document(s).st.paths[j].segment is Element,
        path_to(xml_document(s).st.paths, i) == path_to(xml_document(s).st.paths, j),
    ensures
        i == j,
{
    law_xml_indexes(s);
    lemma_scanned(s);
    let paths = xml_document(s).st.paths;
    assert forall|k: int| 0 <= k < paths.len() implies (#[trigger] paths[k]).segment is Root || paths[k].segment
        is Element || paths[k].segment is Attribute by {
        law_xml_names(s, k);
    }
    lemma_paths_apart(paths, i, j);
}

} // verus!
