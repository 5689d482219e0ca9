//! Laws of the JSON grammar: whatever the input, the indexes it yields
//! are well formed.

use vstd::prelude::*;

use crate::ascii::{COLON, COMMA, LBRACE, LBRACKET, QUOTE, RBRACE, RBRACKET};
use crate::bytes::{lemma_skip_digits_bounds, lemma_skip_ws_bounds, skip_digits_from, skip_ws_from};
use crate::format::cursor::byte_at;
use crate::format::json::{
    decode_escapes, json_after_element, json_after_field, json_array, json_document, json_elements, json_fields,
    json_literal, json_number, json_object, json_string, json_value, lemma_json_fields_positions, lemma_string_close,
    literal_match, number_end, number_fraction_end, number_sign_end, string_close,
};
use crate::format::json_subtree::{
    all_backed, lemma_backed_at, lemma_backed_named, lemma_backed_pushed, lemma_backed_updated, lemma_value_spans,
    value_entries, value_from,
};
use crate::format::nesting::{
    bounded, child_count, descendants, grew, lemma_ancestor_same, lemma_child_count_bound, lemma_child_count_none,
    lemma_child_count_same, lemma_child_count_take, lemma_closed, lemma_descendants_all, lemma_descendants_same,
    lemma_grew_around, lemma_grew_trans, lemma_nested_closed, lemma_nested_push, lemma_opened, lemma_paths_apart,
    lemma_styled, lemma_with_name, ranges_nested, sound,
};
use crate::format::{
    intern_id, is_ancestor, parents_ok, path_to, PathEntry, PathSegment, ScanState, Step, StyleKind, ROOT_PARENT,
};

verus! {

/// State of the parser between tokens: indexes well formed and within
/// the consumed input, with room for one more entry per byte.
spec fn ready(s: Seq<u8>, st: ScanState) -> bool {
    &&& s.len() < u32::MAX
    &&& 0 <= st.pos <= s.len()
    &&& sound(st)
    &&& bounded(st, st.pos)
    &&& st.names.len() <= st.paths.len() <= st.pos + 1
    &&& all_backed(s, st.paths, st.names)
    &&& indexed(st.paths)
    &&& ranges_nested(st.paths)
    &&& settled(st.paths)
    &&& sized(s, st.paths)
}

/// What is inside a complete entry is complete.
#[verifier::opaque]
pub open spec fn settled(paths: Seq<PathEntry>) -> bool {
    forall|i: int|
        0 <= i < paths.len() && (#[trigger] paths[i]).parent < i && paths[paths[i].parent as int].end > 0
            ==> paths[i].end > 0
}

/// A complete member has as many descendants as its value has entries.
#[verifier::opaque]
pub open spec fn sized(s: Seq<u8>, paths: Seq<PathEntry>) -> bool {
    forall|i: int|
        0 <= i < paths.len() && (#[trigger] paths[i]).end > 0 && !(paths[i].segment is Root) ==> descendants(
            paths,
            i,
            paths.len() as int,
        ) == value_entries(s, value_from(s, paths[i]))
}

pub proof fn lemma_sized_at(s: Seq<u8>, paths: Seq<PathEntry>, i: int)
    requires
        sized(s, paths),
        0 <= i < paths.len(),
        paths[i].end > 0,
        !(paths[i].segment is Root),
    ensures
        descendants(paths, i, paths.len() as int) == value_entries(s, value_from(s, paths[i])),
{
    reveal(sized);
}

proof fn lemma_settled_chain(paths: Seq<PathEntry>, i: int, j: int)
    requires
        settled(paths),
        is_ancestor(paths, i, j),
        0 <= j < paths.len(),
        0 <= i < paths.len(),
        paths[i].end > 0,
    ensures
        paths[j].end > 0,
    decreases j + 1,
{
    reveal(settled);
    if i != j {
        lemma_settled_chain(paths, i, paths[j].parent as int);
    }
}

/// A new member of an open entry belongs to no complete one.
proof fn lemma_member_push(s: Seq<u8>, paths: Seq<PathEntry>, e: PathEntry)
    requires
        ranges_nested(paths),
        settled(paths),
        sized(s, paths),
        parents_ok(paths),
        e.end == 0,
        e.parent < paths.len(),
        paths[e.parent as int].end == 0,
        paths[e.parent as int].start <= e.start,
    ensures
        ranges_nested(paths.push(e)),
        settled(paths.push(e)),
        sized(s, paths.push(e)),
{
    lemma_nested_push(paths, e);
    reveal(settled);
    reveal(sized);
    let after = paths.push(e);
    let n = paths.len() as int;
    assert forall|i: int|
        0 <= i < after.len() && (#[trigger] after[i]).parent < i && after[after[i].parent as int].end > 0 implies after[i].end
        > 0 by {
        if i < n {
            assert(after[i] == paths[i]);
        }
    }
    assert forall|i: int| 0 <= i < after.len() && (#[trigger] after[i]).end > 0 && !(after[i].segment is Root) implies descendants(
        after,
        i,
        after.len() as int,
    ) == value_entries(s, value_from(s, after[i])) by {
        assert(after[i] == paths[i]);
        lemma_descendants_same(paths, after, i, n);
        if is_ancestor(after, i, n) {
            let p = e.parent as int;
            assert(after[n].parent == e.parent);
            assert(is_ancestor(after, i, p));
            lemma_ancestor_same(after, paths, i, p);
            lemma_settled_chain(paths, i, p);
        }
    }
}

/// Completing the member `k`, whose value ends at `end`, when everything
/// after it is inside it and complete.
proof fn lemma_member_closed(s: Seq<u8>, paths: Seq<PathEntry>, k: int, end: u32)
    requires
        ranges_nested(paths),
        settled(paths),
        sized(s, paths),
        0 <= k < paths.len(),
        end > 0,
        closed_from(paths, (k + 1) as nat),
        forall|i: int| 0 <= i < paths.len() ==> (#[trigger] paths[i]).end <= end,
        forall|j: int| k < j < paths.len() ==> #[trigger] is_ancestor(paths, k, j),
        paths[k].parent < k ==> paths[paths[k].parent as int].end == 0,
        paths[k].segment is Root || paths.len() - 1 - k == value_entries(s, value_from(s, paths[k])),
    ensures
        ranges_nested(paths.update(k, PathEntry { end, ..paths[k] })),
        settled(paths.update(k, PathEntry { end, ..paths[k] })),
        sized(s, paths.update(k, PathEntry { end, ..paths[k] })),
{
    lemma_nested_closed(paths, k, end);
    reveal(settled);
    reveal(sized);
    let after = paths.update(k, PathEntry { end, ..paths[k] });
    assert forall|i: int|
        0 <= i < after.len() && (#[trigger] after[i]).parent < i && after[after[i].parent as int].end > 0 implies after[i].end
        > 0 by {
        assert(after[i].parent == paths[i].parent);
    }
    assert forall|i: int| 0 <= i < after.len() && (#[trigger] after[i]).end > 0 && !(after[i].segment is Root) implies descendants(
        after,
        i,
        after.len() as int,
    ) == value_entries(s, value_from(s, after[i])) by {
        assert(after[i].segment == paths[i].segment && after[i].start == paths[i].start);
        lemma_descendants_same(paths, after, i, paths.len() as int);
        if i == k {
            lemma_descendants_all(paths, k);
        }
    }
}

/// Each element carries its position among its siblings, counting from
/// zero.
#[verifier::opaque]
pub open spec fn indexed(paths: Seq<PathEntry>) -> bool {
    forall|i: int|
        0 <= i < paths.len() ==> (#[trigger] paths[i].segment matches PathSegment::Index(k) ==> k == child_count(
            paths.take(i),
            paths[i].parent,
        ))
}

/// The entries from `n` on are members, with `this` or one of themselves
/// as parent.
spec fn kin(paths: Seq<PathEntry>, n: nat, this: u32) -> bool {
    forall|j: int|
        n <= j < paths.len() ==> !((#[trigger] paths[j]).segment is Root) && (paths[j].parent == this
            || paths[j].parent >= n)
}

proof fn lemma_indexed_push(paths: Seq<PathEntry>, e: PathEntry)
    requires
        indexed(paths),
        e.segment matches PathSegment::Index(k) ==> k == child_count(paths, e.parent),
    ensures
        indexed(paths.push(e)),
{
    reveal(indexed);
    let after = paths.push(e);
    assert forall|i: int| 0 <= i < after.len() implies (#[trigger] after[i].segment matches PathSegment::Index(k)
        ==> k == child_count(after.take(i), after[i].parent)) by {
        if i < paths.len() {
            assert(after.take(i) =~= paths.take(i));
            assert(after[i] == paths[i]);
            assert(paths[i].segment == paths[i].segment);
        } else {
            assert(after.take(i) =~= paths);
        }
    }
}

proof fn lemma_indexed_closed(paths: Seq<PathEntry>, n: int, end: u32)
    requires
        indexed(paths),
        0 <= n < paths.len(),
    ensures
        indexed(paths.update(n, PathEntry { end, ..paths[n] })),
        forall|parent: u32|
            child_count(paths.update(n, PathEntry { end, ..paths[n] }), parent) == #[trigger] child_count(paths, parent),
{
    reveal(indexed);
    let after = paths.update(n, PathEntry { end, ..paths[n] });
    assert forall|i: int| 0 <= i < after.len() implies (#[trigger] after[i].segment matches PathSegment::Index(k)
        ==> k == child_count(after.take(i), after[i].parent)) by {
        assert(paths[i].segment == after[i].segment);
        lemma_child_count_same(paths.take(i), after.take(i), after[i].parent);
    }
    assert forall|parent: u32| child_count(after, parent) == #[trigger] child_count(paths, parent) by {
        lemma_child_count_same(paths, after, parent);
    }
}

/// The entries from `n` on are complete.
pub open spec fn closed_from(paths: Seq<PathEntry>, n: nat) -> bool {
    forall|i: int| n <= i < paths.len() ==> (#[trigger] paths[i]).end > 0
}

/// What every production guarantees when it starts from `before`.
spec fn produced(s: Seq<u8>, before: ScanState, this: u32, step: Step) -> bool {
    &&& ready(s, step.st)
    &&& grew(before, step.st, this as int)
    &&& kin(step.st.paths, before.paths.len(), this)
    &&& step.err is None ==> before.pos < step.st.pos && step.st.paths.len() <= step.st.pos && closed_from(
        step.st.paths,
        before.paths.len(),
    )
}

proof fn lemma_literal(s: Seq<u8>, st: ScanState, word: Seq<u8>, kind: StyleKind, this: u32)
    requires
        ready(s, st),
        0 < word.len(),
    ensures
        produced(s, st, this, json_literal(s, st, word, kind)),
{
    lemma_literal_match(s, st.pos, word, 0);
    let end = st.pos + literal_match(s, st.pos, word, 0);
    if end > st.pos {
        lemma_styled(st, st.pos, end, kind);
    }
}

proof fn lemma_literal_match(s: Seq<u8>, i: int, word: Seq<u8>, k: int)
    requires
        0 <= i,
        0 <= k <= word.len(),
        i + k <= s.len(),
    ensures
        k <= literal_match(s, i, word, k) <= word.len(),
        i + literal_match(s, i, word, k) <= s.len(),
    decreases word.len() - k,
{
    if k < word.len() && byte_at(s, i + k) == Some(word[k]) {
        lemma_literal_match(s, i, word, k + 1);
    }
}

proof fn lemma_number(s: Seq<u8>, st: ScanState, this: u32)
    requires
        ready(s, st),
    ensures
        produced(s, st, this, json_number(s, st)),
{
    let first = number_sign_end(s, st.pos);
    lemma_skip_digits_bounds(s, first);
    let whole = skip_digits_from(s, first);
    if byte_at(s, whole) is Some {
        lemma_skip_digits_bounds(s, whole + 1);
    }
    let frac = number_fraction_end(s, whole);
    if byte_at(s, frac) is Some {
        lemma_skip_digits_bounds(s, frac + 1);
    }
    if byte_at(s, frac + 1) is Some {
        lemma_skip_digits_bounds(s, frac + 2);
    }
    if let Some(end) = number_end(s, st.pos) {
        lemma_styled(st, st.pos, end, StyleKind::Number);
    }
}

proof fn lemma_string(s: Seq<u8>, st: ScanState, this: u32)
    requires
        ready(s, st),
        st.pos < s.len(),
    ensures
        produced(s, st, this, json_string(s, st)),
{
    lemma_string_close(s, st.pos + 1);
    if let Some(q) = string_close(s, st.pos + 1) {
        lemma_styled(st, st.pos, q + 1, StyleKind::String);
    }
}

/// Completing entry `i` after everything in it, and then what follows
/// it, leaves nothing incomplete from `i` on.
proof fn lemma_closed_around(inner: Seq<PathEntry>, i: int, closed: Seq<PathEntry>, last: Seq<PathEntry>)
    requires
        0 <= i < inner.len(),
        closed_from(inner, (i + 1) as nat),
        closed.len() == inner.len(),
        closed[i].end > 0,
        forall|k: int| i < k < inner.len() ==> #[trigger] closed[k] == inner[k],
        forall|k: int| 0 <= k < closed.len() ==> #[trigger] last[k] == closed[k],
    ensures
        closed_from(last, closed.len()) ==> closed_from(last, i as nat),
{
    if closed_from(last, closed.len()) {
        assert forall|k: int| i <= k < last.len() implies (#[trigger] last[k]).end > 0 by {
            if k < closed.len() {
                assert(last[k] == closed[k]);
                if k > i {
                    assert(closed[k] == inner[k]);
                }
            }
        }
    }
}

proof fn lemma_value(s: Seq<u8>, st: ScanState, this: u32)
    requires
        ready(s, st),
        this < st.paths.len(),
        st.paths[this as int].end == 0,
        child_count(st.paths, this) == 0,
    ensures
        produced(s, st, this, json_value(s, st, this)),
    decreases s.len() - st.pos, 1int,
{
    lemma_skip_ws_bounds(s, st.pos);
    let p = skip_ws_from(s, st.pos);
    let st1 = st.at(p);
    assert(ready(s, st1));
    if p < s.len() {
        if s[p] == LBRACE {
            lemma_object(s, st1, this);
        } else if s[p] == LBRACKET {
            lemma_array(s, st1, this);
        } else if s[p] == QUOTE {
            lemma_string(s, st1, this);
        } else {
            lemma_literal(s, st1, crate::format::json::word_true(), StyleKind::Bool, this);
            lemma_literal(s, st1, crate::format::json::word_false(), StyleKind::Bool, this);
            lemma_literal(s, st1, crate::format::json::word_null(), StyleKind::Null, this);
            lemma_number(s, st1, this);
        }
    }
}

proof fn lemma_object(s: Seq<u8>, st: ScanState, this: u32)
    requires
        ready(s, st),
        this < st.paths.len(),
        st.paths[this as int].end == 0,
        st.pos < s.len(),
    ensures
        produced(s, st, this, json_object(s, st, this)),
    decreases s.len() - st.pos, 0int,
{
    lemma_skip_ws_bounds(s, st.pos + 1);
    let p = skip_ws_from(s, st.pos + 1);
    if byte_at(s, p) != Some(RBRACE) {
        lemma_fields(s, st.at(p), this);
    }
}

proof fn lemma_fields(s: Seq<u8>, st: ScanState, this: u32)
    requires
        ready(s, st),
        this < st.paths.len(),
        st.paths[this as int].end == 0,
        st.paths.len() <= st.pos,
    ensures
        produced(s, st, this, json_fields(s, st, this)),
    decreases s.len() - st.pos, 2int,
{
    lemma_json_fields_positions(s, st.pos);
    let p = skip_ws_from(s, st.pos);
    if byte_at(s, p) == Some(QUOTE) {
        if let Some(q) = string_close(s, p + 1) {
            lemma_skip_ws_bounds(s, q + 1);
            let styled = st.styled(p, q + 1, StyleKind::Key);
            let keyed = styled.at(q + 1);
            lemma_styled(st, p, q + 1, StyleKind::Key);
            if let Ok(name) = decode_escapes(s.subrange(p + 1, q), 0) {
                let index = st.paths.len() as int;
                let c = skip_ws_from(s, q + 1);
                let seg = PathSegment::Key(intern_id(st.names, name) as u32);
                let named = keyed.with_name(name);
                let entered = named.opened(p, this, seg);
                let opened = entered.at(c);
                lemma_with_name(st, name);
                lemma_opened(st.with_name(name), p, this, seg);
                lemma_styled(st.with_name(name).opened(p, this, seg), p, q + 1, StyleKind::Key);
                assert(entered =~= st.with_name(name).opened(p, this, seg).styled(p, q + 1, StyleKind::Key).at(
                    q + 1,
                ));
                assert(sound(opened) && bounded(opened, c));
                assert(is_ancestor(opened.paths, this as int, index));
                lemma_backed_named(s, st.paths, st.names, name);
                lemma_backed_pushed(s, st.paths, named.names, entered.paths[index]);
                lemma_indexed_push(st.paths, entered.paths[index]);
                lemma_member_push(s, st.paths, entered.paths[index]);
                lemma_child_count_none(opened.paths, index as u32);
                assert(ready(s, opened));
                assert(grew(st, opened, this as int));
                if byte_at(s, c) == Some(COLON) {
                    let inside = opened.at(c + 1);
                    lemma_value(s, inside, index as u32);
                    let v = json_value(s, inside, index as u32);
                    lemma_grew_around(st, inside, v.st, this as int, v.st.pos);
                    if v.err is None {
                        lemma_closed(v.st, index, v.st.pos, v.st.pos);
                        let closed = v.st.closed_at(index, v.st.pos);
                        assert(v.st.paths[index] == inside.paths[index]);
                        lemma_backed_at(s, v.st.paths, v.st.names, index);
                        lemma_value_spans(s, inside, index as u32);
                        lemma_backed_updated(s, v.st.paths, v.st.names, index, closed.paths[index]);
                        lemma_indexed_closed(v.st.paths, index, v.st.pos as u32);
                        assert(v.st.paths[this as int] == inside.paths[this as int]);
                        lemma_member_closed(s, v.st.paths, index, v.st.pos as u32);
                        lemma_after_field(s, closed, this);
                        lemma_grew_trans(st, closed, json_after_field(s, closed, this).st, this as int);
                        lemma_closed_around(v.st.paths, index, closed.paths, json_after_field(s, closed, this).st.paths);
                    }
                }
            }
        }
    }
}

proof fn lemma_after_field(s: Seq<u8>, st: ScanState, this: u32)
    requires
        ready(s, st),
        this < st.paths.len(),
        st.paths[this as int].end == 0,
        st.paths.len() <= st.pos,
    ensures
        produced(s, st, this, json_after_field(s, st, this)),
    decreases s.len() - st.pos, 0int,
{
    lemma_skip_ws_bounds(s, st.pos);
    let p = skip_ws_from(s, st.pos);
    if p < s.len() && s[p] == COMMA {
        lemma_fields(s, st.at(p + 1), this);
    }
}

proof fn lemma_array(s: Seq<u8>, st: ScanState, this: u32)
    requires
        ready(s, st),
        this < st.paths.len(),
        st.paths[this as int].end == 0,
        st.pos < s.len(),
        child_count(st.paths, this) == 0,
    ensures
        produced(s, st, this, json_array(s, st, this)),
    decreases s.len() - st.pos, 0int,
{
    lemma_skip_ws_bounds(s, st.pos + 1);
    let p = skip_ws_from(s, st.pos + 1);
    if byte_at(s, p) != Some(RBRACKET) {
        lemma_elements(s, st.at(p), this, 0);
    }
}

proof fn lemma_elements(s: Seq<u8>, st: ScanState, this: u32, index: int)
    requires
        ready(s, st),
        this < st.paths.len(),
        st.paths[this as int].end == 0,
        st.paths.len() <= st.pos,
        child_count(st.paths, this) == index,
    ensures
        produced(s, st, this, json_elements(s, st, this, index)),
    decreases s.len() - st.pos, 2int,
{
    lemma_skip_ws_bounds(s, st.pos);
    let p = skip_ws_from(s, st.pos);
    let entry = st.paths.len() as int;
    let seg = PathSegment::Index(index as u32);
    let opened = st.at(p).opened(p, this, seg);
    lemma_opened(st.at(p), p, this, seg);
    lemma_backed_pushed(s, st.paths, st.names, opened.paths[entry]);
    lemma_child_count_bound(st.paths, this);
    lemma_indexed_push(st.paths, opened.paths[entry]);
    lemma_member_push(s, st.paths, opened.paths[entry]);
    lemma_child_count_none(opened.paths, entry as u32);
    assert(opened.paths.drop_last() =~= st.paths);
    assert(child_count(opened.paths, this) == index + 1);
    assert(ready(s, opened));
    lemma_value(s, opened, entry as u32);
    let v = json_value(s, opened, entry as u32);
    lemma_grew_around(st, opened, v.st, this as int, v.st.pos);
    if v.err is None {
        lemma_closed(v.st, entry, v.st.pos, v.st.pos);
        let closed = v.st.closed_at(entry, v.st.pos);
        assert(v.st.paths[entry] == opened.paths[entry]);
        lemma_backed_at(s, v.st.paths, v.st.names, entry);
        lemma_value_spans(s, opened, entry as u32);
        lemma_backed_updated(s, v.st.paths, v.st.names, entry, closed.paths[entry]);
        lemma_indexed_closed(v.st.paths, entry, v.st.pos as u32);
        assert(v.st.paths[this as int] == opened.paths[this as int]);
        lemma_member_closed(s, v.st.paths, entry, v.st.pos as u32);
        lemma_child_count_same(opened.paths, v.st.paths, this);
        lemma_after_element(s, closed, this, index);
        lemma_grew_trans(st, closed, json_after_element(s, closed, this, index).st, this as int);
        lemma_closed_around(v.st.paths, entry, closed.paths, json_after_element(s, closed, this, index).st.paths);
    }
}

proof fn lemma_after_element(s: Seq<u8>, st: ScanState, this: u32, index: int)
    requires
        ready(s, st),
        this < st.paths.len(),
        st.paths[this as int].end == 0,
        st.paths.len() <= st.pos,
        child_count(st.paths, this) == index + 1,
    ensures
        produced(s, st, this, json_after_element(s, st, this, index)),
    decreases s.len() - st.pos, 0int,
{
    lemma_skip_ws_bounds(s, st.pos);
    let p = skip_ws_from(s, st.pos);
    if p < s.len() && s[p] == COMMA {
        lemma_elements(s, st.at(p + 1), this, index + 1);
    }
}

/// Whatever the input, broken or not: entries are sorted by start with
/// parents first, nested or disjoint, and refer to interned names; style
/// spans are sorted and disjoint; the first entry is the root, and it
/// covers a document that parses.
pub proof fn law_json_indexes(s: Seq<u8>)
    requires
        s.len() < u32::MAX,
    ensures
        sound(json_document(s).st),
        1 <= json_document(s).st.paths.len() <= s.len() + 1,
        0 <= json_document(s).st.pos <= s.len(),
        json_document(s).err is None ==> json_document(s).st.pos == s.len(),
        bounded(json_document(s).st, s.len() as int),
        json_document(s).st.paths[0].segment is Root,
        json_document(s).st.paths[0].start == 0,
        json_document(s).st.paths[0].parent == ROOT_PARENT,
        json_document(s).err is None ==> json_document(s).st.paths[0].end == s.len(),
        all_backed(s, json_document(s).st.paths, json_document(s).st.names),
        json_document(s).err is None ==> closed_from(json_document(s).st.paths, 1),
        indexed(json_document(s).st.paths),
        ranges_nested(json_document(s).st.paths),
        sized(s, json_document(s).st.paths),
        forall|j: int| 0 < j < json_document(s).st.paths.len() ==> #[trigger] is_ancestor(json_document(s).st.paths, 0, j),
        forall|j: int|
            1 <= j < json_document(s).st.paths.len() ==> !((#[trigger] json_document(s).st.paths[j]).segment is Root)
                && json_document(s).st.paths[j].parent < j,
{
    let empty = ScanState::empty();
    lemma_opened(empty, 0, ROOT_PARENT, PathSegment::Root);
    let rooted = empty.opened(0, ROOT_PARENT, PathSegment::Root);
    assert(all_backed(s, rooted.paths, rooted.names)) by {
        reveal(all_backed);
    }
    assert(indexed(rooted.paths)) by {
        reveal(indexed);
    }
    assert(ranges_nested(rooted.paths) && settled(rooted.paths) && sized(s, rooted.paths)) by {
        reveal(ranges_nested);
        reveal(settled);
        reveal(sized);
    }
    lemma_child_count_none(rooted.paths, 0);
    lemma_value(s, rooted, 0);
    let v = json_value(s, rooted, 0);
    assert(v.st.paths[0] == rooted.paths[0]);
    assert forall|j: int| 1 <= j < v.st.paths.len() implies !((#[trigger] v.st.paths[j]).segment is Root)
        && v.st.paths[j].parent < j by {
        assert(is_ancestor(v.st.paths, 0, j));
    }
    if v.err is None {
        lemma_closed(v.st, 0, s.len() as int, s.len() as int);
        lemma_value_spans(s, rooted, 0);
        assert(empty.at(0) == empty);
        lemma_backed_updated(s, v.st.paths, v.st.names, 0, json_document(s).st.paths[0]);
        lemma_indexed_closed(v.st.paths, 0, s.len() as u32);
        lemma_member_closed(s, v.st.paths, 0, s.len() as u32);
    }
    assert forall|j: int| 0 < j < json_document(s).st.paths.len() implies #[trigger] is_ancestor(
        json_document(s).st.paths,
        0,
        j,
    ) by {
        assert(is_ancestor(v.st.paths, 0, j));
        lemma_ancestor_same(v.st.paths, json_document(s).st.paths, 0, j);
    }
}

/// Ranges are properly nested: in a document that parses, each value lies
/// in the range of the one it belongs to.
pub proof fn law_json_ranges_nested(s: Seq<u8>, i: int)
    requires
        s.len() < u32::MAX,
        json_document(s).err is None,
        1 <= i < json_document(s).st.paths.len(),
    ensures
        ({
            let paths = json_document(s).st.paths;
            let e = paths[i];
            let p = paths[e.parent as int];
            e.parent < i && p.start <= e.start && e.end <= p.end
        }),
{
    law_json_indexes(s);
    reveal(ranges_nested);
    let paths = json_document(s).st.paths;
    assert(paths[i].parent < i);
    let p = paths[i].parent as int;
    if p >= 1 {
        assert(paths[p].end > 0);
    }
}

/// An array element's index is its position among the members of its
/// array, counting from zero.
pub proof fn law_json_array_index(s: Seq<u8>, i: int)
    requires
        s.len() < u32::MAX,
        0 <= i < json_document(s).st.paths.len(),
        json_document(s).st.paths[i].segment is Index,
    ensures
        ({
            let paths = json_document(s).st.paths;
            paths[i].segment->Index_0 == child_count(paths.take(i), paths[i].parent)
        }),
{
    law_json_indexes(s);
    reveal(indexed);
    let paths = json_document(s).st.paths;
    assert(paths[i].segment == paths[i].segment);
}

/// No two members of an object in `paths` share a key.
pub open spec fn keys_distinct(paths: Seq<PathEntry>) -> bool {
    forall|a: int, b: int|
        0 <= a < b < paths.len() && (#[trigger] paths[a]).segment is Key && paths[a].parent == (
        #[trigger] paths[b]).parent ==> paths[a].segment != paths[b].segment
}

/// A path singles out its value: where no object repeats a key, two
/// different entries never have the same path.
pub proof fn law_json_paths_distinct(s: Seq<u8>, i: int, j: int)
    requires
        s.len() < u32::MAX,
        keys_distinct(json_document(s).st.paths),
        0 <= i < json_document(s).st.paths.len(),
        0 <= j < json_document(s).st.paths.len(),
        path_to(json_document(s).st.paths, i) == path_to(json_document(s).st.paths, j),
    ensures
        i == j,
{
    law_json_indexes(s);
    let paths = json_document(s).st.paths;
    assert forall|a: int, b: int|
        1 <= a < b < paths.len() && (#[trigger] paths[a]).parent == (#[trigger] paths[b]).parent implies paths[a].segment
        != paths[b].segment by {
        lemma_backed_at(s, paths, json_document(s).st.names, a);
        if paths[a].segment is Index && paths[b].segment is Index {
            law_json_array_index(s, a);
            law_json_array_index(s, b);
            lemma_child_count_take(paths, paths[a].parent, a, b);
        }
    }
    lemma_paths_apart(paths, i, j);
}

} // verus!
