//! Laws of broken JSON: where a text stops being one, parsing says so.

use vstd::prelude::*;

use crate::bytes::{lemma_skip_ws_bounds, skip_ws_from};
use crate::format::cursor::byte_at;
use crate::format::json::{
    json_after_element, json_after_field, json_array, json_document, json_elements, json_fields, json_object,
    json_value, string_close,
};
use crate::format::json_text::{
    is_gap, items_meaning, items_text, items_valid, lemma_element, lemma_first_byte, lemma_gap, lemma_interned_name,
    lemma_item_close, lemma_items_skip, lemma_member, lemma_member_head, lemma_member_step, lemma_quoted,
    lemma_stands_byte, lemma_stands_parts, lemma_value, member_opened, quoted, roomy, stands, stops_number, JsonMember,
    JsonText, StringItem,
};
use crate::format::{ParseError, ParseErrorKind, PathSegment, ScanState, StyleKind, ROOT_PARENT};

verus! {

/// An element with the whitespace around it.
pub struct WrittenElement {
    pub before: Seq<u8>,
    pub value: JsonText,
    pub behind: Seq<u8>,
}

impl WrittenElement {
    pub open spec fn valid(self) -> bool {
        is_gap(self.before) && self.value.valid() && is_gap(self.behind)
    }

    pub open spec fn text(self) -> Seq<u8> {
        self.before + (self.value.text() + self.behind)
    }
}

/// Elements, each with its comma.
pub open spec fn elements_text(list: Seq<WrittenElement>) -> Seq<u8>
    decreases list.len(),
{
    if list.len() == 0 {
        Seq::empty()
    } else {
        list[0].text() + (seq![0x2cu8] + elements_text(list.skip(1)))
    }
}

/// Members, each with its comma.
pub open spec fn members_text(list: Seq<JsonMember>) -> Seq<u8>
    decreases list.len(),
{
    if list.len() == 0 {
        Seq::empty()
    } else {
        (list[0].head() + (list[0].value.text() + list[0].behind_value)) + (seq![0x2cu8] + members_text(list.skip(1)))
    }
}

/// `b` starts a value: a bracket, a quote, a minus, a digit, or the first
/// letter of a word.
pub open spec fn starts_value(b: u8) -> bool {
    b == 0x7b || b == 0x5b || b == 0x22 || b == 0x2d || 0x30 <= b <= 0x39 || b == 0x74 || b == 0x66 || b == 0x6e
}

pub open spec fn is_gap_byte(b: u8) -> bool {
    b == 0x20 || b == 0x09 || b == 0x0a || b == 0x0d
}

/// The error for what stands at `p`: its byte, or the end of the input.
pub open spec fn error_at(s: Seq<u8>, p: int) -> Option<ParseError> {
    Some(
        ParseError {
            offset: p as u32,
            kind: if p < s.len() {
                ParseErrorKind::UnexpectedByte(s[p])
            } else {
                ParseErrorKind::UnexpectedEof
            },
        },
    )
}

/// After elements with their commas the array goes on as before them.
proof fn lemma_open_elements(s: Seq<u8>, st: ScanState, index: int, list: Seq<WrittenElement>) -> (to: ScanState)
    requires
        forall|i: int| 0 <= i < list.len() ==> (#[trigger] list[i]).valid(),
        stands(s, st.pos, elements_text(list)),
        roomy(s, st, elements_text(list).len() as int),
        0 <= index <= st.paths.len(),
    ensures
        json_elements(s, st, 0, index) == json_elements(s, to, 0, index + list.len()),
        to.pos == st.pos + elements_text(list).len(),
        to.names.len() <= to.paths.len() <= st.paths.len() + elements_text(list).len(),
        index + list.len() <= to.paths.len(),
    decreases list.len(),
{
    if list.len() == 0 {
        st
    } else {
        let e = list[0];
        let rest = list.skip(1);
        let p = st.pos;
        assert(e.valid());
        let tail = seq![0x2cu8] + elements_text(rest);
        lemma_stands_parts(s, p, e.text(), tail);
        lemma_stands_parts(s, p, e.before, e.value.text() + e.behind);
        let q = p + e.before.len();
        lemma_stands_parts(s, q, e.value.text(), e.behind);
        let end = q + e.value.text().len();
        assert(elements_text(list) =~= (e.before + e.value.text()) + ((e.behind + seq![0x2cu8]) + elements_text(rest)));
        lemma_stands_parts(s, p, e.before + e.value.text(), (e.behind + seq![0x2cu8]) + elements_text(rest));
        lemma_stands_parts(s, end, e.behind + seq![0x2cu8], elements_text(rest));
        lemma_element(s, st, 0, index, e.before, e.value, e.behind, 0x2c);
        let n = st.paths.len() as int;
        let opened = st.at(q).opened(q, 0, PathSegment::Index(index as u32));
        let v = json_value(s, opened, n as u32);
        let c = v.st.closed_at(n, v.st.pos);
        let next = c.at(end + e.behind.len() + 1);
        assert(json_after_element(s, c, 0, index) == json_elements(s, next, 0, index + 1));
        assert forall|i: int| 0 <= i < rest.len() implies (#[trigger] rest[i]).valid() by {
            assert(rest[i] == list[i + 1]);
        }
        lemma_open_elements(s, next, index + 1, rest)
    }
}

proof fn lemma_document_err(s: Seq<u8>, before: Seq<u8>, rest: Seq<u8>)
    requires
        is_gap(before),
        s == before + rest,
        rest.len() > 0,
        !is_gap_byte(rest[0]),
    ensures
        ({
            let rooted = ScanState::empty().opened(0, ROOT_PARENT, PathSegment::Root);
            let p = before.len() as int;
            &&& skip_ws_from(s, 0) == p
            &&& p < s.len()
            &&& s[p] == rest[0]
            &&& s[p] == 0x5b ==> json_value(s, rooted, 0) == json_array(s, rooted.at(p), 0)
            &&& s[p] == 0x7b ==> json_value(s, rooted, 0) == json_object(s, rooted.at(p), 0)
            &&& json_value(s, rooted, 0).err is Some ==> json_document(s).err == json_value(s, rooted, 0).err
        }),
{
    let p = before.len() as int;
    assert(s.subrange(0, p) =~= before);
    assert(s[p] == rest[0]);
    lemma_gap(s, 0, before);
}

/// The state in which the first element of the outermost array is read.
spec fn array_start(p: int) -> ScanState {
    ScanState::empty().opened(0, ROOT_PARENT, PathSegment::Root).at(p)
}

/// An outermost array that is not closed at once is read as elements.
proof fn lemma_array_enter(s: Seq<u8>, before: Seq<u8>, body: Seq<u8>)
    requires
        is_gap(before),
        s == before + (seq![0x5bu8] + body),
        byte_at(s, skip_ws_from(s, before.len() as int + 1)) != Some(0x5du8),
        json_elements(s, array_start(before.len() as int + 1), 0, 0).err is Some,
    ensures
        json_document(s).err == json_elements(s, array_start(before.len() as int + 1), 0, 0).err,
{
    let p = before.len() as int;
    lemma_document_err(s, before, seq![0x5bu8] + body);
    let rooted = ScanState::empty().opened(0, ROOT_PARENT, PathSegment::Root);
    let st = array_start(p + 1);
    let k = skip_ws_from(s, p + 1);
    lemma_skip_twice(s, p + 1);
    assert(rooted.at(p).at(k) == st.at(k));
    assert(json_array(s, rooted.at(p), 0) == json_elements(s, st.at(k), 0, 0));
    assert(st.at(k).at(k) == st.at(k));
    assert(json_elements(s, st.at(k), 0, 0) == json_elements(s, st, 0, 0));
}

/// Where no value follows, an element cannot be read.
proof fn lemma_no_value(s: Seq<u8>, st: ScanState, index: int, gap: Seq<u8>, rest: Seq<u8>)
    requires
        is_gap(gap),
        stands(s, st.pos, gap + rest),
        st.pos + gap.len() + rest.len() == s.len(),
        rest.len() > 0 ==> !is_gap_byte(rest[0]) && !starts_value(rest[0]),
    ensures
        json_elements(s, st, 0, index).err == error_at(s, s.len() - rest.len()),
{
    let g = st.pos;
    lemma_stands_parts(s, g, gap, rest);
    let r = g + gap.len();
    if rest.len() > 0 {
        lemma_stands_byte(s, r, rest, 0);
    }
    lemma_gap(s, g, gap);
    lemma_skip_twice(s, g);
    let opened = st.at(r).opened(r, 0, PathSegment::Index(index as u32));
    assert(json_value(s, opened, st.paths.len() as u32).err == error_at(s, r));
}

/// Where the elements of an array stand.
proof fn lemma_array_stands(s: Seq<u8>, before: Seq<u8>, list: Seq<WrittenElement>, tail: Seq<u8>)
    requires
        s == before + (seq![0x5bu8] + (elements_text(list) + tail)),
    ensures
        stands(s, before.len() as int + 1, elements_text(list)),
        stands(s, before.len() as int + 1 + elements_text(list).len(), tail),
        before.len() as int + 1 + elements_text(list).len() + tail.len() == s.len(),
{
    let body = elements_text(list) + tail;
    assert(s.subrange(0, s.len() as int) =~= s);
    lemma_stands_parts(s, 0, before, seq![0x5bu8] + body);
    lemma_stands_parts(s, before.len() as int, seq![0x5bu8], body);
    lemma_stands_parts(s, before.len() as int + 1, elements_text(list), tail);
}

/// Behind a comma, or at the start of an array that is not closed at
/// once, a value must follow: `[1,]`, `[,` and `[1,` are no arrays.
pub proof fn law_json_array_needs_value(
    before: Seq<u8>,
    list: Seq<WrittenElement>,
    gap: Seq<u8>,
    rest: Seq<u8>,
)
    requires
        is_gap(before),
        forall|i: int| 0 <= i < list.len() ==> (#[trigger] list[i]).valid(),
        is_gap(gap),
        rest.len() > 0 ==> !is_gap_byte(rest[0]) && !starts_value(rest[0]),
        list.len() == 0 && rest.len() > 0 ==> rest[0] != 0x5d,
        before.len() + elements_text(list).len() + gap.len() + rest.len() + 8 < u32::MAX,
    ensures
        ({
            let s = before + (seq![0x5bu8] + (elements_text(list) + (gap + rest)));
            json_document(s).err == error_at(s, s.len() - rest.len())
        }),
{
    let s = before + (seq![0x5bu8] + (elements_text(list) + (gap + rest)));
    let p = before.len() as int + 1;
    lemma_array_stands(s, before, list, gap + rest);
    if list.len() > 0 {
        let e = list[0];
        let tail = seq![0x2cu8] + elements_text(list.skip(1));
        assert(elements_text(list) == e.text() + tail);
        lemma_first_element(s, p, e, tail);
    } else {
        lemma_stands_parts(s, p, gap, rest);
        if rest.len() > 0 {
            lemma_stands_byte(s, p + gap.len(), rest, 0);
        }
        lemma_gap(s, p, gap);
    }
    let to = lemma_open_elements(s, array_start(p), 0, list);
    lemma_no_value(s, to, list.len() as int, gap, rest);
    lemma_array_enter(s, before, elements_text(list) + (gap + rest));
}

proof fn lemma_skip_twice(s: Seq<u8>, p: int)
    requires
        0 <= p <= s.len(),
    ensures
        skip_ws_from(s, skip_ws_from(s, p)) == skip_ws_from(s, p),
        p <= skip_ws_from(s, p) <= s.len(),
{
    lemma_skip_ws_bounds(s, p);
}

proof fn lemma_first_element(s: Seq<u8>, p: int, e: WrittenElement, tail: Seq<u8>)
    requires
        e.valid(),
        stands(s, p, e.text() + tail),
    ensures
        byte_at(s, skip_ws_from(s, p)) != Some(0x5du8),
{
    lemma_stands_parts(s, p, e.text(), tail);
    lemma_stands_parts(s, p, e.before, e.value.text() + e.behind);
    lemma_stands_parts(s, p + e.before.len(), e.value.text(), e.behind);
    lemma_first_byte(e.value);
    lemma_stands_byte(s, p + e.before.len(), e.value.text(), 0);
    lemma_gap(s, p, e.before);
}

/// Behind an element only a comma or the closing bracket may follow:
/// `[1 2]` and `[1` are no arrays.
pub proof fn law_json_array_needs_close(
    before: Seq<u8>,
    list: Seq<WrittenElement>,
    last: WrittenElement,
    rest: Seq<u8>,
)
    requires
        is_gap(before),
        forall|i: int| 0 <= i < list.len() ==> (#[trigger] list[i]).valid(),
        last.valid(),
        rest.len() > 0 ==> !is_gap_byte(rest[0]) && rest[0] != 0x2c && rest[0] != 0x5d,
        last.value is Number && last.behind.len() == 0 ==> stops_number(rest, 0),
        before.len() + elements_text(list).len() + last.text().len() + rest.len() + 8 < u32::MAX,
    ensures
        ({
            let s = before + (seq![0x5bu8] + (elements_text(list) + (last.text() + rest)));
            json_document(s).err == error_at(s, s.len() - rest.len())
        }),
{
    let s = before + (seq![0x5bu8] + (elements_text(list) + (last.text() + rest)));
    let p = before.len() as int + 1;
    lemma_array_stands(s, before, list, last.text() + rest);
    if list.len() > 0 {
        let e = list[0];
        let tail = seq![0x2cu8] + elements_text(list.skip(1));
        assert(elements_text(list) == e.text() + tail);
        lemma_first_element(s, p, e, tail);
    } else {
        lemma_first_element(s, p, last, rest);
    }
    let to = lemma_open_elements(s, array_start(p), 0, list);
    lemma_bad_separator(s, to, list.len() as int, last, rest);
    lemma_array_enter(s, before, elements_text(list) + (last.text() + rest));
}

proof fn lemma_bad_separator(s: Seq<u8>, st: ScanState, index: int, last: WrittenElement, rest: Seq<u8>)
    requires
        last.valid(),
        stands(s, st.pos, last.text() + rest),
        st.pos + last.text().len() + rest.len() == s.len(),
        rest.len() > 0 ==> !is_gap_byte(rest[0]) && rest[0] != 0x2c && rest[0] != 0x5d,
        last.value is Number && last.behind.len() == 0 ==> stops_number(rest, 0),
        roomy(s, st, last.value.text().len() as int + 1),
        0 <= index,
    ensures
        json_elements(s, st, 0, index).err == error_at(s, s.len() - rest.len()),
{
    let p = st.pos;
    lemma_stands_parts(s, p, last.text(), rest);
    lemma_stands_parts(s, p, last.before, last.value.text() + last.behind);
    let q = p + last.before.len();
    lemma_stands_parts(s, q, last.value.text(), last.behind);
    let end = q + last.value.text().len();
    let r = end + last.behind.len();
    lemma_first_byte(last.value);
    lemma_stands_byte(s, q, last.value.text(), 0);
    if rest.len() > 0 {
        lemma_stands_byte(s, r, rest, 0);
    }
    if last.behind.len() > 0 {
        lemma_stands_byte(s, end, last.behind, 0);
    }
    lemma_gap(s, p, last.before);
    lemma_gap(s, end, last.behind);
    let n = st.paths.len() as int;
    let opened = st.at(q).opened(q, 0, PathSegment::Index(index as u32));
    assert(s.subrange(q, q) =~= Seq::empty());
    lemma_value(s, opened, q, last.value, n);
    let v = json_value(s, opened, n as u32);
    let c = v.st.closed_at(n, v.st.pos);
    assert(json_elements(s, st, 0, index) == json_after_element(s, c, 0, index));
}

/// After members with their commas the object goes on as before them.
proof fn lemma_open_members(s: Seq<u8>, st: ScanState, list: Seq<JsonMember>) -> (to: ScanState)
    requires
        forall|i: int| 0 <= i < list.len() ==> (#[trigger] list[i]).valid(),
        stands(s, st.pos, members_text(list)),
        roomy(s, st, members_text(list).len() as int),
    ensures
        json_fields(s, st, 0) == json_fields(s, to, 0),
        to.pos == st.pos + members_text(list).len(),
        to.names.len() <= to.paths.len() <= st.paths.len() + members_text(list).len(),
    decreases list.len(),
{
    if list.len() == 0 {
        st
    } else {
        let m = list[0];
        let rest = list.skip(1);
        let p = st.pos;
        assert(m.valid());
        let more = members_text(rest);
        let tail = m.value.text() + ((m.behind_value + seq![0x2cu8]) + more);
        assert(members_text(list) =~= m.head() + tail);
        lemma_stands_parts(s, p, m.head(), tail);
        let q = p + m.head().len();
        lemma_stands_parts(s, q, m.value.text(), (m.behind_value + seq![0x2cu8]) + more);
        let end = q + m.value.text().len();
        lemma_stands_parts(s, end, m.behind_value + seq![0x2cu8], more);
        lemma_member(s, st, 0, m, 0x2c);
        let n = st.paths.len() as int;
        let v = json_value(s, member_opened(st, 0, m), n as u32);
        let c = v.st.closed_at(n, v.st.pos);
        let next = c.at(end + m.behind_value.len() + 1);
        assert(json_after_field(s, c, 0) == json_fields(s, next, 0));
        assert forall|i: int| 0 <= i < rest.len() implies (#[trigger] rest[i]).valid() by {
            assert(rest[i] == list[i + 1]);
        }
        lemma_open_members(s, next, rest)
    }
}

/// Behind a comma, or at the start of an object that is not closed at
/// once, a key must follow: `{"a":1,}` and `{a:1}` are no objects.
pub proof fn law_json_object_needs_key(before: Seq<u8>, list: Seq<JsonMember>, gap: Seq<u8>, rest: Seq<u8>)
    requires
        is_gap(before),
        forall|i: int| 0 <= i < list.len() ==> (#[trigger] list[i]).valid(),
        is_gap(gap),
        rest.len() > 0 && !is_gap_byte(rest[0]) && rest[0] != 0x22,
        list.len() == 0 ==> rest[0] != 0x7d,
        before.len() + members_text(list).len() + gap.len() + rest.len() + 8 < u32::MAX,
    ensures
        ({
            let s = before + (seq![0x7bu8] + (members_text(list) + (gap + rest)));
            json_document(s).err == error_at(s, s.len() - rest.len())
        }),
{
    let body = members_text(list) + (gap + rest);
    let s = before + (seq![0x7bu8] + body);
    let p = before.len() as int;
    lemma_document_err(s, before, seq![0x7bu8] + body);
    assert(s.subrange(0, s.len() as int) =~= s);
    lemma_stands_parts(s, 0, before, seq![0x7bu8] + body);
    lemma_stands_parts(s, p, seq![0x7bu8], body);
    lemma_stands_parts(s, p + 1, members_text(list), gap + rest);
    let g = p + 1 + members_text(list).len();
    lemma_stands_parts(s, g, gap, rest);
    let r = g + gap.len();
    lemma_stands_byte(s, r, rest, 0);
    lemma_gap(s, g, gap);
    let rooted = ScanState::empty().opened(0, ROOT_PARENT, PathSegment::Root);
    let st = rooted.at(p + 1);
    if list.len() > 0 {
        let m = list[0];
        assert(m.valid());
        let tail = members_text(list).skip((m.before_key.len() + quoted(m.key).len()) as int);
        assert(members_text(list) =~= m.before_key + (quoted(m.key) + tail));
        lemma_stands_parts(s, p + 1, m.before_key, quoted(m.key) + tail);
        lemma_stands_byte(s, p + 1 + m.before_key.len(), quoted(m.key) + tail, 0);
        lemma_gap(s, p + 1, m.before_key);
    }
    let k = skip_ws_from(s, p + 1);
    lemma_skip_twice(s, p + 1);
    assert(rooted.at(p).at(k) == st.at(k));
    assert(json_object(s, rooted.at(p), 0) == json_fields(s, st.at(k), 0));
    lemma_fields_skip(s, st, k);
    let to = lemma_open_members(s, st, list);
    assert(json_fields(s, to, 0).err == error_at(s, r));
}

/// Whitespace before a key makes no difference.
proof fn lemma_fields_skip(s: Seq<u8>, st: ScanState, k: int)
    requires
        0 <= st.pos <= s.len(),
        k == skip_ws_from(s, st.pos),
        skip_ws_from(s, k) == k,
        0 <= k <= s.len(),
    ensures
        json_fields(s, st.at(k), 0) == json_fields(s, st, 0),
{
    assert(st.at(k).at(k) == st.at(k));
    if let Some(q) = string_close(s, k + 1) {
        assert(st.at(k).styled(k, q + 1, StyleKind::Key).at(q + 1) == st.styled(
            k,
            q + 1,
            StyleKind::Key,
        ).at(q + 1));
    }
}

/// Where the members of an object stand.
proof fn lemma_object_stands(s: Seq<u8>, before: Seq<u8>, list: Seq<JsonMember>, tail: Seq<u8>)
    requires
        s == before + (seq![0x7bu8] + (members_text(list) + tail)),
    ensures
        stands(s, before.len() as int + 1, members_text(list)),
        stands(s, before.len() as int + 1 + members_text(list).len(), tail),
        before.len() as int + 1 + members_text(list).len() + tail.len() == s.len(),
{
    let body = members_text(list) + tail;
    assert(s.subrange(0, s.len() as int) =~= s);
    lemma_stands_parts(s, 0, before, seq![0x7bu8] + body);
    lemma_stands_parts(s, before.len() as int, seq![0x7bu8], body);
    lemma_stands_parts(s, before.len() as int + 1, members_text(list), tail);
}

/// An outermost object whose first byte is a quote is read as members.
proof fn lemma_object_enter(s: Seq<u8>, before: Seq<u8>, body: Seq<u8>)
    requires
        is_gap(before),
        s == before + (seq![0x7bu8] + body),
        byte_at(s, skip_ws_from(s, before.len() as int + 1)) == Some(0x22u8),
        json_fields(s, array_start(before.len() as int + 1), 0).err is Some,
    ensures
        json_document(s).err == json_fields(s, array_start(before.len() as int + 1), 0).err,
{
    let p = before.len() as int;
    lemma_document_err(s, before, seq![0x7bu8] + body);
    let rooted = ScanState::empty().opened(0, ROOT_PARENT, PathSegment::Root);
    let st = array_start(p + 1);
    let k = skip_ws_from(s, p + 1);
    lemma_skip_twice(s, p + 1);
    assert(rooted.at(p).at(k) == st.at(k));
    assert(json_object(s, rooted.at(p), 0) == json_fields(s, st.at(k), 0));
    lemma_fields_skip(s, st, k);
}

proof fn lemma_first_key(s: Seq<u8>, p: int, gap: Seq<u8>, key: Seq<StringItem>, tail: Seq<u8>)
    requires
        is_gap(gap),
        stands(s, p, gap + (quoted(key) + tail)),
    ensures
        byte_at(s, skip_ws_from(s, p)) == Some(0x22u8),
        skip_ws_from(s, p) == p + gap.len(),
{
    lemma_stands_parts(s, p, gap, quoted(key) + tail);
    lemma_stands_byte(s, p + gap.len(), quoted(key) + tail, 0);
    lemma_gap(s, p, gap);
}

proof fn lemma_first_member(s: Seq<u8>, p: int, list: Seq<JsonMember>)
    requires
        list.len() > 0,
        list[0].valid(),
        stands(s, p, members_text(list)),
    ensures
        byte_at(s, skip_ws_from(s, p)) == Some(0x22u8),
{
    let m = list[0];
    let tail = members_text(list).skip((m.before_key.len() + quoted(m.key).len()) as int);
    assert(members_text(list) =~= m.before_key + (quoted(m.key) + tail));
    lemma_first_key(s, p, m.before_key, m.key, tail);
}

/// Behind a key only a colon may follow: `{"a" 1}` and `{"a"=1}` are no
/// objects.
pub proof fn law_json_object_needs_colon(
    before: Seq<u8>,
    list: Seq<JsonMember>,
    gap: Seq<u8>,
    key: Seq<StringItem>,
    behind: Seq<u8>,
    rest: Seq<u8>,
)
    requires
        is_gap(before),
        forall|i: int| 0 <= i < list.len() ==> (#[trigger] list[i]).valid(),
        is_gap(gap),
        items_valid(key),
        is_gap(behind),
        rest.len() > 0 && !is_gap_byte(rest[0]) && rest[0] != 0x3a,
        before.len() + members_text(list).len() + gap.len() + quoted(key).len() + behind.len() + rest.len() + 8
            < u32::MAX,
    ensures
        ({
            let s = before + (seq![0x7bu8] + (members_text(list) + (gap + (quoted(key) + (behind + rest)))));
            json_document(s).err == error_at(s, s.len() - rest.len())
        }),
{
    let tail = gap + (quoted(key) + (behind + rest));
    let s = before + (seq![0x7bu8] + (members_text(list) + tail));
    let p = before.len() as int + 1;
    lemma_object_stands(s, before, list, tail);
    let g = p + members_text(list).len();
    if list.len() > 0 {
        lemma_first_member(s, p, list);
    } else {
        lemma_first_key(s, p, gap, key, behind + rest);
    }
    let to = lemma_open_members(s, array_start(p), list);
    lemma_no_colon(s, to, gap, key, behind, rest);
    lemma_object_enter(s, before, members_text(list) + tail);
}

proof fn lemma_no_colon(
    s: Seq<u8>,
    st: ScanState,
    gap: Seq<u8>,
    key: Seq<StringItem>,
    behind: Seq<u8>,
    rest: Seq<u8>,
)
    requires
        is_gap(gap),
        items_valid(key),
        is_gap(behind),
        rest.len() > 0 && !is_gap_byte(rest[0]) && rest[0] != 0x3a,
        stands(s, st.pos, gap + (quoted(key) + (behind + rest))),
        st.pos + gap.len() + quoted(key).len() + behind.len() + rest.len() == s.len(),
    ensures
        json_fields(s, st, 0).err == error_at(s, s.len() - rest.len()),
{
    let g = st.pos;
    lemma_first_key(s, g, gap, key, behind + rest);
    lemma_stands_parts(s, g, gap, quoted(key) + (behind + rest));
    let k = g + gap.len();
    lemma_stands_parts(s, k, quoted(key), behind + rest);
    let b = k + quoted(key).len();
    lemma_stands_parts(s, b, behind, rest);
    let r = b + behind.len();
    lemma_stands_byte(s, r, rest, 0);
    lemma_quoted(s, k, key);
    lemma_gap(s, b, behind);
}

/// Behind a member only a comma or the closing brace may follow:
/// `{"a":1 "b":2}` and `{"a":1` are no objects.
pub proof fn law_json_object_needs_close(before: Seq<u8>, list: Seq<JsonMember>, last: JsonMember, rest: Seq<u8>)
    requires
        is_gap(before),
        forall|i: int| 0 <= i < list.len() ==> (#[trigger] list[i]).valid(),
        last.valid(),
        rest.len() > 0 ==> !is_gap_byte(rest[0]) && rest[0] != 0x2c && rest[0] != 0x7d,
        last.value is Number && last.behind_value.len() == 0 ==> stops_number(rest, 0),
        before.len() + members_text(list).len() + last.head().len() + last.value.text().len()
            + last.behind_value.len() + rest.len() + 8 < u32::MAX,
    ensures
        ({
            let s = before + (seq![0x7bu8] + (members_text(list) + (last.head() + (last.value.text() + (
            last.behind_value + rest)))));
            json_document(s).err == error_at(s, s.len() - rest.len())
        }),
{
    let tail = last.head() + (last.value.text() + (last.behind_value + rest));
    let s = before + (seq![0x7bu8] + (members_text(list) + tail));
    let p = before.len() as int + 1;
    lemma_object_stands(s, before, list, tail);
    if list.len() > 0 {
        lemma_first_member(s, p, list);
    } else {
        assert(members_text(list) + tail =~= tail);
        let more = tail.skip((last.before_key.len() + quoted(last.key).len()) as int);
        assert(tail =~= last.before_key + (quoted(last.key) + more));
        lemma_first_key(s, p, last.before_key, last.key, more);
    }
    let to = lemma_open_members(s, array_start(p), list);
    lemma_bad_member_end(s, to, last, rest);
    lemma_object_enter(s, before, members_text(list) + tail);
}

proof fn lemma_bad_member_end(s: Seq<u8>, st: ScanState, m: JsonMember, rest: Seq<u8>)
    requires
        m.valid(),
        stands(s, st.pos, m.head() + (m.value.text() + (m.behind_value + rest))),
        st.pos + m.head().len() + m.value.text().len() + m.behind_value.len() + rest.len() == s.len(),
        rest.len() > 0 ==> !is_gap_byte(rest[0]) && rest[0] != 0x2c && rest[0] != 0x7d,
        m.value is Number && m.behind_value.len() == 0 ==> stops_number(rest, 0),
        roomy(s, st, m.value.text().len() as int + 1),
    ensures
        json_fields(s, st, 0).err == error_at(s, s.len() - rest.len()),
{
    lemma_stands_parts(s, st.pos, m.head(), m.value.text() + (m.behind_value + rest));
    let q = st.pos + m.head().len();
    lemma_stands_parts(s, q, m.value.text(), m.behind_value + rest);
    let end = q + m.value.text().len();
    lemma_stands_parts(s, end, m.behind_value, rest);
    let r = end + m.behind_value.len();
    if rest.len() > 0 {
        lemma_stands_byte(s, r, rest, 0);
    }
    if m.behind_value.len() > 0 {
        lemma_stands_byte(s, end, m.behind_value, 0);
    }
    lemma_member_head(s, st.pos, m);
    lemma_gap(s, end, m.behind_value);
    let n = st.paths.len() as int;
    let inner = member_opened(st, 0, m);
    lemma_interned_name(st.names, items_meaning(m.key));
    lemma_value(s, inner, q, m.value, n);
    lemma_first_byte(m.value);
    lemma_member_step(s, st, 0, m);
    let v = json_value(s, inner, n as u32);
    let c = v.st.closed_at(n, v.st.pos);
    assert(c.pos == end);
    assert(json_fields(s, st, 0) == json_after_field(s, c, 0));
}

proof fn lemma_open_string(s: Seq<u8>, p: int, items: Seq<StringItem>)
    requires
        items_valid(items),
        stands(s, p, items_text(items)),
        p + items_text(items).len() == s.len(),
    ensures
        string_close(s, p) is None,
    decreases items.len(),
{
    if items.len() > 0 {
        lemma_items_skip(items);
        lemma_stands_parts(s, p, items[0].text(), items_text(items.skip(1)));
        lemma_item_close(s, p, items[0]);
        lemma_open_string(s, p + items[0].text().len(), items.skip(1));
    }
}

/// A string needs its closing quote; an escaped one does not close it.
pub proof fn law_json_string_needs_quote(before: Seq<u8>, items: Seq<StringItem>)
    requires
        is_gap(before),
        items_valid(items),
        before.len() + items_text(items).len() + 2 < u32::MAX,
    ensures
        ({
            let s = before + (seq![0x22u8] + items_text(items));
            json_document(s).err == error_at(s, s.len() as int)
        }),
{
    let text = items_text(items);
    let s = before + (seq![0x22u8] + text);
    let p = before.len() as int;
    lemma_document_err(s, before, seq![0x22u8] + text);
    assert(s.subrange(0, s.len() as int) =~= s);
    lemma_stands_parts(s, 0, before, seq![0x22u8] + text);
    lemma_stands_parts(s, p, seq![0x22u8], text);
    lemma_open_string(s, p + 1, items);
}

/// A document must start with a value.
pub proof fn law_json_needs_value(before: Seq<u8>, rest: Seq<u8>)
    requires
        is_gap(before),
        rest.len() > 0 ==> !is_gap_byte(rest[0]) && !starts_value(rest[0]),
        before.len() + rest.len() < u32::MAX,
    ensures
        json_document(before + rest).err == error_at(before + rest, before.len() as int),
{
    let s = before + rest;
    if rest.len() > 0 {
        lemma_document_err(s, before, rest);
    } else {
        assert(s =~= before);
        assert(s.subrange(0, s.len() as int) =~= s);
        lemma_gap(s, 0, before);
    }
}

} // verus!
