//! Law of prettified JSON: how a value is laid out.

use vstd::prelude::*;

use crate::bytes::{is_ws, skip_ws_from};
use crate::format::cursor::byte_at;
use crate::format::json::{is_structural, json_pretty, line_indent, plain_end, string_stop};
use crate::format::json_text::{
    is_gap, is_hex4, items_text, items_valid, lemma_gap, lemma_stands_byte, lemma_stands_parts, quoted,
    stands, JsonElements, JsonMember, JsonMembers, JsonNumber, JsonText, StringItem,
};

verus! {

/// A line feed and two spaces for each level.
pub open spec fn new_line(level: nat) -> Seq<u8> {
    seq![0x0au8] + Seq::new(2 * level, |i: int| 0x20u8)
}

impl JsonText {
    /// The value laid out at the given level: empty brackets together,
    /// otherwise each element and member on a line of its own, one level
    /// deeper than the brackets, and a space behind each colon.
    pub open spec fn layout(self, level: nat) -> Seq<u8>
        decreases self,
    {
        match self {
            JsonText::EmptyArray(gap) => seq![0x5bu8, 0x5du8],
            JsonText::EmptyObject(gap) => seq![0x7bu8, 0x7du8],
            JsonText::Array(elements) => seq![0x5bu8] + (new_line(level + 1) + (elements.layout(level + 1) + (new_line(
                level,
            ) + seq![0x5du8]))),
            JsonText::Object(members) => seq![0x7bu8] + (new_line(level + 1) + (members.layout(level + 1) + (new_line(
                level,
            ) + seq![0x7du8]))),
            _ => self.text(),
        }
    }
}

impl JsonElements {
    pub open spec fn layout(self, level: nat) -> Seq<u8>
        decreases self,
    {
        match self {
            JsonElements::Last(before, value, behind) => value.layout(level),
            JsonElements::More(before, value, behind, rest) => value.layout(level) + (seq![0x2cu8] + (new_line(level)
                + rest.layout(level))),
        }
    }
}

impl JsonMember {
    pub open spec fn layout(self, level: nat) -> Seq<u8>
        decreases self,
    {
        quoted(self.key) + (seq![0x3au8, 0x20u8] + self.value.layout(level))
    }
}

impl JsonMembers {
    pub open spec fn layout(self, level: nat) -> Seq<u8>
        decreases self,
    {
        match self {
            JsonMembers::Last(m) => m.layout(level),
            JsonMembers::More(m, rest) => m.layout(level) + (seq![0x2cu8] + (new_line(level) + rest.layout(level))),
        }
    }
}

/// White space, punctuation or the end.
spec fn at_break(s: Seq<u8>, q: int) -> bool {
    q >= s.len() || s[q] == 0x20 || s[q] == 0x09 || s[q] == 0x0a || s[q] == 0x0d || s[q] == 0x2c || s[q] == 0x5d
        || s[q] == 0x7d
}

pub proof fn lemma_indent_line(level: nat)
    ensures
        line_indent(level) == new_line(level),
{
    assert(line_indent(level) =~= new_line(level));
}

proof fn lemma_pretty_gap(s: Seq<u8>, p: int, gap: Seq<u8>, level: nat)
    requires
        stands(s, p, gap),
        is_gap(gap),
    ensures
        json_pretty(s, p, level) == json_pretty(s, p + gap.len(), level),
    decreases gap.len(),
{
    if gap.len() > 0 {
        lemma_stands_byte(s, p, gap, 0);
        assert(gap =~= seq![gap[0]] + gap.skip(1));
        lemma_stands_parts(s, p, seq![gap[0]], gap.skip(1));
        assert forall|i: int| 0 <= i < gap.skip(1).len() implies (#[trigger] gap.skip(1)[i]) == 0x20 || gap.skip(1)[i]
            == 0x09 || gap.skip(1)[i] == 0x0a || gap.skip(1)[i] == 0x0d by {
            assert(gap.skip(1)[i] == gap[i + 1]);
        }
        lemma_pretty_gap(s, p + 1, gap.skip(1), level);
    }
}

proof fn lemma_plain_run(s: Seq<u8>, p: int, x: Seq<u8>)
    requires
        stands(s, p, x),
        forall|i: int| 0 <= i < x.len() ==> !is_structural(#[trigger] x[i]),
        at_break(s, p + x.len()),
    ensures
        plain_end(s, p) == p + x.len(),
    decreases x.len(),
{
    if x.len() > 0 {
        lemma_stands_byte(s, p, x, 0);
        assert(x =~= seq![x[0]] + x.skip(1));
        lemma_stands_parts(s, p, seq![x[0]], x.skip(1));
        assert forall|i: int| 0 <= i < x.skip(1).len() implies !is_structural(#[trigger] x.skip(1)[i]) by {
            assert(x.skip(1)[i] == x[i + 1]);
        }
        lemma_plain_run(s, p + 1, x.skip(1));
    }
}

/// A word or number is copied.
proof fn lemma_pretty_plain(s: Seq<u8>, p: int, x: Seq<u8>, level: nat)
    requires
        stands(s, p, x),
        x.len() > 0,
        forall|i: int| 0 <= i < x.len() ==> !is_structural(#[trigger] x[i]),
        at_break(s, p + x.len()),
    ensures
        json_pretty(s, p, level) == x + json_pretty(s, p + x.len(), level),
{
    lemma_stands_byte(s, p, x, 0);
    lemma_plain_run(s, p, x);
    assert(!is_structural(x[0]));
    assert(s.subrange(p, p + x.len()) == x);
}

proof fn lemma_number_plain(n: JsonNumber)
    requires
        n.valid(),
    ensures
        n.text().len() > 0,
        forall|i: int| 0 <= i < n.text().len() ==> !is_structural(#[trigger] n.text()[i]),
{
    let x = n.text();
    let a = n.sign_text().len() as int;
    let b = a + n.whole.len();
    let c = b + n.fraction_text().len();
    assert forall|i: int| 0 <= i < x.len() implies !is_structural(#[trigger] x[i]) by {
        if i < a {
            assert(x[i] == n.sign_text()[i]);
        } else if i < b {
            assert(x[i] == n.whole[i - a]);
        } else if i < c {
            assert(x[i] == n.fraction_text()[i - b]);
            if let Some(d) = n.fraction {
                if i - b >= 1 {
                    assert(n.fraction_text()[i - b] == d[i - b - 1]);
                }
            }
        } else {
            let e = n.exponent_text();
            assert(x[i] == e[i - c]);
            match n.exponent {
                Some((marker, Some(sign), d)) => {
                    if i - c >= 2 {
                        assert(e[i - c] == d[i - c - 2]);
                    }
                },
                Some((marker, None, d)) => {
                    if i - c >= 1 {
                        assert(e[i - c] == d[i - c - 1]);
                    }
                },
                None => {},
            }
        }
    }
}

proof fn lemma_hex_stop(s: Seq<u8>, p: int, h: Seq<u8>, n: int)
    requires
        stands(s, p, h),
        0 <= n <= h.len(),
        forall|i: int|
            0 <= i < h.len() ==> 0x30 <= (#[trigger] h[i]) <= 0x39 || 0x61 <= h[i] <= 0x66 || 0x41 <= h[i] <= 0x46,
    ensures
        string_stop(s, p + n) == string_stop(s, p + h.len()),
    decreases h.len() - n,
{
    if n < h.len() {
        lemma_stands_byte(s, p, h, n);
        lemma_hex_stop(s, p, h, n + 1);
    }
}

proof fn lemma_escape_stop(s: Seq<u8>, p: int, h: Seq<u8>)
    requires
        is_hex4(h),
        stands(s, p, seq![0x5cu8, 0x75u8] + h),
    ensures
        string_stop(s, p) == string_stop(s, p + 6),
{
    let x = seq![0x5cu8, 0x75u8] + h;
    lemma_stands_byte(s, p, x, 0);
    lemma_stands_parts(s, p, seq![0x5cu8, 0x75u8], h);
    lemma_hex_stop(s, p + 2, h, 0);
}

proof fn lemma_items_stop(s: Seq<u8>, p: int, items: Seq<StringItem>)
    requires
        forall|i: int| 0 <= i < items.len() ==> (#[trigger] items[i]).valid(),
        stands(s, p, items_text(items)),
        p + items_text(items).len() < s.len(),
        s[p + items_text(items).len()] == 0x22,
    ensures
        string_stop(s, p) == p + items_text(items).len() + 1,
    decreases items.len(),
{
    if items.len() > 0 {
        let rest = items.skip(1);
        let x = items[0].text();
        assert forall|i: int| 0 <= i < rest.len() implies (#[trigger] rest[i]).valid() by {
            assert(rest[i] == items[i + 1]);
        }
        lemma_stands_parts(s, p, x, items_text(rest));
        assert(items[0].valid());
        match items[0] {
            StringItem::Byte(b) => {
                lemma_stands_byte(s, p, x, 0);
            },
            StringItem::Short(e) => {
                lemma_stands_byte(s, p, x, 0);
            },
            StringItem::Code(h) => {
                lemma_escape_stop(s, p, h);
            },
            StringItem::Lone(h) => {
                lemma_escape_stop(s, p, h);
            },
            StringItem::Pair(h, l) => {
                lemma_stands_parts(s, p, seq![0x5cu8, 0x75u8] + h, seq![0x5cu8, 0x75u8] + l);
                lemma_escape_stop(s, p, h);
                lemma_escape_stop(s, p + 6, l);
            },
        }
        lemma_items_stop(s, p + x.len(), rest);
    }
}

/// A string is copied.
proof fn lemma_pretty_string(s: Seq<u8>, p: int, items: Seq<StringItem>, level: nat)
    requires
        items_valid(items),
        stands(s, p, quoted(items)),
    ensures
        json_pretty(s, p, level) == quoted(items) + json_pretty(s, p + quoted(items).len(), level),
{
    let text = items_text(items);
    lemma_stands_byte(s, p, quoted(items), 0);
    lemma_stands_parts(s, p, seq![0x22u8], text + seq![0x22u8]);
    lemma_stands_parts(s, p + 1, text, seq![0x22u8]);
    lemma_stands_byte(s, p + 1 + text.len(), seq![0x22u8], 0);
    lemma_items_stop(s, p + 1, items);
    assert(s.subrange(p, p + quoted(items).len()) == quoted(items));
}

/// The first byte of a value or of what follows an opening bracket.
proof fn lemma_first(t: JsonText)
    requires
        t.valid(),
    ensures
        t.text().len() > 0,
        !is_ws(t.text()[0]),
        t.text()[0] != 0x5d && t.text()[0] != 0x7d,
{
    if let JsonText::Number(n) = t {
        if n.minus {
            assert(n.text()[0] == n.sign_text()[0]);
        } else {
            assert(n.text()[0] == n.whole[0]);
        }
    }
}

proof fn lemma_value(s: Seq<u8>, p: int, t: JsonText, level: nat)
    requires
        t.valid(),
        stands(s, p, t.text()),
        at_break(s, p + t.text().len()),
    ensures
        json_pretty(s, p, level) == t.layout(level) + json_pretty(s, p + t.text().len(), level),
    decreases t, 0int,
{
    let x = t.text();
    let end = p + x.len();
    lemma_first(t);
    lemma_stands_byte(s, p, x, 0);
    match t {
        JsonText::Number(n) => {
            lemma_number_plain(n);
            lemma_pretty_plain(s, p, x, level);
        },
        JsonText::Text(items) => {
            lemma_pretty_string(s, p, items, level);
        },
        JsonText::EmptyArray(gap) => {
            lemma_stands_parts(s, p, seq![0x5bu8], gap + seq![0x5du8]);
            lemma_stands_parts(s, p + 1, gap, seq![0x5du8]);
            lemma_stands_byte(s, p + 1 + gap.len(), seq![0x5du8], 0);
            lemma_gap(s, p + 1, gap);
        },
        JsonText::EmptyObject(gap) => {
            lemma_stands_parts(s, p, seq![0x7bu8], gap + seq![0x7du8]);
            lemma_stands_parts(s, p + 1, gap, seq![0x7du8]);
            lemma_stands_byte(s, p + 1 + gap.len(), seq![0x7du8], 0);
            lemma_gap(s, p + 1, gap);
        },
        JsonText::Array(elements) => {
            lemma_stands_parts(s, p, seq![0x5bu8], elements.text());
            lemma_elements_first(s, p + 1, *elements);
            lemma_elements(s, p + 1, *elements, level);
            lemma_indent_line(level + 1);
            let rest = json_pretty(s, end, level);
            let close = new_line(level) + seq![0x5du8];
            let inner = elements.layout(level + 1);
            assert(seq![0x5bu8] + new_line(level + 1) + (inner + (close + rest)) =~= t.layout(level) + rest);
        },
        JsonText::Object(members) => {
            lemma_stands_parts(s, p, seq![0x7bu8], members.text());
            lemma_members_first(s, p + 1, *members);
            lemma_members(s, p + 1, *members, level);
            lemma_indent_line(level + 1);
            let rest = json_pretty(s, end, level);
            let close = new_line(level) + seq![0x7du8];
            let inner = members.layout(level + 1);
            assert(seq![0x7bu8] + new_line(level + 1) + (inner + (close + rest)) =~= t.layout(level) + rest);
        },
        _ => {
            lemma_pretty_plain(s, p, x, level);
        },
    }
}

proof fn lemma_elements_first(s: Seq<u8>, p: int, elements: JsonElements)
    requires
        elements.valid(),
        stands(s, p, elements.text()),
    ensures
        byte_at(s, skip_ws_from(s, p)) != Some(0x5du8),
{
    let (before, value) = match elements {
        JsonElements::Last(before, value, behind) => (before, value),
        JsonElements::More(before, value, behind, rest) => (before, value),
    };
    let tail = elements.text().skip((before.len() + value.text().len()) as int);
    assert(elements.text() =~= before + (value.text() + tail));
    lemma_stands_parts(s, p, before, value.text() + tail);
    lemma_first(value);
    lemma_stands_byte(s, p + before.len(), value.text() + tail, 0);
    lemma_gap(s, p, before);
}

proof fn lemma_members_first(s: Seq<u8>, p: int, members: JsonMembers)
    requires
        members.valid(),
        stands(s, p, members.text()),
    ensures
        byte_at(s, skip_ws_from(s, p)) != Some(0x7du8),
{
    let m = match members {
        JsonMembers::Last(m) => m,
        JsonMembers::More(m, rest) => m,
    };
    assert(m.valid());
    let tail = members.text().skip((m.before_key.len() + quoted(m.key).len()) as int);
    assert(members.text() =~= m.before_key + (quoted(m.key) + tail));
    lemma_stands_parts(s, p, m.before_key, quoted(m.key) + tail);
    lemma_stands_byte(s, p + m.before_key.len(), quoted(m.key) + tail, 0);
    lemma_gap(s, p, m.before_key);
}

/// A value with the whitespace around it, up to what follows.
proof fn lemma_between(s: Seq<u8>, p: int, value: JsonText, behind: Seq<u8>, b: u8, level: nat)
    requires
        value.valid(),
        is_gap(behind),
        stands(s, p, value.text() + (behind + seq![b])),
        b == 0x2c || b == 0x5d || b == 0x7d,
    ensures
        json_pretty(s, p, level) == value.layout(level) + json_pretty(
            s,
            p + value.text().len() + behind.len(),
            level,
        ),
        s[(p + value.text().len() + behind.len()) as int] == b,
        p + value.text().len() + behind.len() < s.len(),
    decreases value, 1int,
{
    let q = p + value.text().len();
    lemma_stands_parts(s, p, value.text(), behind + seq![b]);
    lemma_stands_parts(s, q, behind, seq![b]);
    lemma_stands_byte(s, q + behind.len(), seq![b], 0);
    if behind.len() > 0 {
        lemma_stands_byte(s, q, behind, 0);
    }
    lemma_value(s, p, value, level);
    lemma_pretty_gap(s, q, behind, level);
}

proof fn lemma_elements(s: Seq<u8>, p: int, elements: JsonElements, level: nat)
    requires
        elements.valid(),
        stands(s, p, elements.text()),
    ensures
        json_pretty(s, p, level + 1) == elements.layout(level + 1) + ((new_line(level) + seq![0x5du8]) + json_pretty(
            s,
            p + elements.text().len(),
            level,
        )),
    decreases elements, 0int,
{
    let inner = level + 1;
    match elements {
        JsonElements::Last(before, value, behind) => {
            let x = value.text() + (behind + seq![0x5du8]);
            lemma_stands_parts(s, p, before, x);
            let q = p + before.len();
            lemma_pretty_gap(s, p, before, inner);
            lemma_between(s, q, value, behind, 0x5d, inner);
            lemma_indent_line(level);
        },
        JsonElements::More(before, value, behind, rest) => {
            let tail = seq![0x2cu8] + rest.text();
            lemma_stands_parts(s, p, before, value.text() + (behind + tail));
            let q = p + before.len();
            let front = value.text() + (behind + seq![0x2cu8]);
            assert(value.text() + (behind + tail) =~= front + rest.text());
            lemma_stands_parts(s, q, front, rest.text());
            lemma_pretty_gap(s, p, before, inner);
            lemma_between(s, q, value, behind, 0x2c, inner);
            lemma_indent_line(inner);
            let r = q + front.len();
            lemma_elements(s, r, *rest, level);
            let a = value.layout(inner);
            let b = rest.layout(inner);
            let c = (new_line(level) + seq![0x5du8]) + json_pretty(s, p + elements.text().len(), level);
            assert(a + (seq![0x2cu8] + new_line(inner) + (b + c)) =~= elements.layout(inner) + c);
        },
    }
}

proof fn lemma_member(s: Seq<u8>, p: int, m: JsonMember, b: u8, level: nat)
    requires
        m.valid(),
        stands(s, p, m.head() + (m.value.text() + (m.behind_value + seq![b]))),
        b == 0x2c || b == 0x7d,
    ensures
        json_pretty(s, p, level) == m.layout(level) + json_pretty(
            s,
            p + m.head().len() + m.value.text().len() + m.behind_value.len(),
            level,
        ),
        s[(p + m.head().len() + m.value.text().len() + m.behind_value.len()) as int] == b,
        p + m.head().len() + m.value.text().len() + m.behind_value.len() < s.len(),
    decreases m, 1int,
{
    let tail = m.value.text() + (m.behind_value + seq![b]);
    lemma_stands_parts(s, p, m.head(), tail);
    let k = p + m.before_key.len();
    let colon_text = seq![0x3au8] + m.before_value;
    lemma_stands_parts(s, p, m.before_key, quoted(m.key) + (m.behind_key + colon_text));
    lemma_stands_parts(s, k, quoted(m.key), m.behind_key + colon_text);
    let g = k + quoted(m.key).len();
    lemma_stands_parts(s, g, m.behind_key, colon_text);
    let c = g + m.behind_key.len();
    lemma_stands_parts(s, c, seq![0x3au8], m.before_value);
    lemma_stands_byte(s, c, seq![0x3au8], 0);
    lemma_pretty_gap(s, p, m.before_key, level);
    lemma_pretty_string(s, k, m.key, level);
    lemma_pretty_gap(s, g, m.behind_key, level);
    lemma_pretty_gap(s, c + 1, m.before_value, level);
    let v = p + m.head().len();
    assert(v == c + 1 + m.before_value.len());
    lemma_between(s, v, m.value, m.behind_value, b, level);
    let rest = json_pretty(s, v + m.value.text().len() + m.behind_value.len(), level);
    assert(quoted(m.key) + (seq![0x3au8, 0x20u8] + (m.value.layout(level) + rest)) =~= m.layout(level) + rest);
}

proof fn lemma_members(s: Seq<u8>, p: int, members: JsonMembers, level: nat)
    requires
        members.valid(),
        stands(s, p, members.text()),
    ensures
        json_pretty(s, p, level + 1) == members.layout(level + 1) + ((new_line(level) + seq![0x7du8]) + json_pretty(
            s,
            p + members.text().len(),
            level,
        )),
    decreases members, 0int,
{
    let inner = level + 1;
    match members {
        JsonMembers::Last(m) => {
            lemma_member(s, p, m, 0x7d, inner);
            lemma_indent_line(level);
        },
        JsonMembers::More(m, rest) => {
            let front = m.head() + (m.value.text() + (m.behind_value + seq![0x2cu8]));
            assert(members.text() =~= front + rest.text());
            lemma_stands_parts(s, p, front, rest.text());
            lemma_member(s, p, m, 0x2c, inner);
            lemma_indent_line(inner);
            lemma_members(s, p + front.len(), *rest, level);
            let a = m.layout(inner);
            let b = rest.layout(inner);
            let c = (new_line(level) + seq![0x7du8]) + json_pretty(s, p + members.text().len(), level);
            assert(a + (seq![0x2cu8] + new_line(inner) + (b + c)) =~= members.layout(inner) + c);
        },
    }
}

/// Prettifying a JSON text lays its value out, whatever the whitespace in
/// it was.
pub proof fn law_json_layout(before: Seq<u8>, t: JsonText, behind: Seq<u8>)
    requires
        is_gap(before),
        t.valid(),
        is_gap(behind),
    ensures
        json_pretty(before + (t.text() + behind), 0, 0) == t.layout(0),
{
    let s = before + (t.text() + behind);
    let p = before.len() as int;
    let q = p + t.text().len();
    assert(s.subrange(0, s.len() as int) =~= s);
    lemma_stands_parts(s, 0, before, t.text() + behind);
    lemma_stands_parts(s, p, t.text(), behind);
    if behind.len() > 0 {
        lemma_stands_byte(s, q, behind, 0);
    }
    lemma_pretty_gap(s, 0, before, 0);
    lemma_value(s, p, t, 0);
    lemma_pretty_gap(s, q, behind, 0);
    assert(t.layout(0) + Seq::<u8>::empty() =~= t.layout(0));
}

} // verus!
