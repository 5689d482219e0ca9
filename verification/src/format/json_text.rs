//! Law of JSON parsing: every JSON text is read as what it says.
//!
//! `JsonText` is a JSON value as it is written down, with its whitespace,
//! number forms and escapes. `law_json_reads_text` says which entries and
//! style spans parsing finds in the written text, and that it finds no
//! error.

use vstd::prelude::*;
use vstd::utf8::encode_scalar;

use crate::bytes::{is_digit, is_ws, lemma_skip_digits_bounds, lemma_skip_ws_bounds, skip_digits_from, skip_ws_from};
use crate::format::cursor::byte_at;
use crate::format::json::{
    decode_escapes, decode_item, hex4_at, hex_number, hex_value, json_after_element, json_after_field, json_array,
    json_document, json_elements, json_fields, json_object, json_value, literal_match, low_surrogate_at,
    number_end, number_exponent_end, number_fraction_end, number_sign_end, string_close,
};
use crate::format::{
    intern_id, interned, PathEntry, PathSegment, ScanState, StyleKind, StyleSpan, ROOT_PARENT,
};

verus! {

// --- written JSON ---------------------------------------------------

/// Spaces, tabs, line feeds and carriage returns only.
pub open spec fn is_gap(w: Seq<u8>) -> bool {
    forall|i: int| 0 <= i < w.len() ==> (#[trigger] w[i]) == 0x20 || w[i] == 0x09 || w[i] == 0x0a || w[i] == 0x0d
}

/// Decimal digits only, at least one.
pub open spec fn are_digits(d: Seq<u8>) -> bool {
    d.len() > 0 && forall|i: int| 0 <= i < d.len() ==> 0x30 <= (#[trigger] d[i]) <= 0x39
}

/// A number: sign, digits, fraction digits, and an exponent of marker,
/// sign and digits.
pub struct JsonNumber {
    pub minus: bool,
    pub whole: Seq<u8>,
    pub fraction: Option<Seq<u8>>,
    pub exponent: Option<(u8, Option<u8>, Seq<u8>)>,
}

impl JsonNumber {
    pub open spec fn valid(self) -> bool {
        &&& are_digits(self.whole)
        &&& self.fraction matches Some(d) ==> are_digits(d)
        &&& self.exponent matches Some((marker, sign, d)) ==> {
            &&& marker == 0x65 || marker == 0x45
            &&& sign matches Some(b) ==> b == 0x2b || b == 0x2d
            &&& are_digits(d)
        }
    }

    pub open spec fn sign_text(self) -> Seq<u8> {
        if self.minus {
            seq![0x2du8]
        } else {
            Seq::empty()
        }
    }

    pub open spec fn fraction_text(self) -> Seq<u8> {
        match self.fraction {
            Some(d) => seq![0x2eu8] + d,
            None => Seq::empty(),
        }
    }

    pub open spec fn exponent_text(self) -> Seq<u8> {
        match self.exponent {
            Some((marker, Some(sign), d)) => seq![marker, sign] + d,
            Some((marker, None, d)) => seq![marker] + d,
            None => Seq::empty(),
        }
    }

    pub open spec fn text(self) -> Seq<u8> {
        self.sign_text() + (self.whole + (self.fraction_text() + self.exponent_text()))
    }
}

/// One piece of a string's contents.
pub enum StringItem {
    /// A byte that stands for itself.
    Byte(u8),
    /// A backslash and a letter.
    Short(u8),
    /// `\u` and four hexadecimal digits, not a surrogate.
    Code(Seq<u8>),
    /// Two such escapes that make up a surrogate pair.
    Pair(Seq<u8>, Seq<u8>),
    /// Such an escape of a surrogate that pairs up with nothing.
    Lone(Seq<u8>),
}

/// What the hexadecimal digit `b` counts.
pub open spec fn nibble(b: u8) -> int {
    if 0x30 <= b <= 0x39 {
        b - 0x30
    } else if 0x61 <= b <= 0x66 {
        b - 0x61 + 10
    } else {
        b - 0x41 + 10
    }
}

pub open spec fn is_hex4(h: Seq<u8>) -> bool {
    h.len() == 4 && forall|i: int|
        0 <= i < 4 ==> 0x30 <= (#[trigger] h[i]) <= 0x39 || 0x61 <= h[i] <= 0x66 || 0x41 <= h[i] <= 0x46
}

pub open spec fn code_of(h: Seq<u8>) -> int {
    4096 * nibble(h[0]) + 256 * nibble(h[1]) + 16 * nibble(h[2]) + nibble(h[3])
}

impl StringItem {
    pub open spec fn valid(self) -> bool {
        match self {
            StringItem::Byte(b) => b != 0x22 && b != 0x5c,
            StringItem::Short(e) => e == 0x22 || e == 0x5c || e == 0x2f || e == 0x62 || e == 0x66 || e == 0x6e || e
                == 0x72 || e == 0x74,
            StringItem::Code(h) => is_hex4(h) && !(0xd800 <= code_of(h) < 0xe000),
            StringItem::Pair(h, l) => is_hex4(h) && is_hex4(l) && 0xd800 <= code_of(h) < 0xdc00 && 0xdc00 <= code_of(l)
                < 0xe000,
            StringItem::Lone(h) => is_hex4(h) && 0xd800 <= code_of(h) < 0xe000,
        }
    }

    pub open spec fn text(self) -> Seq<u8> {
        match self {
            StringItem::Byte(b) => seq![b],
            StringItem::Short(e) => seq![0x5cu8, e],
            StringItem::Code(h) => seq![0x5cu8, 0x75u8] + h,
            StringItem::Pair(h, l) => seq![0x5cu8, 0x75u8] + h + (seq![0x5cu8, 0x75u8] + l),
            StringItem::Lone(h) => seq![0x5cu8, 0x75u8] + h,
        }
    }

    /// The bytes that the item stands for, in UTF-8.
    pub open spec fn meaning(self) -> Seq<u8> {
        match self {
            StringItem::Byte(b) => seq![b],
            StringItem::Short(e) => if e == 0x62 {
                seq![0x08u8]
            } else if e == 0x66 {
                seq![0x0cu8]
            } else if e == 0x6e {
                seq![0x0au8]
            } else if e == 0x72 {
                seq![0x0du8]
            } else if e == 0x74 {
                seq![0x09u8]
            } else {
                seq![e]
            },
            StringItem::Code(h) => encode_scalar(code_of(h) as u32),
            StringItem::Pair(h, l) => encode_scalar(
                (65536 + 1024 * (code_of(h) - 0xd800) + (code_of(l) - 0xdc00)) as u32,
            ),
            StringItem::Lone(h) => encode_scalar(0xfffdu32),
        }
    }
}

/// A lone high surrogate and a lone low one, which would be a pair.
pub open spec fn would_pair(a: StringItem, b: StringItem) -> bool {
    &&& a matches StringItem::Lone(h) && code_of(h) < 0xdc00
    &&& b matches StringItem::Lone(l) && code_of(l) >= 0xdc00
}

/// Every item is valid, and no two lone surrogates would pair up.
pub open spec fn items_valid(items: Seq<StringItem>) -> bool {
    &&& forall|i: int| 0 <= i < items.len() ==> (#[trigger] items[i]).valid()
    &&& forall|i: int, j: int|
        0 <= i < items.len() - 1 && j == i + 1 ==> !would_pair(#[trigger] items[i], #[trigger] items[j])
}

pub open spec fn items_text(items: Seq<StringItem>) -> Seq<u8>
    decreases items.len(),
{
    if items.len() == 0 {
        Seq::empty()
    } else {
        items[0].text() + items_text(items.skip(1))
    }
}

pub open spec fn items_meaning(items: Seq<StringItem>) -> Seq<u8>
    decreases items.len(),
{
    if items.len() == 0 {
        Seq::empty()
    } else {
        items[0].meaning() + items_meaning(items.skip(1))
    }
}

pub open spec fn quoted(items: Seq<StringItem>) -> Seq<u8> {
    seq![0x22u8] + (items_text(items) + seq![0x22u8])
}

/// A JSON value as it is written down.
pub enum JsonText {
    Null,
    True,
    False,
    Number(JsonNumber),
    Text(Seq<StringItem>),
    EmptyArray(Seq<u8>),
    Array(Box<JsonElements>),
    EmptyObject(Seq<u8>),
    Object(Box<JsonMembers>),
}

/// The elements of an array, with the whitespace before and after each.
pub enum JsonElements {
    Last(Seq<u8>, JsonText, Seq<u8>),
    More(Seq<u8>, JsonText, Seq<u8>, Box<JsonElements>),
}

/// A member of an object: its key, its value, and the whitespace before
/// the key, behind it, before the value and behind that.
pub struct JsonMember {
    pub before_key: Seq<u8>,
    pub key: Seq<StringItem>,
    pub behind_key: Seq<u8>,
    pub before_value: Seq<u8>,
    pub value: JsonText,
    pub behind_value: Seq<u8>,
}

pub enum JsonMembers {
    Last(JsonMember),
    More(JsonMember, Box<JsonMembers>),
}

impl JsonText {
    pub open spec fn valid(self) -> bool
        decreases self,
    {
        match self {
            JsonText::Number(n) => n.valid(),
            JsonText::Text(items) => items_valid(items),
            JsonText::EmptyArray(gap) => is_gap(gap),
            JsonText::EmptyObject(gap) => is_gap(gap),
            JsonText::Array(elements) => elements.valid(),
            JsonText::Object(members) => members.valid(),
            _ => true,
        }
    }

    pub open spec fn text(self) -> Seq<u8>
        decreases self,
    {
        match self {
            JsonText::Null => seq![0x6eu8, 0x75u8, 0x6cu8, 0x6cu8],
            JsonText::True => seq![0x74u8, 0x72u8, 0x75u8, 0x65u8],
            JsonText::False => seq![0x66u8, 0x61u8, 0x6cu8, 0x73u8, 0x65u8],
            JsonText::Number(n) => n.text(),
            JsonText::Text(items) => quoted(items),
            JsonText::EmptyArray(gap) => seq![0x5bu8] + (gap + seq![0x5du8]),
            JsonText::EmptyObject(gap) => seq![0x7bu8] + (gap + seq![0x7du8]),
            JsonText::Array(elements) => seq![0x5bu8] + elements.text(),
            JsonText::Object(members) => seq![0x7bu8] + members.text(),
        }
    }

    /// The style spans of the value written at `p`.
    pub open spec fn spans(self, p: int) -> Seq<StyleSpan>
        decreases self,
    {
        let end = p + self.text().len();
        match self {
            JsonText::Null => seq![StyleSpan { start: p as u32, end: end as u32, kind: StyleKind::Null }],
            JsonText::True => seq![StyleSpan { start: p as u32, end: end as u32, kind: StyleKind::Bool }],
            JsonText::False => seq![StyleSpan { start: p as u32, end: end as u32, kind: StyleKind::Bool }],
            JsonText::Number(n) => seq![StyleSpan { start: p as u32, end: end as u32, kind: StyleKind::Number }],
            JsonText::Text(items) => seq![StyleSpan { start: p as u32, end: end as u32, kind: StyleKind::String }],
            JsonText::EmptyArray(gap) => Seq::empty(),
            JsonText::EmptyObject(gap) => Seq::empty(),
            JsonText::Array(elements) => elements.spans(p + 1),
            JsonText::Object(members) => members.spans(p + 1),
        }
    }

    /// The entries inside the value written at `p`: `parent` is the entry
    /// of the value itself and `next` the number of the first of them.
    pub open spec fn marks(self, p: int, parent: int, next: int) -> Seq<Mark>
        decreases self,
    {
        match self {
            JsonText::Array(elements) => elements.marks(p + 1, parent, next, 0),
            JsonText::Object(members) => members.marks(p + 1, parent, next),
            _ => Seq::empty(),
        }
    }
}

/// An entry of the path index with the key it stands for spelt out.
pub struct Mark {
    pub start: int,
    pub end: int,
    pub parent: int,
    pub label: Label,
}

pub enum Label {
    Key(Seq<u8>),
    Index(int),
    Element(Seq<u8>),
    Attribute(Seq<u8>),
}

impl JsonElements {
    pub open spec fn valid(self) -> bool
        decreases self,
    {
        match self {
            JsonElements::Last(before, value, behind) => is_gap(before) && value.valid() && is_gap(behind),
            JsonElements::More(before, value, behind, rest) => is_gap(before) && value.valid() && is_gap(behind)
                && rest.valid(),
        }
    }

    /// The elements, separated by commas, and the closing bracket.
    pub open spec fn text(self) -> Seq<u8>
        decreases self,
    {
        match self {
            JsonElements::Last(before, value, behind) => before + (value.text() + (behind + seq![0x5du8])),
            JsonElements::More(before, value, behind, rest) => before + (value.text() + (behind + (seq![0x2cu8]
                + rest.text()))),
        }
    }

    pub open spec fn spans(self, p: int) -> Seq<StyleSpan>
        decreases self,
    {
        match self {
            JsonElements::Last(before, value, behind) => value.spans(p + before.len()),
            JsonElements::More(before, value, behind, rest) => {
                let q = p + before.len();
                value.spans(q) + rest.spans(q + value.text().len() + behind.len() + 1)
            },
        }
    }

    pub open spec fn marks(self, p: int, parent: int, next: int, index: int) -> Seq<Mark>
        decreases self,
    {
        match self {
            JsonElements::Last(before, value, behind) => {
                let q = p + before.len();
                seq![Mark { start: q, end: q + value.text().len(), parent, label: Label::Index(index) }] + value.marks(
                    q,
                    next,
                    next + 1,
                )
            },
            JsonElements::More(before, value, behind, rest) => {
                let q = p + before.len();
                let inner = value.marks(q, next, next + 1);
                (seq![Mark { start: q, end: q + value.text().len(), parent, label: Label::Index(index) }] + inner)
                    + rest.marks(
                    q + value.text().len() + behind.len() + 1,
                    parent,
                    next + 1 + inner.len(),
                    index + 1,
                )
            },
        }
    }
}

impl JsonMember {
    pub open spec fn valid(self) -> bool
        decreases self,
    {
        &&& is_gap(self.before_key)
        &&& items_valid(self.key)
        &&& is_gap(self.behind_key)
        &&& is_gap(self.before_value)
        &&& self.value.valid()
        &&& is_gap(self.behind_value)
    }

    /// The text up to the value.
    pub open spec fn head(self) -> Seq<u8> {
        self.before_key + (quoted(self.key) + (self.behind_key + (seq![0x3au8] + self.before_value)))
    }

    pub open spec fn spans(self, p: int) -> Seq<StyleSpan>
        decreases self,
    {
        let k = p + self.before_key.len();
        seq![
            StyleSpan { start: k as u32, end: (k + quoted(self.key).len()) as u32, kind: StyleKind::Key },
        ] + self.value.spans(p + self.head().len())
    }

    pub open spec fn marks(self, p: int, parent: int, next: int) -> Seq<Mark>
        decreases self,
    {
        let v = p + self.head().len();
        seq![
            Mark {
                start: p + self.before_key.len(),
                end: v + self.value.text().len(),
                parent,
                label: Label::Key(items_meaning(self.key)),
            },
        ] + self.value.marks(v, next, next + 1)
    }
}

impl JsonMembers {
    pub open spec fn valid(self) -> bool
        decreases self,
    {
        match self {
            JsonMembers::Last(m) => m.valid(),
            JsonMembers::More(m, rest) => m.valid() && rest.valid(),
        }
    }

    /// The members, separated by commas, and the closing brace.
    pub open spec fn text(self) -> Seq<u8>
        decreases self,
    {
        match self {
            JsonMembers::Last(m) => m.head() + (m.value.text() + (m.behind_value + seq![0x7du8])),
            JsonMembers::More(m, rest) => m.head() + (m.value.text() + (m.behind_value + (seq![0x2cu8]
                + rest.text()))),
        }
    }

    pub open spec fn spans(self, p: int) -> Seq<StyleSpan>
        decreases self,
    {
        match self {
            JsonMembers::Last(m) => m.spans(p),
            JsonMembers::More(m, rest) => m.spans(p) + rest.spans(
                p + m.head().len() + m.value.text().len() + m.behind_value.len() + 1,
            ),
        }
    }

    pub open spec fn marks(self, p: int, parent: int, next: int) -> Seq<Mark>
        decreases self,
    {
        match self {
            JsonMembers::Last(m) => m.marks(p, parent, next),
            JsonMembers::More(m, rest) => {
                let here = m.marks(p, parent, next);
                here + rest.marks(
                    p + m.head().len() + m.value.text().len() + m.behind_value.len() + 1,
                    parent,
                    next + here.len(),
                )
            },
        }
    }
}

// --- where things stand ---------------------------------------------

/// `x` stands in `s` at `p`.
pub open spec fn stands(s: Seq<u8>, p: int, x: Seq<u8>) -> bool {
    &&& 0 <= p
    &&& p + x.len() <= s.len()
    &&& s.subrange(p, p + x.len()) == x
}

pub proof fn lemma_stands_parts(s: Seq<u8>, p: int, a: Seq<u8>, b: Seq<u8>)
    requires
        stands(s, p, a + b),
    ensures
        stands(s, p, a),
        stands(s, p + a.len(), b),
{
    let x = a + b;
    assert forall|i: int| 0 <= i < x.len() implies s[p + i] == x[i] by {
        assert(s.subrange(p, p + x.len())[i] == s[p + i]);
    }
    assert(s.subrange(p, p + a.len()) =~= a) by {
        assert forall|i: int| 0 <= i < a.len() implies s[p + i] == a[i] by {
            assert(x[i] == a[i]);
        }
    }
    let q = p + a.len();
    assert(s.subrange(q, q + b.len()) =~= b) by {
        assert forall|i: int| 0 <= i < b.len() implies s[q + i] == b[i] by {
            assert(x[a.len() + i] == b[i]);
        }
    }
}

pub proof fn lemma_stands_byte(s: Seq<u8>, p: int, x: Seq<u8>, i: int)
    requires
        stands(s, p, x),
        0 <= i < x.len(),
    ensures
        s[p + i] == x[i],
{
    assert(s.subrange(p, p + x.len())[i] == s[p + i]);
}

/// Whitespace at `p` is skipped up to a byte that is none.
pub proof fn lemma_gap(s: Seq<u8>, p: int, gap: Seq<u8>)
    requires
        stands(s, p, gap),
        is_gap(gap),
        p + gap.len() < s.len() ==> !is_ws(s[p + gap.len()]),
    ensures
        skip_ws_from(s, p) == p + gap.len(),
{
    lemma_skip_ws_bounds(s, p);
    let q = skip_ws_from(s, p);
    if q < p + gap.len() {
        lemma_stands_byte(s, p, gap, q - p);
    }
}

proof fn lemma_digits(s: Seq<u8>, p: int, d: Seq<u8>)
    requires
        stands(s, p, d),
        forall|i: int| 0 <= i < d.len() ==> 0x30 <= (#[trigger] d[i]) <= 0x39,
        p + d.len() < s.len() ==> !is_digit(s[p + d.len()]),
    ensures
        skip_digits_from(s, p) == p + d.len(),
{
    lemma_skip_digits_bounds(s, p);
    let q = skip_digits_from(s, p);
    if q < p + d.len() {
        lemma_stands_byte(s, p, d, q - p);
    }
}

/// The byte at `q` does not carry a number on.
pub open spec fn stops_number(s: Seq<u8>, q: int) -> bool {
    q < s.len() ==> !(0x30 <= s[q] <= 0x39) && s[q] != 0x2e && s[q] != 0x65 && s[q] != 0x45
}

proof fn lemma_exponent(s: Seq<u8>, p: int, n: JsonNumber)
    requires
        n.valid(),
        stands(s, p, n.exponent_text()),
        stops_number(s, p + n.exponent_text().len()),
    ensures
        number_exponent_end(s, p) == p + n.exponent_text().len(),
        n.exponent_text().len() > 0 ==> !is_digit(n.exponent_text()[0]) && n.exponent_text()[0] != 0x2e,
{
    let x = n.exponent_text();
    match n.exponent {
        Some((marker, Some(sign), d)) => {
            lemma_stands_byte(s, p, x, 0);
            lemma_stands_byte(s, p, x, 1);
            lemma_stands_parts(s, p, seq![marker, sign], d);
            lemma_digits(s, p + 2, d);
        },
        Some((marker, None, d)) => {
            lemma_stands_byte(s, p, x, 0);
            lemma_stands_byte(s, p, x, 1);
            assert(x[1] == d[0]);
            lemma_stands_parts(s, p, seq![marker], d);
            lemma_digits(s, p + 1, d);
        },
        None => {},
    }
}

proof fn lemma_number(s: Seq<u8>, p: int, n: JsonNumber)
    requires
        n.valid(),
        stands(s, p, n.text()),
        stops_number(s, p + n.text().len()),
    ensures
        number_end(s, p) == Some(p + n.text().len()),
        s[p] == 0x2d || 0x30 <= s[p] <= 0x39,
{
    let tail = n.fraction_text() + n.exponent_text();
    lemma_stands_parts(s, p, n.sign_text(), n.whole + tail);
    let w = p + n.sign_text().len();
    lemma_stands_parts(s, w, n.whole, tail);
    let f = w + n.whole.len();
    lemma_stands_parts(s, f, n.fraction_text(), n.exponent_text());
    let e = f + n.fraction_text().len();
    lemma_stands_byte(s, w, n.whole, 0);
    if n.minus {
        lemma_stands_byte(s, p, n.sign_text(), 0);
    }
    lemma_exponent(s, e, n);
    if n.exponent_text().len() > 0 {
        lemma_stands_byte(s, e, n.exponent_text(), 0);
    }
    if let Some(d) = n.fraction {
        lemma_stands_byte(s, f, n.fraction_text(), 0);
        lemma_stands_parts(s, f, seq![0x2eu8], d);
        lemma_digits(s, f + 1, d);
    }
    assert(number_fraction_end(s, f) == e);
    lemma_digits(s, w, n.whole);
    assert(number_sign_end(s, p) == w);
}

// --- strings --------------------------------------------------------

proof fn lemma_hex4(s: Seq<u8>, p: int, h: Seq<u8>)
    requires
        is_hex4(h),
        stands(s, p, h),
    ensures
        hex4_at(s, p) == Some(code_of(h)),
        0 <= code_of(h) <= 0xffff,
{
    assert(s.subrange(p, p + 4) == h);
    assert(hex_value(h[0]) == Some(nibble(h[0]) as u32));
    assert(hex_value(h[1]) == Some(nibble(h[1]) as u32));
    assert(hex_value(h[2]) == Some(nibble(h[2]) as u32));
    assert(hex_value(h[3]) == Some(nibble(h[3]) as u32));
    let h3 = h.drop_last();
    let h2 = h3.drop_last();
    let h1 = h2.drop_last();
    assert(h1.drop_last().len() == 0);
    assert(hex_number(h1.drop_last()) == Some(0int));
    assert(hex_number(h1) == Some(nibble(h[0])));
    assert(hex_number(h2) == Some(nibble(h[0]) * 16 + nibble(h[1])));
    assert(hex_number(h3) == Some((nibble(h[0]) * 16 + nibble(h[1])) * 16 + nibble(h[2])));
}

pub proof fn lemma_item_close(s: Seq<u8>, p: int, item: StringItem)
    requires
        item.valid(),
        stands(s, p, item.text()),
    ensures
        string_close(s, p) == string_close(s, p + item.text().len()),
        item.text().len() > 0,
{
    let x = item.text();
    lemma_stands_byte(s, p, x, 0);
    match item {
        StringItem::Byte(b) => {},
        StringItem::Short(e) => {
            lemma_stands_byte(s, p, x, 1);
        },
        StringItem::Code(h) => {
            lemma_stands_byte(s, p, x, 1);
        },
        StringItem::Lone(h) => {
            lemma_stands_byte(s, p, x, 1);
        },
        StringItem::Pair(h, l) => {
            lemma_stands_byte(s, p, x, 1);
            lemma_stands_byte(s, p, x, 6);
            lemma_stands_byte(s, p, x, 7);
            assert(string_close(s, p) == string_close(s, p + 6));
            assert(string_close(s, p + 6) == string_close(s, p + 12));
        },
    }
}

pub proof fn lemma_items_skip(items: Seq<StringItem>)
    requires
        items_valid(items),
        items.len() > 0,
    ensures
        items_valid(items.skip(1)),
{
    let rest = items.skip(1);
    assert forall|i: int| 0 <= i < rest.len() implies (#[trigger] rest[i]).valid() by {
        assert(rest[i] == items[i + 1]);
    }
    assert forall|i: int, j: int| 0 <= i < rest.len() - 1 && j == i + 1 implies !would_pair(
        #[trigger] rest[i],
        #[trigger] rest[j],
    ) by {
        assert(rest[i] == items[i + 1]);
        assert(rest[j] == items[j + 1]);
    }
}

/// The closing quote is the first one that no escape takes in.
proof fn lemma_items_close(s: Seq<u8>, p: int, items: Seq<StringItem>)
    requires
        items_valid(items),
        stands(s, p, items_text(items)),
        p + items_text(items).len() < s.len(),
        s[p + items_text(items).len()] == 0x22,
    ensures
        string_close(s, p) == Some(p + items_text(items).len()),
    decreases items.len(),
{
    if items.len() > 0 {
        lemma_items_skip(items);
        lemma_stands_parts(s, p, items[0].text(), items_text(items.skip(1)));
        lemma_item_close(s, p, items[0]);
        lemma_items_close(s, p + items[0].text().len(), items.skip(1));
    }
}

/// A lone high surrogate is not followed by a low one.
proof fn lemma_no_low(s: Seq<u8>, p: int, items: Seq<StringItem>)
    requires
        items_valid(items),
        stands(s, p, items_text(items)),
        p + items_text(items).len() == s.len(),
        items.len() > 0 ==> !(items[0] matches StringItem::Lone(l) && code_of(l) >= 0xdc00),
    ensures
        low_surrogate_at(s, p) is None,
{
    if items.len() > 0 {
        let item = items[0];
        let x = item.text();
        lemma_stands_parts(s, p, x, items_text(items.skip(1)));
        lemma_stands_byte(s, p, x, 0);
        match item {
            StringItem::Byte(b) => {},
            StringItem::Short(e) => {
                lemma_stands_byte(s, p, x, 1);
            },
            StringItem::Code(h) => {
                lemma_stands_parts(s, p, seq![0x5cu8, 0x75u8], h);
                lemma_hex4(s, p + 2, h);
            },
            StringItem::Lone(h) => {
                lemma_stands_parts(s, p, seq![0x5cu8, 0x75u8], h);
                lemma_hex4(s, p + 2, h);
            },
            StringItem::Pair(h, l) => {
                lemma_stands_parts(s, p, seq![0x5cu8, 0x75u8] + h, seq![0x5cu8, 0x75u8] + l);
                lemma_stands_parts(s, p, seq![0x5cu8, 0x75u8], h);
                lemma_hex4(s, p + 2, h);
            },
        }
    }
}

proof fn lemma_escape_parts(s: Seq<u8>, p: int, h: Seq<u8>)
    requires
        is_hex4(h),
        stands(s, p, seq![0x5cu8, 0x75u8] + h),
    ensures
        s[p] == 0x5c,
        s[p + 1] == 0x75,
        hex4_at(s, p + 2) == Some(code_of(h)),
        0 <= code_of(h) <= 0xffff,
        p + 6 <= s.len(),
{
    let x = seq![0x5cu8, 0x75u8] + h;
    lemma_stands_byte(s, p, x, 0);
    lemma_stands_byte(s, p, x, 1);
    lemma_stands_parts(s, p, seq![0x5cu8, 0x75u8], h);
    lemma_hex4(s, p + 2, h);
}

proof fn lemma_pair_meaning(s: Seq<u8>, p: int, h: Seq<u8>, l: Seq<u8>)
    requires
        StringItem::Pair(h, l).valid(),
        stands(s, p, StringItem::Pair(h, l).text()),
    ensures
        decode_item(s, p) == Ok::<(Seq<u8>, int), int>((StringItem::Pair(h, l).meaning(), 12)),
{
    lemma_stands_parts(s, p, seq![0x5cu8, 0x75u8] + h, seq![0x5cu8, 0x75u8] + l);
    lemma_escape_parts(s, p, h);
    lemma_escape_parts(s, p + 6, l);
    assert(low_surrogate_at(s, p + 6) == Some(code_of(l)));
    assert(65536 + 1024 * (code_of(h) - 0xd800) + (code_of(l) - 0xdc00) == 0x10000 + (code_of(h) - 0xd800) * 0x400 + (
    code_of(l) - 0xdc00));
}

proof fn lemma_code_meaning(s: Seq<u8>, p: int, h: Seq<u8>)
    requires
        is_hex4(h),
        stands(s, p, seq![0x5cu8, 0x75u8] + h),
        0xd800 <= code_of(h) < 0xdc00 ==> low_surrogate_at(s, p + 6) is None,
    ensures
        decode_item(s, p) == Ok::<(Seq<u8>, int), int>(
            (
                if 0xd800 <= code_of(h) < 0xe000 {
                    StringItem::Lone(h).meaning()
                } else {
                    StringItem::Code(h).meaning()
                },
                6,
            ),
        ),
{
    lemma_escape_parts(s, p, h);
}

proof fn lemma_item_meaning(s: Seq<u8>, p: int, items: Seq<StringItem>)
    requires
        items_valid(items),
        items.len() > 0,
        stands(s, p, items_text(items)),
        p + items_text(items).len() == s.len(),
    ensures
        decode_item(s, p) == Ok::<(Seq<u8>, int), int>((items[0].meaning(), items[0].text().len() as int)),
{
    let item = items[0];
    let x = item.text();
    lemma_stands_parts(s, p, x, items_text(items.skip(1)));
    assert(item.valid());
    match item {
        StringItem::Byte(b) => {
            lemma_stands_byte(s, p, x, 0);
        },
        StringItem::Short(e) => {
            lemma_stands_byte(s, p, x, 0);
            lemma_stands_byte(s, p, x, 1);
        },
        StringItem::Code(h) => {
            lemma_code_meaning(s, p, h);
        },
        StringItem::Lone(h) => {
            if code_of(h) < 0xdc00 {
                lemma_items_skip(items);
                if items.len() > 1 {
                    assert(items.skip(1)[0] == items[1]);
                    assert(!would_pair(items[0], items[1]));
                }
                lemma_no_low(s, p + 6, items.skip(1));
            }
            lemma_code_meaning(s, p, h);
        },
        StringItem::Pair(h, l) => {
            lemma_pair_meaning(s, p, h, l);
        },
    }
}

/// The contents of a string decode to what its items mean.
proof fn lemma_items_meaning(s: Seq<u8>, p: int, items: Seq<StringItem>)
    requires
        items_valid(items),
        stands(s, p, items_text(items)),
        p + items_text(items).len() == s.len(),
    ensures
        decode_escapes(s, p) == Ok::<Seq<u8>, int>(items_meaning(items)),
    decreases items.len(),
{
    if items.len() > 0 {
        lemma_items_skip(items);
        lemma_item_meaning(s, p, items);
        lemma_stands_parts(s, p, items[0].text(), items_text(items.skip(1)));
        lemma_items_meaning(s, p + items[0].text().len(), items.skip(1));
    }
}

// --- what parsing adds ----------------------------------------------

/// `e` is the entry that `m` describes, its key looked up in `names`.
pub open spec fn is_mark(e: PathEntry, names: Seq<Seq<u8>>, m: Mark) -> bool {
    &&& e.start == m.start
    &&& e.end == m.end
    &&& e.parent == m.parent
    &&& match m.label {
        Label::Key(name) => e.segment matches PathSegment::Key(id) && id < names.len() && names[id as int] == name,
        Label::Index(k) => e.segment matches PathSegment::Index(i) && i == k,
        Label::Element(name) => e.segment matches PathSegment::Element { name: id, .. } && id < names.len()
            && names[id as int] == name,
        Label::Attribute(name) => e.segment matches PathSegment::Attribute(id) && id < names.len() && names[id as int]
            == name,
    }
}

/// `names` keeps its numbers in `more`.
pub open spec fn names_kept(names: Seq<Seq<u8>>, more: Seq<Seq<u8>>) -> bool {
    &&& names.len() <= more.len()
    &&& forall|i: int| 0 <= i < names.len() ==> (#[trigger] names[i]) == more[i]
}

/// From `st` parsing went on to `pos` and added these spans and entries.
pub open spec fn reaches(st: ScanState, to: ScanState, pos: int, spans: Seq<StyleSpan>, marks: Seq<Mark>) -> bool {
    let n = st.paths.len() as int;
    &&& to.pos == pos
    &&& to.styles == st.styles + spans
    &&& to.paths.len() == n + marks.len()
    &&& forall|i: int| 0 <= i < n ==> (#[trigger] to.paths[i]) == st.paths[i]
    &&& forall|i: int| 0 <= i < marks.len() ==> is_mark(#[trigger] to.paths[n + i], to.names, marks[i])
    &&& names_kept(st.names, to.names)
    &&& to.names.len() <= to.paths.len()
}

/// Names that keep their numbers still name the entry.
pub proof fn lemma_mark_kept(e: PathEntry, names: Seq<Seq<u8>>, more: Seq<Seq<u8>>, m: Mark)
    requires
        is_mark(e, names, m),
        names_kept(names, more),
    ensures
        is_mark(e, more, m),
{
    match e.segment {
        PathSegment::Key(id) => {
            assert(m.label is Key ==> names[id as int] == more[id as int]);
        },
        PathSegment::Element { name: id, .. } => {
            assert(m.label is Element ==> names[id as int] == more[id as int]);
        },
        PathSegment::Attribute(id) => {
            assert(m.label is Attribute ==> names[id as int] == more[id as int]);
        },
        _ => {},
    }
}

pub proof fn lemma_reaches_trans(
    a: ScanState,
    b: ScanState,
    c: ScanState,
    bpos: int,
    cpos: int,
    sp1: Seq<StyleSpan>,
    sp2: Seq<StyleSpan>,
    m1: Seq<Mark>,
    m2: Seq<Mark>,
)
    requires
        reaches(a, b, bpos, sp1, m1),
        reaches(b, c, cpos, sp2, m2),
    ensures
        reaches(a, c, cpos, sp1 + sp2, m1 + m2),
{
    let n = a.paths.len() as int;
    assert(c.styles =~= a.styles + (sp1 + sp2));
    assert forall|i: int| 0 <= i < n implies (#[trigger] c.paths[i]) == a.paths[i] by {
        assert(c.paths[i] == b.paths[i]);
    }
    let m = m1 + m2;
    assert forall|i: int| 0 <= i < m.len() implies is_mark(#[trigger] c.paths[n + i], c.names, m[i]) by {
        if i < m1.len() {
            assert(c.paths[n + i] == b.paths[n + i]);
            assert(is_mark(b.paths[n + i], b.names, m1[i]));
            assert(m[i] == m1[i]);
            lemma_mark_kept(b.paths[n + i], b.names, c.names, m1[i]);
        } else {
            let k = i - m1.len();
            assert(c.paths[b.paths.len() + k] == c.paths[n + i]);
            assert(m[i] == m2[k]);
        }
    }
    assert forall|i: int| 0 <= i < a.names.len() implies (#[trigger] a.names[i]) == c.names[i] by {
        assert(b.names[i] == a.names[i]);
    }
}

/// An entry that was opened, filled and closed is a mark before those of
/// its contents.
pub proof fn lemma_entry_closed(
    st: ScanState,
    opened: ScanState,
    to: ScanState,
    mark: Mark,
    pos: int,
    spans: Seq<StyleSpan>,
    marks: Seq<Mark>,
)
    requires
        opened.paths.len() == st.paths.len() + 1,
        forall|i: int| 0 <= i < st.paths.len() ==> (#[trigger] opened.paths[i]) == st.paths[i],
        names_kept(st.names, opened.names),
        reaches(opened, to, pos, spans, marks),
        is_mark(
            PathEntry { end: pos as u32, ..opened.paths[st.paths.len() as int] },
            opened.names,
            mark,
        ),
        0 <= pos <= u32::MAX,
    ensures
        reaches(
            ScanState { styles: opened.styles, ..st },
            to.closed_at(st.paths.len() as int, pos),
            pos,
            spans,
            seq![mark] + marks,
        ),
{
    let n = st.paths.len() as int;
    let c = to.closed_at(n, pos);
    let m = seq![mark] + marks;
    assert(to.paths[n] == opened.paths[n]);
    assert forall|i: int| 0 <= i < n implies (#[trigger] c.paths[i]) == st.paths[i] by {
        assert(to.paths[i] == opened.paths[i]);
    }
    assert forall|i: int| 0 <= i < m.len() implies is_mark(#[trigger] c.paths[n + i], c.names, m[i]) by {
        if i == 0 {
            lemma_mark_kept(PathEntry { end: pos as u32, ..opened.paths[n] }, opened.names, to.names, mark);
        } else {
            assert(to.paths[opened.paths.len() + (i - 1)] == c.paths[n + i]);
            assert(m[i] == marks[i - 1]);
        }
    }
    assert forall|i: int| 0 <= i < st.names.len() implies (#[trigger] st.names[i]) == c.names[i] by {
        assert(opened.names[i] == st.names[i]);
    }
}

/// There is room for `more` entries and their offsets.
pub open spec fn roomy(s: Seq<u8>, st: ScanState, more: int) -> bool {
    &&& s.len() < u32::MAX
    &&& st.paths.len() + more <= u32::MAX
    &&& st.names.len() <= st.paths.len()
}

proof fn lemma_word(s: Seq<u8>, p: int, word: Seq<u8>, k: int)
    requires
        stands(s, p, word),
        0 <= k <= word.len(),
    ensures
        literal_match(s, p, word, k) == word.len(),
    decreases word.len() - k,
{
    if k < word.len() {
        lemma_stands_byte(s, p, word, k);
        lemma_word(s, p, word, k + 1);
    }
}

/// One span and no entries.
pub proof fn lemma_one_span(st: ScanState, p: int, end: int, kind: StyleKind)
    requires
        st.names.len() <= st.paths.len(),
    ensures
        reaches(
            st,
            st.styled(p, end, kind).at(end),
            end,
            seq![StyleSpan { start: p as u32, end: end as u32, kind }],
            Seq::empty(),
        ),
{
    let span = StyleSpan { start: p as u32, end: end as u32, kind };
    assert(st.styles.push(span) =~= st.styles + seq![span]);
}

/// A written value is read from `st`, which stands in the whitespace
/// before it.
pub proof fn lemma_value(s: Seq<u8>, st: ScanState, p: int, t: JsonText, this: int)
    requires
        t.valid(),
        stands(s, p, t.text()),
        0 <= st.pos <= p,
        stands(s, st.pos, s.subrange(st.pos, p)),
        is_gap(s.subrange(st.pos, p)),
        t is Number ==> stops_number(s, p + t.text().len()),
        roomy(s, st, t.text().len() as int),
        0 <= this <= u32::MAX,
    ensures
        json_value(s, st, this as u32).err is None,
        reaches(
            st,
            json_value(s, st, this as u32).st,
            p + t.text().len(),
            t.spans(p),
            t.marks(p, this, st.paths.len() as int),
        ),
        t.marks(p, this, st.paths.len() as int).len() < t.text().len(),
    decreases t, 0int,
{
    let x = t.text();
    let end = p + x.len();
    if let JsonText::Number(n) = t {
        lemma_number(s, p, n);
    } else {
        lemma_stands_byte(s, p, x, 0);
    }
    lemma_gap(s, st.pos, s.subrange(st.pos, p));
    let st1 = st.at(p);
    match t {
        JsonText::Null => {
            lemma_word(s, p, x, 0);
            assert(crate::format::json::word_null() =~= x);
            lemma_one_span(st1, p, end, StyleKind::Null);
        },
        JsonText::True => {
            lemma_word(s, p, x, 0);
            assert(crate::format::json::word_true() =~= x);
            lemma_one_span(st1, p, end, StyleKind::Bool);
        },
        JsonText::False => {
            lemma_word(s, p, x, 0);
            assert(crate::format::json::word_false() =~= x);
            lemma_one_span(st1, p, end, StyleKind::Bool);
        },
        JsonText::Number(n) => {
            lemma_one_span(st1, p, end, StyleKind::Number);
        },
        JsonText::Text(items) => {
            lemma_quoted(s, p, items);
            lemma_one_span(st1, p, end, StyleKind::String);
        },
        JsonText::EmptyArray(gap) => {
            lemma_stands_parts(s, p, seq![0x5bu8], gap + seq![0x5du8]);
            lemma_stands_parts(s, p + 1, gap, seq![0x5du8]);
            lemma_stands_byte(s, p + 1 + gap.len(), seq![0x5du8], 0);
            lemma_gap(s, p + 1, gap);
            assert(st.styles + Seq::<StyleSpan>::empty() =~= st.styles);
        },
        JsonText::EmptyObject(gap) => {
            lemma_stands_parts(s, p, seq![0x7bu8], gap + seq![0x7du8]);
            lemma_stands_parts(s, p + 1, gap, seq![0x7du8]);
            lemma_stands_byte(s, p + 1 + gap.len(), seq![0x7du8], 0);
            lemma_gap(s, p + 1, gap);
            assert(st.styles + Seq::<StyleSpan>::empty() =~= st.styles);
        },
        JsonText::Array(elements) => {
            lemma_stands_parts(s, p, seq![0x5bu8], elements.text());
            lemma_array_open(s, st1, this, *elements);
            lemma_elements(s, st.at(p + 1), this, 0, *elements);
            assert(reaches(
                st,
                json_value(s, st, this as u32).st,
                end,
                t.spans(p),
                t.marks(p, this, st.paths.len() as int),
            ));
        },
        JsonText::Object(members) => {
            lemma_stands_parts(s, p, seq![0x7bu8], members.text());
            lemma_object_open(s, st1, this, *members);
            lemma_members(s, st.at(p + 1), this, *members);
            assert(reaches(
                st,
                json_value(s, st, this as u32).st,
                end,
                t.spans(p),
                t.marks(p, this, st.paths.len() as int),
            ));
        },
    }
}

pub proof fn lemma_quoted(s: Seq<u8>, p: int, items: Seq<StringItem>)
    requires
        items_valid(items),
        stands(s, p, quoted(items)),
    ensures
        s[p] == 0x22,
        string_close(s, p + 1) == Some(p + quoted(items).len() - 1),
        decode_escapes(s.subrange(p + 1, p + quoted(items).len() - 1), 0) == Ok::<Seq<u8>, int>(items_meaning(items)),
{
    let text = items_text(items);
    lemma_stands_byte(s, p, quoted(items), 0);
    lemma_stands_parts(s, p, seq![0x22u8], text + seq![0x22u8]);
    lemma_stands_parts(s, p + 1, text, seq![0x22u8]);
    lemma_stands_byte(s, p + 1 + text.len(), seq![0x22u8], 0);
    lemma_items_close(s, p + 1, items);
    let inner = s.subrange(p + 1, p + quoted(items).len() - 1);
    assert(inner == text);
    assert(inner.subrange(0, text.len() as int) =~= text);
    lemma_items_meaning(inner, 0, items);
}

/// The first byte of a written value is no whitespace and closes nothing.
pub proof fn lemma_first_byte(t: JsonText)
    requires
        t.valid(),
    ensures
        t.text().len() > 0,
        !is_ws(t.text()[0]),
        t.text()[0] != 0x5d,
        t.text()[0] != 0x7d,
{
    if let JsonText::Number(n) = t {
        if n.minus {
            assert(n.text()[0] == n.sign_text()[0]);
        } else {
            assert(n.text()[0] == n.whole[0]);
        }
    }
}

/// Where the first element starts, an array goes on with its elements.
proof fn lemma_array_open(s: Seq<u8>, st: ScanState, this: int, elements: JsonElements)
    requires
        elements.valid(),
        0 <= st.pos < s.len(),
        stands(s, st.pos + 1, elements.text()),
    ensures
        json_array(s, st, this as u32) == json_elements(s, st.at(st.pos + 1), this as u32, 0),
{
    let p = st.pos + 1;
    let (before, value) = match elements {
        JsonElements::Last(before, value, behind) => (before, value),
        JsonElements::More(before, value, behind, rest) => (before, value),
    };
    let tail = elements.text().skip((before.len() + value.text().len()) as int);
    assert(elements.text() =~= before + (value.text() + tail));
    lemma_stands_parts(s, p, before, value.text() + tail);
    let q = p + before.len();
    lemma_first_byte(value);
    lemma_stands_byte(s, q, value.text() + tail, 0);
    lemma_gap(s, p, before);
    lemma_skip_ws_bounds(s, q);
    assert(skip_ws_from(s, q) == q);
    assert(st.at(p).at(q) == st.at(q));
    assert(st.at(q).at(q) == st.at(q));
}

/// Where the first key starts, an object goes on with its members.
proof fn lemma_object_open(s: Seq<u8>, st: ScanState, this: int, members: JsonMembers)
    requires
        members.valid(),
        0 <= st.pos < s.len(),
        stands(s, st.pos + 1, members.text()),
    ensures
        json_object(s, st, this as u32) == json_fields(s, st.at(st.pos + 1), this as u32),
{
    let p = st.pos + 1;
    let m = match members {
        JsonMembers::Last(m) => m,
        JsonMembers::More(m, rest) => m,
    };
    assert(m.valid());
    let tail = members.text().skip((m.before_key.len() + quoted(m.key).len()) as int);
    assert(members.text() =~= m.before_key + (quoted(m.key) + tail));
    lemma_stands_parts(s, p, m.before_key, quoted(m.key) + tail);
    let q = p + m.before_key.len();
    lemma_stands_byte(s, q, quoted(m.key) + tail, 0);
    lemma_gap(s, p, m.before_key);
    lemma_skip_ws_bounds(s, q);
    assert(skip_ws_from(s, q) == q);
    assert(st.at(p).at(q) == st.at(q));
    assert(st.at(q).at(q) == st.at(q));
    assert(st.at(p).styled(q, string_close(s, q + 1)->Some_0 + 1, StyleKind::Key) == st.at(q).styled(
        q,
        string_close(s, q + 1)->Some_0 + 1,
        StyleKind::Key,
    ).at(p));
}

/// A comma or closing bracket ends a number, as whitespace does.
proof fn lemma_stop(s: Seq<u8>, q: int, gap: Seq<u8>, b: u8)
    requires
        is_gap(gap),
        stands(s, q, gap),
        q + gap.len() < s.len(),
        s[q + gap.len()] == b,
        b == 0x2c || b == 0x5d || b == 0x7d,
    ensures
        stops_number(s, q),
        skip_ws_from(s, q) == q + gap.len(),
{
    if gap.len() > 0 {
        lemma_stands_byte(s, q, gap, 0);
    }
    lemma_gap(s, q, gap);
}

/// One element is read, up to what follows it.
pub proof fn lemma_element(
    s: Seq<u8>,
    st: ScanState,
    this: int,
    index: int,
    before: Seq<u8>,
    value: JsonText,
    behind: Seq<u8>,
    b: u8,
)
    requires
        is_gap(before),
        value.valid(),
        is_gap(behind),
        stands(s, st.pos, before),
        stands(s, st.pos + before.len(), value.text()),
        stands(s, st.pos + before.len() + value.text().len(), behind + seq![b]),
        b == 0x2c || b == 0x5d,
        roomy(s, st, value.text().len() as int + 1),
        0 <= this <= u32::MAX,
        0 <= index <= u32::MAX,
    ensures
        ({
            let q = st.pos + before.len();
            let end = q + value.text().len();
            let marks = seq![Mark { start: q, end, parent: this, label: Label::Index(index) }] + value.marks(
                q,
                st.paths.len() as int,
                st.paths.len() as int + 1,
            );
            let opened = st.at(q).opened(q, this as u32, PathSegment::Index(index as u32));
            let v = json_value(s, opened, st.paths.len() as u32);
            let c = v.st.closed_at(st.paths.len() as int, v.st.pos);
            &&& json_elements(s, st, this as u32, index) == json_after_element(s, c, this as u32, index)
            &&& reaches(st, c, end, value.spans(q), marks)
            &&& skip_ws_from(s, end) == end + behind.len()
            &&& s[end + behind.len()] == b
            &&& marks.len() <= value.text().len()
        }),
    decreases value, 1int,
{
    let q = st.pos + before.len();
    let end = q + value.text().len();
    let n = st.paths.len() as int;
    let opened = st.at(q).opened(q, this as u32, PathSegment::Index(index as u32));
    lemma_first_byte(value);
    lemma_stands_byte(s, q, value.text(), 0);
    lemma_gap(s, st.pos, before);
    lemma_stands_parts(s, end, behind, seq![b]);
    lemma_stands_byte(s, end + behind.len(), seq![b], 0);
    lemma_stop(s, end, behind, b);
    assert(s.subrange(q, q) =~= Seq::empty());
    lemma_value(s, opened, q, value, n);
    let v = json_value(s, opened, n as u32);
    let mark = Mark { start: q, end, parent: this, label: Label::Index(index) };
    lemma_entry_closed(st, opened, v.st, mark, end, value.spans(q), value.marks(q, n, n + 1));
    assert(ScanState { styles: opened.styles, ..st } == st);
}

proof fn lemma_elements(s: Seq<u8>, st: ScanState, this: int, index: int, elements: JsonElements)
    requires
        elements.valid(),
        stands(s, st.pos, elements.text()),
        roomy(s, st, elements.text().len() as int),
        0 <= this <= u32::MAX,
        0 <= index <= st.paths.len(),
    ensures
        json_elements(s, st, this as u32, index).err is None,
        reaches(
            st,
            json_elements(s, st, this as u32, index).st,
            st.pos + elements.text().len(),
            elements.spans(st.pos),
            elements.marks(st.pos, this, st.paths.len() as int, index),
        ),
        elements.marks(st.pos, this, st.paths.len() as int, index).len() < elements.text().len(),
    decreases elements, 0int,
{
    let p = st.pos;
    let n = st.paths.len() as int;
    match elements {
        JsonElements::Last(before, value, behind) => {
            lemma_stands_parts(s, p, before, value.text() + (behind + seq![0x5du8]));
            let q = p + before.len();
            lemma_stands_parts(s, q, value.text(), behind + seq![0x5du8]);
            lemma_element(s, st, this, index, before, value, behind, 0x5d);
        },
        JsonElements::More(before, value, behind, rest) => {
            let tail = seq![0x2cu8] + rest.text();
            lemma_stands_parts(s, p, before, value.text() + (behind + tail));
            let q = p + before.len();
            lemma_stands_parts(s, q, value.text(), behind + tail);
            let end = q + value.text().len();
            assert(behind + tail =~= (behind + seq![0x2cu8]) + rest.text());
            lemma_stands_parts(s, end, behind + seq![0x2cu8], rest.text());
            lemma_element(s, st, this, index, before, value, behind, 0x2c);
            let opened = st.at(q).opened(q, this as u32, PathSegment::Index(index as u32));
            let v = json_value(s, opened, n as u32);
            let c = v.st.closed_at(n, v.st.pos);
            let m1 = seq![Mark { start: q, end, parent: this, label: Label::Index(index) }] + value.marks(q, n, n + 1);
            let next = c.at(end + behind.len() + 1);
            lemma_elements(s, next, this, index + 1, *rest);
            let last = json_elements(s, next, this as u32, index + 1).st;
            let m2 = rest.marks(next.pos, this, next.paths.len() as int, index + 1);
            assert(reaches(st, next, next.pos, value.spans(q), m1));
            lemma_reaches_trans(
                st,
                next,
                last,
                next.pos,
                next.pos + rest.text().len(),
                value.spans(q),
                rest.spans(next.pos),
                m1,
                m2,
            );
        },
    }
}

pub proof fn lemma_interned_name(names: Seq<Seq<u8>>, name: Seq<u8>)
    ensures
        0 <= intern_id(names, name) < interned(names, name).len(),
        interned(names, name)[intern_id(names, name)] == name,
        names_kept(names, interned(names, name)),
        interned(names, name).len() <= names.len() + 1,
{
}

/// The parts of a member up to its value.
pub proof fn lemma_member_head(s: Seq<u8>, from: int, m: JsonMember)
    requires
        m.valid(),
        stands(s, from, m.head()),
    ensures
        ({
            let p = from + m.before_key.len();
            let close = p + quoted(m.key).len() - 1;
            let colon = close + 1 + m.behind_key.len();
            &&& skip_ws_from(s, from) == p
            &&& byte_at(s, p) == Some(0x22u8)
            &&& string_close(s, p + 1) == Some(close)
            &&& decode_escapes(s.subrange(p + 1, close), 0) == Ok::<Seq<u8>, int>(items_meaning(m.key))
            &&& skip_ws_from(s, close + 1) == colon
            &&& byte_at(s, colon) == Some(0x3au8)
            &&& from + m.head().len() == colon + 1 + m.before_value.len()
            &&& s.subrange(colon + 1, from + m.head().len()) == m.before_value
            &&& p < close < colon < s.len()
        }),
{
    let p = from + m.before_key.len();
    let close = p + quoted(m.key).len() - 1;
    let colon = close + 1 + m.behind_key.len();
    let colon_text = seq![0x3au8] + m.before_value;
    lemma_stands_parts(s, from, m.before_key, quoted(m.key) + (m.behind_key + colon_text));
    lemma_stands_parts(s, p, quoted(m.key), m.behind_key + colon_text);
    lemma_stands_parts(s, close + 1, m.behind_key, colon_text);
    lemma_stands_parts(s, colon, seq![0x3au8], m.before_value);
    lemma_stands_byte(s, colon, seq![0x3au8], 0);
    lemma_quoted(s, p, m.key);
    lemma_gap(s, from, m.before_key);
    lemma_gap(s, close + 1, m.behind_key);
}

/// The state in which the value of a member is read.
pub open spec fn member_opened(st: ScanState, this: int, m: JsonMember) -> ScanState {
    let name = items_meaning(m.key);
    let p = st.pos + m.before_key.len();
    let close = p + quoted(m.key).len() - 1;
    st.styled(p, close + 1, StyleKind::Key).at(close + 1).with_name(name).opened(
        p,
        this as u32,
        PathSegment::Key(intern_id(st.names, name) as u32),
    ).at(close + 2 + m.behind_key.len())
}

pub proof fn lemma_member_step(s: Seq<u8>, st: ScanState, this: int, m: JsonMember)
    requires
        m.valid(),
        stands(s, st.pos, m.head()),
        ({
            let v = json_value(s, member_opened(st, this, m), st.paths.len() as u32);
            v.err is None && st.pos + m.head().len() < v.st.pos <= s.len()
        }),
    ensures
        ({
            let v = json_value(s, member_opened(st, this, m), st.paths.len() as u32);
            json_fields(s, st, this as u32) == json_after_field(
                s,
                v.st.closed_at(st.paths.len() as int, v.st.pos),
                this as u32,
            )
        }),
{
    lemma_member_head(s, st.pos, m);
    let name = items_meaning(m.key);
    let p = st.pos + m.before_key.len();
    let close = p + quoted(m.key).len() - 1;
    let colon = close + 1 + m.behind_key.len();
    let opened = st.styled(p, close + 1, StyleKind::Key).at(close + 1).with_name(name).opened(
        p,
        this as u32,
        PathSegment::Key(intern_id(st.names, name) as u32),
    ).at(colon);
    assert(opened.at(colon + 1) == member_opened(st, this, m));
}

/// One member is read, up to what follows it.
pub proof fn lemma_member(s: Seq<u8>, st: ScanState, this: int, m: JsonMember, b: u8)
    requires
        m.valid(),
        stands(s, st.pos, m.head()),
        stands(s, st.pos + m.head().len(), m.value.text()),
        stands(s, st.pos + m.head().len() + m.value.text().len(), m.behind_value + seq![b]),
        b == 0x2c || b == 0x7d,
        roomy(s, st, m.value.text().len() as int + 1),
        0 <= this <= u32::MAX,
    ensures
        ({
            let end = st.pos + m.head().len() + m.value.text().len();
            let v = json_value(s, member_opened(st, this, m), st.paths.len() as u32);
            let c = v.st.closed_at(st.paths.len() as int, v.st.pos);
            &&& json_fields(s, st, this as u32) == json_after_field(s, c, this as u32)
            &&& reaches(st, c, end, m.spans(st.pos), m.marks(st.pos, this, st.paths.len() as int))
            &&& skip_ws_from(s, end) == end + m.behind_value.len()
            &&& s[end + m.behind_value.len()] == b
            &&& m.marks(st.pos, this, st.paths.len() as int).len() <= m.value.text().len()
        }),
    decreases m, 1int,
{
    let n = st.paths.len() as int;
    let q = st.pos + m.head().len();
    let end = q + m.value.text().len();
    let name = items_meaning(m.key);
    lemma_member_head(s, st.pos, m);
    lemma_stands_parts(s, end, m.behind_value, seq![b]);
    lemma_stands_byte(s, end + m.behind_value.len(), seq![b], 0);
    lemma_stop(s, end, m.behind_value, b);
    lemma_interned_name(st.names, name);
    let inner = member_opened(st, this, m);
    lemma_value(s, inner, q, m.value, n);
    lemma_first_byte(m.value);
    lemma_member_step(s, st, this, m);
    let v = json_value(s, inner, n as u32);
    let p = st.pos + m.before_key.len();
    let mark = Mark { start: p, end, parent: this, label: Label::Key(name) };
    lemma_entry_closed(st, inner, v.st, mark, end, m.value.spans(q), m.value.marks(q, n, n + 1));
    let c = v.st.closed_at(n, v.st.pos);
    let span = StyleSpan { start: p as u32, end: (p + quoted(m.key).len()) as u32, kind: StyleKind::Key };
    assert(inner.styles =~= st.styles + seq![span]);
    assert(c.styles =~= st.styles + m.spans(st.pos));
}

proof fn lemma_members(s: Seq<u8>, st: ScanState, this: int, members: JsonMembers)
    requires
        members.valid(),
        stands(s, st.pos, members.text()),
        roomy(s, st, members.text().len() as int),
        0 <= this <= u32::MAX,
    ensures
        json_fields(s, st, this as u32).err is None,
        reaches(
            st,
            json_fields(s, st, this as u32).st,
            st.pos + members.text().len(),
            members.spans(st.pos),
            members.marks(st.pos, this, st.paths.len() as int),
        ),
        members.marks(st.pos, this, st.paths.len() as int).len() < members.text().len(),
    decreases members, 0int,
{
    let p = st.pos;
    let n = st.paths.len() as int;
    match members {
        JsonMembers::Last(m) => {
            let q = p + m.head().len();
            let end = q + m.value.text().len();
            lemma_stands_parts(s, p, m.head(), m.value.text() + (m.behind_value + seq![0x7du8]));
            lemma_stands_parts(s, q, m.value.text(), m.behind_value + seq![0x7du8]);
            lemma_member(s, st, this, m, 0x7d);
            let v = json_value(s, member_opened(st, this, m), n as u32);
            let c = v.st.closed_at(n, v.st.pos);
            assert(json_after_field(s, c, this as u32) == c.at(end + m.behind_value.len() + 1).done());
        },
        JsonMembers::More(m, rest) => {
            let q = p + m.head().len();
            let end = q + m.value.text().len();
            let tail = seq![0x2cu8] + rest.text();
            lemma_stands_parts(s, p, m.head(), m.value.text() + (m.behind_value + tail));
            lemma_stands_parts(s, q, m.value.text(), m.behind_value + tail);
            assert(m.behind_value + tail =~= (m.behind_value + seq![0x2cu8]) + rest.text());
            lemma_stands_parts(s, end, m.behind_value + seq![0x2cu8], rest.text());
            lemma_member(s, st, this, m, 0x2c);
            let m1 = m.marks(p, this, n);
            let v = json_value(s, member_opened(st, this, m), n as u32);
            let c = v.st.closed_at(n, v.st.pos);
            let next = c.at(end + m.behind_value.len() + 1);
            assert(json_after_field(s, c, this as u32) == json_fields(s, next, this as u32));
            lemma_members(s, next, this, *rest);
            let last = json_fields(s, next, this as u32).st;
            assert(reaches(st, next, next.pos, m.spans(p), m1));
            lemma_reaches_trans(
                st,
                next,
                last,
                next.pos,
                next.pos + rest.text().len(),
                m.spans(p),
                rest.spans(next.pos),
                m1,
                rest.marks(next.pos, this, next.paths.len() as int),
            );
        },
    }
}

/// Every JSON text, whatever its whitespace, number forms and escapes, is
/// read without an error: the words `true`, `false` and `null`, numbers,
/// strings and keys get a span of their kind, and each element and member
/// an entry with its range, its parent, and its number or decoded key.
/// Whatever follows a value other than a number is ignored.
pub proof fn law_json_reads_text(before: Seq<u8>, t: JsonText, behind: Seq<u8>)
    requires
        is_gap(before),
        t.valid(),
        t is Number ==> stops_number(behind, 0),
        before.len() + t.text().len() + behind.len() < u32::MAX,
    ensures
        ({
            let s = before + (t.text() + behind);
            let marks = t.marks(before.len() as int, 0, 1);
            let doc = json_document(s);
            &&& doc.err is None
            &&& doc.st.styles == t.spans(before.len() as int)
            &&& doc.st.paths.len() == 1 + marks.len()
            &&& doc.st.paths[0] == PathEntry {
                start: 0,
                end: s.len() as u32,
                parent: u32::MAX,
                segment: PathSegment::Root,
            }
            &&& forall|i: int|
                1 <= i < doc.st.paths.len() ==> is_mark(#[trigger] doc.st.paths[i], doc.st.names, marks[i - 1])
        }),
{
    let s = before + (t.text() + behind);
    let p = before.len() as int;
    let rooted = ScanState::empty().opened(0, ROOT_PARENT, PathSegment::Root);
    assert(s.subrange(0, s.len() as int) =~= s);
    lemma_stands_parts(s, 0, before, t.text() + behind);
    lemma_stands_parts(s, p, t.text(), behind);
    assert(s.subrange(0, p) =~= before);
    if behind.len() > 0 {
        assert(s[p + t.text().len()] == behind[0]);
    }
    lemma_value(s, rooted, p, t, 0);
    let v = json_value(s, rooted, 0);
    let doc = json_document(s);
    let marks = t.marks(p, 0, 1);
    assert(doc.st.styles =~= t.spans(p));
    assert(v.st.paths[0] == rooted.paths[0]);
    assert forall|i: int| 1 <= i < doc.st.paths.len() implies is_mark(
        #[trigger] doc.st.paths[i],
        doc.st.names,
        marks[i - 1],
    ) by {
        assert(is_mark(v.st.paths[1 + (i - 1)], v.st.names, marks[i - 1]));
        assert(doc.st.paths[i] == v.st.paths[i]);
    }
}

} // verus!
