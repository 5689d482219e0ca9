//! Law of XML parsing: every written XML document is read as its
//! elements and attributes.

use vstd::prelude::*;

use crate::bytes::{find_from, index_from, is_ws, lemma_find_from, lemma_index_from, occurs_at, past_byte, skip_ws_from};
use crate::format::cursor::byte_at;
use crate::format::json_text::{
    is_gap, is_mark, lemma_entry_closed, lemma_gap, lemma_one_span, lemma_reaches_trans,
    lemma_stands_byte, lemma_stands_parts, names_kept, reaches, stands, Label, Mark,
};
use crate::format::xml::{
    attr_value, attr_value_end, cdata_close, cdata_open, close_frames, closed_by, comment_close, comment_open,
    doctype_end, is_name_char, is_name_start, lemma_name_end, matching_frame, name_end, pi_close, sibling_count,
    unique_siblings_fixed, unquoted_end, xml_attribute, xml_attributes, xml_close_tag, xml_content, xml_document,
    xml_markup, xml_open_tag, xml_span, XmlState, XmlStep,
};
use crate::format::xml_laws::{law_sibling_index, law_xml_names};
use crate::format::{
    intern_id, interned, PathEntry, PathSegment, ScanState, StyleKind, StyleSpan, ROOT_PARENT,
};

verus! {

// --- written XML ----------------------------------------------------

/// Letters, underscore, colon and everything beyond ASCII.
pub open spec fn starts_name(b: u8) -> bool {
    0x41 <= b <= 0x5a || 0x61 <= b <= 0x7a || b == 0x5f || b == 0x3a || b >= 0x80
}

/// Also digits, hyphen and dot.
pub open spec fn in_name(b: u8) -> bool {
    starts_name(b) || 0x30 <= b <= 0x39 || b == 0x2d || b == 0x2e
}

pub open spec fn is_name(n: Seq<u8>) -> bool {
    &&& n.len() > 0
    &&& starts_name(n[0])
    &&& forall|i: int| 0 <= i < n.len() ==> in_name(#[trigger] n[i])
}

/// `pat` does not occur in `body` followed by itself before that.
pub open spec fn free_of(body: Seq<u8>, pat: Seq<u8>) -> bool {
    forall|j: int| 0 <= j < body.len() ==> !#[trigger] occurs_in(body + pat, j, pat)
}

pub open spec fn occurs_in(s: Seq<u8>, j: int, pat: Seq<u8>) -> bool {
    j + pat.len() <= s.len() && s.subrange(j, j + pat.len()) == pat
}

/// The value of an attribute: none, or behind `=` in quotes or bare; the
/// whitespace stands before and after the `=`.
pub enum XmlValue {
    Absent,
    Quoted(Seq<u8>, Seq<u8>, u8, Seq<u8>),
    Bare(Seq<u8>, Seq<u8>, Seq<u8>),
}

impl XmlValue {
    pub open spec fn valid(self) -> bool {
        match self {
            XmlValue::Absent => true,
            XmlValue::Quoted(g1, g2, q, v) => is_gap(g1) && is_gap(g2) && (q == 0x22 || q == 0x27) && (forall|i: int|
                0 <= i < v.len() ==> #[trigger] v[i] != q),
            XmlValue::Bare(g1, g2, v) => is_gap(g1) && is_gap(g2) && v.len() > 0 && v[0] != 0x22 && v[0] != 0x27 && (
            forall|i: int|
                0 <= i < v.len() ==> (#[trigger] v[i]) != 0x20 && v[i] != 0x09 && v[i] != 0x0a && v[i] != 0x0d && v[i]
                    != 0x3e && v[i] != 0x2f),
        }
    }

    /// What stands before the value.
    pub open spec fn lead(self) -> Seq<u8> {
        match self {
            XmlValue::Absent => Seq::empty(),
            XmlValue::Quoted(g1, g2, q, v) => g1 + (seq![0x3du8] + g2),
            XmlValue::Bare(g1, g2, v) => g1 + (seq![0x3du8] + g2),
        }
    }

    /// The value, in its quotes.
    pub open spec fn body(self) -> Seq<u8> {
        match self {
            XmlValue::Absent => Seq::empty(),
            XmlValue::Quoted(g1, g2, q, v) => seq![q] + (v + seq![q]),
            XmlValue::Bare(g1, g2, v) => v,
        }
    }
}

/// An attribute, with the whitespace before it.
pub struct XmlAttr {
    pub gap: Seq<u8>,
    pub name: Seq<u8>,
    pub value: XmlValue,
}

impl XmlAttr {
    pub open spec fn valid(self) -> bool {
        is_gap(self.gap) && self.gap.len() > 0 && is_name(self.name) && self.value.valid()
    }

    pub open spec fn text(self) -> Seq<u8> {
        self.gap + (self.name + (self.value.lead() + self.value.body()))
    }

    pub open spec fn spans(self, p: int) -> Seq<StyleSpan> {
        let a = p + self.gap.len();
        let n = a + self.name.len();
        let v = n + self.value.lead().len();
        let name = seq![StyleSpan { start: a as u32, end: n as u32, kind: StyleKind::AttrName }];
        if self.value is Absent {
            name
        } else {
            name + seq![
                StyleSpan { start: v as u32, end: (v + self.value.body().len()) as u32, kind: StyleKind::AttrValue },
            ]
        }
    }

    pub open spec fn mark(self, p: int, parent: int) -> Mark {
        Mark { start: p + self.gap.len(), end: p + self.text().len(), parent, label: Label::Attribute(self.name) }
    }
}

pub open spec fn attrs_text(attrs: Seq<XmlAttr>) -> Seq<u8>
    decreases attrs.len(),
{
    if attrs.len() == 0 {
        Seq::empty()
    } else {
        attrs[0].text() + attrs_text(attrs.skip(1))
    }
}

pub open spec fn attrs_spans(attrs: Seq<XmlAttr>, p: int) -> Seq<StyleSpan>
    decreases attrs.len(),
{
    if attrs.len() == 0 {
        Seq::empty()
    } else {
        attrs[0].spans(p) + attrs_spans(attrs.skip(1), p + attrs[0].text().len())
    }
}

pub open spec fn attrs_marks(attrs: Seq<XmlAttr>, p: int, parent: int) -> Seq<Mark>
    decreases attrs.len(),
{
    if attrs.len() == 0 {
        Seq::empty()
    } else {
        seq![attrs[0].mark(p, parent)] + attrs_marks(attrs.skip(1), p + attrs[0].text().len(), parent)
    }
}

/// The name, attributes and last whitespace of an opening tag.
pub struct XmlTag {
    pub name: Seq<u8>,
    pub attrs: Seq<XmlAttr>,
    pub gap: Seq<u8>,
}

impl XmlTag {
    pub open spec fn valid(self) -> bool {
        &&& is_name(self.name)
        &&& is_gap(self.gap)
        &&& forall|i: int| 0 <= i < self.attrs.len() ==> (#[trigger] self.attrs[i]).valid()
    }

    /// The tag, closed by `close`.
    pub open spec fn text(self, close: Seq<u8>) -> Seq<u8> {
        seq![0x3cu8] + (self.name + (attrs_text(self.attrs) + (self.gap + close)))
    }

    pub open spec fn spans(self, p: int) -> Seq<StyleSpan> {
        let n = p + 1 + self.name.len();
        seq![StyleSpan { start: (p + 1) as u32, end: n as u32, kind: StyleKind::Tag }] + attrs_spans(self.attrs, n)
    }

    pub open spec fn marks(self, p: int, elem: int) -> Seq<Mark> {
        attrs_marks(self.attrs, p + 1 + self.name.len(), elem)
    }
}

/// A piece of a document as it is written down.
pub enum XmlNode {
    /// Text without `<`.
    Text(Seq<u8>),
    Comment(Seq<u8>),
    CData(Seq<u8>),
    Instruction(Seq<u8>),
    /// `<!...>` without quotes and brackets.
    Declaration(Seq<u8>),
    /// `<name ... />`
    Empty(XmlTag),
    /// An element with contents, and the whitespace in its closing tag.
    Element(XmlTag, Box<XmlNodes>, Seq<u8>),
}

pub enum XmlNodes {
    End,
    More(Box<XmlNode>, Box<XmlNodes>),
}

pub open spec fn closing_text(name: Seq<u8>, gap: Seq<u8>) -> Seq<u8> {
    seq![0x3cu8, 0x2fu8] + (name + (gap + seq![0x3eu8]))
}

pub open spec fn one_span(p: int, len: nat, kind: StyleKind) -> Seq<StyleSpan> {
    seq![StyleSpan { start: p as u32, end: (p + len) as u32, kind }]
}

impl XmlNode {
    pub open spec fn valid(self) -> bool
        decreases self,
    {
        match self {
            XmlNode::Text(t) => forall|i: int| 0 <= i < t.len() ==> #[trigger] t[i] != 0x3c,
            XmlNode::Comment(t) => free_of(t, seq![0x2du8, 0x2du8, 0x3eu8]),
            XmlNode::CData(t) => free_of(t, seq![0x5du8, 0x5du8, 0x3eu8]),
            XmlNode::Instruction(t) => free_of(t, seq![0x3fu8, 0x3eu8]),
            XmlNode::Declaration(t) => t.len() > 0 && t[0] != 0x2d && (forall|i: int|
                0 <= i < t.len() ==> (#[trigger] t[i]) != 0x3e && t[i] != 0x22 && t[i] != 0x27 && t[i] != 0x5b && t[i]
                    != 0x5d),
            XmlNode::Empty(tag) => tag.valid(),
            XmlNode::Element(tag, nodes, gap) => tag.valid() && nodes.valid() && is_gap(gap),
        }
    }

    pub open spec fn text(self) -> Seq<u8>
        decreases self,
    {
        match self {
            XmlNode::Text(t) => t,
            XmlNode::Comment(t) => seq![0x3cu8, 0x21u8, 0x2du8, 0x2du8] + (t + seq![0x2du8, 0x2du8, 0x3eu8]),
            XmlNode::CData(t) => seq![0x3cu8, 0x21u8, 0x5bu8, 0x43u8, 0x44u8, 0x41u8, 0x54u8, 0x41u8, 0x5bu8] + (t
                + seq![0x5du8, 0x5du8, 0x3eu8]),
            XmlNode::Instruction(t) => seq![0x3cu8, 0x3fu8] + (t + seq![0x3fu8, 0x3eu8]),
            XmlNode::Declaration(t) => seq![0x3cu8, 0x21u8] + (t + seq![0x3eu8]),
            XmlNode::Empty(tag) => tag.text(seq![0x2fu8, 0x3eu8]),
            XmlNode::Element(tag, nodes, gap) => tag.text(seq![0x3eu8]) + (nodes.text() + closing_text(tag.name, gap)),
        }
    }

    pub open spec fn spans(self, p: int) -> Seq<StyleSpan>
        decreases self,
    {
        match self {
            XmlNode::Text(t) => Seq::empty(),
            XmlNode::Comment(t) => one_span(p, self.text().len(), StyleKind::Comment),
            XmlNode::CData(t) => one_span(p, self.text().len(), StyleKind::CData),
            XmlNode::Instruction(t) => one_span(p, self.text().len(), StyleKind::Pi),
            XmlNode::Declaration(t) => one_span(p, self.text().len(), StyleKind::Pi),
            XmlNode::Empty(tag) => tag.spans(p),
            XmlNode::Element(tag, nodes, gap) => {
                let q = p + tag.text(seq![0x3eu8]).len();
                (tag.spans(p) + nodes.spans(q)) + one_span(q + nodes.text().len() + 2, tag.name.len(), StyleKind::Tag)
            },
        }
    }

    /// The entries of the node written at `p` under `parent`, numbered
    /// from `next`.
    pub open spec fn marks(self, p: int, parent: int, next: int) -> Seq<Mark>
        decreases self,
    {
        let end = p + self.text().len();
        match self {
            XmlNode::Empty(tag) => seq![Mark { start: p, end, parent, label: Label::Element(tag.name) }] + tag.marks(
                p,
                next,
            ),
            XmlNode::Element(tag, nodes, gap) => seq![Mark { start: p, end, parent, label: Label::Element(tag.name) }]
                + (tag.marks(p, next) + nodes.marks(
                p + tag.text(seq![0x3eu8]).len(),
                next,
                next + 1 + tag.attrs.len(),
            )),
            _ => Seq::empty(),
        }
    }
}

impl XmlNodes {
    pub open spec fn valid(self) -> bool
        decreases self,
    {
        match self {
            XmlNodes::End => true,
            XmlNodes::More(node, rest) => node.valid() && rest.valid(),
        }
    }

    pub open spec fn text(self) -> Seq<u8>
        decreases self,
    {
        match self {
            XmlNodes::End => Seq::empty(),
            XmlNodes::More(node, rest) => node.text() + rest.text(),
        }
    }

    pub open spec fn spans(self, p: int) -> Seq<StyleSpan>
        decreases self,
    {
        match self {
            XmlNodes::End => Seq::empty(),
            XmlNodes::More(node, rest) => node.spans(p) + rest.spans(p + node.text().len()),
        }
    }

    pub open spec fn marks(self, p: int, parent: int, next: int) -> Seq<Mark>
        decreases self,
    {
        match self {
            XmlNodes::End => Seq::empty(),
            XmlNodes::More(node, rest) => {
                let here = node.marks(p, parent, next);
                here + rest.marks(p + node.text().len(), parent, next + here.len())
            },
        }
    }
}

// --- scanning -------------------------------------------------------

/// What may follow a name or a bare value in a tag.
spec fn ends_name(s: Seq<u8>, q: int) -> bool {
    q < s.len() && (s[q] == 0x20 || s[q] == 0x09 || s[q] == 0x0a || s[q] == 0x0d || s[q] == 0x3e || s[q] == 0x2f)
}

pub proof fn lemma_name(s: Seq<u8>, p: int, name: Seq<u8>)
    requires
        stands(s, p, name),
        is_name(name),
        p + name.len() < s.len() ==> !in_name(s[p + name.len()]),
    ensures
        name_end(s, p) == p + name.len(),
        s.subrange(p, p + name.len()) == name,
        is_name_start(s[p]),
    decreases name.len(),
{
    lemma_stands_byte(s, p, name, 0);
    lemma_name_run(s, p, name, 0);
}

proof fn lemma_name_run(s: Seq<u8>, p: int, name: Seq<u8>, k: int)
    requires
        stands(s, p, name),
        is_name(name),
        0 <= k <= name.len(),
        p + name.len() < s.len() ==> !in_name(s[p + name.len()]),
    ensures
        name_end(s, p + k) == p + name.len(),
    decreases name.len() - k,
{
    if k < name.len() {
        lemma_stands_byte(s, p, name, k);
        assert(in_name(name[k]));
        lemma_name_run(s, p, name, k + 1);
    }
}

pub proof fn lemma_find_byte(s: Seq<u8>, p: int, v: Seq<u8>, b: u8)
    requires
        stands(s, p, v),
        forall|i: int| 0 <= i < v.len() ==> #[trigger] v[i] != b,
        p + v.len() < s.len(),
        s[p + v.len()] == b,
    ensures
        index_from(s, p, b) == p + v.len(),
        past_byte(s, p, b) == p + v.len() + 1,
{
    lemma_index_from(s, p, b);
    let k = index_from(s, p, b);
    if k < p + v.len() {
        lemma_stands_byte(s, p, v, k - p);
    }
}

proof fn lemma_bare_value(s: Seq<u8>, p: int, v: Seq<u8>)
    requires
        stands(s, p, v),
        forall|i: int|
            0 <= i < v.len() ==> (#[trigger] v[i]) != 0x20 && v[i] != 0x09 && v[i] != 0x0a && v[i] != 0x0d && v[i]
                != 0x3e && v[i] != 0x2f,
        ends_name(s, p + v.len()),
    ensures
        unquoted_end(s, p) == p + v.len(),
    decreases v.len(),
{
    if v.len() > 0 {
        lemma_stands_byte(s, p, v, 0);
        assert(v =~= seq![v[0]] + v.skip(1));
        lemma_stands_parts(s, p, seq![v[0]], v.skip(1));
        lemma_bare_value(s, p + 1, v.skip(1));
    }
}

/// A name is interned under the number that names it.
proof fn lemma_named(names: Seq<Seq<u8>>, name: Seq<u8>)
    requires
        names.no_duplicates(),
    ensures
        0 <= intern_id(names, name) < interned(names, name).len(),
        interned(names, name)[intern_id(names, name)] == name,
        interned(names, name).no_duplicates(),
        names_kept(names, interned(names, name)),
        interned(names, name).len() <= names.len() + 1,
{
}

/// Room for entries and offsets, and names that are told apart.
spec fn roomy(s: Seq<u8>, st: ScanState, more: int) -> bool {
    &&& s.len() < u32::MAX
    &&& st.paths.len() + more <= u32::MAX
    &&& st.names.len() <= st.paths.len()
    &&& st.names.no_duplicates()
}

/// One attribute is read from behind its whitespace.
proof fn lemma_attr(s: Seq<u8>, st: ScanState, a: XmlAttr, elem: int)
    requires
        a.valid(),
        stands(s, st.pos - a.gap.len(), a.text()),
        ends_name(s, st.pos - a.gap.len() + a.text().len()),
        a.value is Absent ==> {
            let w = skip_ws_from(s, st.pos + a.name.len());
            byte_at(s, w) != Some(0x3du8)
        },
        roomy(s, st, 1),
        0 <= elem <= u32::MAX,
    ensures
        ({
            let p = st.pos - a.gap.len();
            let q = p + a.text().len();
            let to = xml_attribute(s, st, elem as u32);
            &&& reaches(st, to.at(q), q, a.spans(p), seq![a.mark(p, elem)])
            &&& to.names.no_duplicates()
            &&& to.pos == if a.value is Absent {
                skip_ws_from(s, q)
            } else {
                q
            }
        }),
{
    let p = st.pos - a.gap.len();
    let k = st.pos;
    let tail = a.value.lead() + a.value.body();
    lemma_stands_parts(s, p, a.gap, a.name + tail);
    lemma_stands_parts(s, k, a.name, tail);
    let n = k + a.name.len();
    lemma_stands_parts(s, n, a.value.lead(), a.value.body());
    let v = n + a.value.lead().len();
    let q = p + a.text().len();
    lemma_named(st.names, a.name);
    match a.value {
        XmlValue::Absent => {
            lemma_name(s, k, a.name);
        },
        XmlValue::Quoted(g1, g2, b, x) => {
            lemma_stands_parts(s, n, g1, seq![0x3du8] + g2);
            lemma_stands_parts(s, n + g1.len(), seq![0x3du8], g2);
            lemma_stands_byte(s, n + g1.len(), seq![0x3du8], 0);
            if g1.len() > 0 {
                lemma_stands_byte(s, n, g1, 0);
            }
            lemma_name(s, k, a.name);
            lemma_gap(s, n, g1);
            lemma_stands_byte(s, v, a.value.body(), 0);
            lemma_gap(s, n + g1.len() + 1, g2);
            lemma_stands_parts(s, v, seq![b], x + seq![b]);
            lemma_stands_parts(s, v + 1, x, seq![b]);
            lemma_stands_byte(s, v + 1 + x.len(), seq![b], 0);
            lemma_find_byte(s, v + 1, x, b);
            assert(attr_value_end(s, v) == q);
        },
        XmlValue::Bare(g1, g2, x) => {
            lemma_stands_parts(s, n, g1, seq![0x3du8] + g2);
            lemma_stands_parts(s, n + g1.len(), seq![0x3du8], g2);
            lemma_stands_byte(s, n + g1.len(), seq![0x3du8], 0);
            if g1.len() > 0 {
                lemma_stands_byte(s, n, g1, 0);
            }
            lemma_name(s, k, a.name);
            lemma_gap(s, n, g1);
            lemma_stands_byte(s, v, x, 0);
            lemma_gap(s, n + g1.len() + 1, g2);
            lemma_bare_value(s, v, x);
            assert(attr_value_end(s, v) == q);
        },
    }
    let to = xml_attribute(s, st, elem as u32);
    assert(to.styles =~= st.styles + a.spans(p));
    assert(is_mark(to.paths[st.paths.len() as int], to.names, a.mark(p, elem)));
}

/// Whitespace before an attribute makes no difference.
proof fn lemma_attributes_skip(s: Seq<u8>, st: ScanState, p: int, elem: u32)
    requires
        0 <= p <= st.pos <= s.len(),
        skip_ws_from(s, p) == st.pos,
    ensures
        xml_attributes(s, st, elem) == xml_attributes(s, st.at(p), elem),
{
    crate::bytes::lemma_skip_ws_bounds(s, p);
    crate::bytes::lemma_skip_ws_bounds(s, st.pos);
    assert(skip_ws_from(s, st.pos) == st.pos);
    assert(st.at(p).at(st.pos) == st.at(st.pos));
    assert(st.at(p).at(st.pos + 1) == st.at(st.pos + 1));
    assert(st.at(p).at(st.pos + 2) == st.at(st.pos + 2));
}

/// The first byte of what follows an attribute or a name in a tag.
proof fn lemma_tag_goes_on(s: Seq<u8>, p: int, attrs: Seq<XmlAttr>, gap: Seq<u8>, close: Seq<u8>)
    requires
        forall|i: int| 0 <= i < attrs.len() ==> (#[trigger] attrs[i]).valid(),
        is_gap(gap),
        close == seq![0x3eu8] || close == seq![0x2fu8, 0x3eu8],
        stands(s, p, attrs_text(attrs) + (gap + close)),
    ensures
        ends_name(s, p),
        ({
            let w = skip_ws_from(s, p);
            &&& p <= w < s.len()
            &&& s[w] != 0x3d
            &&& attrs.len() == 0 ==> w == p + gap.len() && s[w] == close[0] && (close.len() == 2 ==> w + 1 < s.len()
                && s[w + 1] == 0x3e)
            &&& attrs.len() > 0 ==> w == p + attrs[0].gap.len() && is_name_start(s[w]) && s[w] != 0x3e && s[w] != 0x2f
        }),
{
    let tail = gap + close;
    if attrs.len() == 0 {
        assert(attrs_text(attrs) + tail =~= tail);
        lemma_stands_parts(s, p, gap, close);
        lemma_stands_byte(s, p + gap.len(), close, 0);
        if close.len() == 2 {
            lemma_stands_byte(s, p + gap.len(), close, 1);
        }
        if gap.len() > 0 {
            lemma_stands_byte(s, p, gap, 0);
        }
        lemma_gap(s, p, gap);
    } else {
        let a = attrs[0];
        assert(a.valid());
        let rest = a.name + (a.value.lead() + a.value.body()) + (attrs_text(attrs.skip(1)) + tail);
        assert(attrs_text(attrs) + tail =~= a.gap + rest);
        lemma_stands_parts(s, p, a.gap, rest);
        lemma_stands_byte(s, p, a.gap, 0);
        lemma_stands_byte(s, p + a.gap.len(), rest, 0);
        assert(rest[0] == a.name[0]);
        assert(in_name(a.name[0]));
        lemma_gap(s, p, a.gap);
    }
}

/// The attributes and the end of a tag are read.
proof fn lemma_attrs(s: Seq<u8>, st: ScanState, attrs: Seq<XmlAttr>, gap: Seq<u8>, close: Seq<u8>, elem: int) -> (to:
    ScanState)
    requires
        forall|i: int| 0 <= i < attrs.len() ==> (#[trigger] attrs[i]).valid(),
        is_gap(gap),
        close == seq![0x3eu8] || close == seq![0x2fu8, 0x3eu8],
        stands(s, st.pos, attrs_text(attrs) + (gap + close)),
        roomy(s, st, attrs_text(attrs).len() as int),
        0 <= elem <= u32::MAX,
    ensures
        ({
            let q = st.pos + attrs_text(attrs).len() + gap.len() + close.len();
            &&& xml_attributes(s, st, elem as u32) == (to.done(), close.len() == 2)
            &&& reaches(st, to, q, attrs_spans(attrs, st.pos), attrs_marks(attrs, st.pos, elem))
            &&& to.names.no_duplicates()
            &&& attrs_marks(attrs, st.pos, elem).len() == attrs.len()
            &&& attrs.len() <= attrs_text(attrs).len()
        }),
    decreases attrs.len(),
{
    let p = st.pos;
    let q = p + attrs_text(attrs).len() + gap.len() + close.len();
    lemma_tag_goes_on(s, p, attrs, gap, close);
    let w = skip_ws_from(s, p);
    if attrs.len() == 0 {
        let to = st.at(q);
        assert(to.styles =~= st.styles + Seq::<StyleSpan>::empty());
        assert(q == w + close.len());
        to
    } else {
        let a = attrs[0];
        let rest = attrs.skip(1);
        let tail = attrs_text(rest) + (gap + close);
        assert forall|i: int| 0 <= i < rest.len() implies (#[trigger] rest[i]).valid() by {
            assert(rest[i] == attrs[i + 1]);
        }
        assert(attrs_text(attrs) + (gap + close) =~= a.text() + tail);
        lemma_stands_parts(s, p, a.text(), tail);
        let r = p + a.text().len();
        lemma_tag_goes_on(s, r, rest, gap, close);
        assert(a.value is Absent ==> r == w + a.name.len()) by {
            if a.value is Absent {
                assert(a.text() =~= a.gap + a.name);
            }
        }
        lemma_attr(s, st.at(w), a, elem);
        let mid = xml_attribute(s, st.at(w), elem as u32);
        assert(xml_attributes(s, st, elem as u32) == xml_attributes(s, mid, elem as u32));
        if a.value is Absent {
            lemma_attributes_skip(s, mid, r, elem as u32);
        }
        let next = mid.at(r);
        let to = lemma_attrs(s, next, rest, gap, close, elem);
        assert(reaches(st, next, r, a.spans(p), seq![a.mark(p, elem)]));
        lemma_reaches_trans(
            st,
            next,
            to,
            r,
            q,
            a.spans(p),
            attrs_spans(rest, r),
            seq![a.mark(p, elem)],
            attrs_marks(rest, r, elem),
        );
        to
    }
}

// --- nodes ----------------------------------------------------------

/// The closing bytes are found behind a body that is free of them.
pub proof fn lemma_closed(s: Seq<u8>, p: int, body: Seq<u8>, pat: Seq<u8>)
    requires
        free_of(body, pat),
        stands(s, p, body + pat),
        pat.len() > 0,
    ensures
        closed_by(s, p, pat) == p + body.len() + pat.len(),
{
    let x = body + pat;
    lemma_stands_parts(s, p, body, pat);
    let at = p + body.len();
    assert(occurs_at(s, at, pat));
    lemma_find_from(s, p, pat);
    if let Some(k) = find_from(s, p, pat) {
        if k < at {
            assert(s.subrange(p, p + x.len()) == x);
            assert(x.subrange(k - p, k - p + pat.len()) =~= s.subrange(k, k + pat.len()));
            assert(occurs_in(x, k - p, pat));
        } else if k > at {
            assert(!occurs_at(s, at, pat));
        }
    } else {
        assert(!occurs_at(s, at, pat));
    }
}

pub proof fn lemma_declared(s: Seq<u8>, p: int, t: Seq<u8>)
    requires
        stands(s, p, t + seq![0x3eu8]),
        forall|i: int|
            0 <= i < t.len() ==> (#[trigger] t[i]) != 0x3e && t[i] != 0x22 && t[i] != 0x27 && t[i] != 0x5b && t[i]
                != 0x5d,
    ensures
        doctype_end(s, p, 0) == p + t.len() + 1,
    decreases t.len(),
{
    lemma_stands_byte(s, p, t + seq![0x3eu8], 0);
    if t.len() > 0 {
        assert(t + seq![0x3eu8] =~= seq![t[0]] + (t.skip(1) + seq![0x3eu8]));
        lemma_stands_parts(s, p, seq![t[0]], t.skip(1) + seq![0x3eu8]);
        lemma_declared(s, p + 1, t.skip(1));
    }
}

/// Text without `<` is passed over.
proof fn lemma_text_skip(s: Seq<u8>, x: XmlState, t: Seq<u8>)
    requires
        stands(s, x.st.pos, t),
        forall|i: int| 0 <= i < t.len() ==> #[trigger] t[i] != 0x3c,
    ensures
        xml_content(s, x) == xml_content(s, x.at(x.st.pos + t.len())),
{
    let p = x.st.pos;
    let q = p + t.len();
    if t.len() > 0 {
        lemma_stands_byte(s, p, t, 0);
        lemma_index_from(s, p, 0x3c);
        lemma_index_from(s, q, 0x3c);
        let k = index_from(s, p, 0x3c);
        if k < q {
            lemma_stands_byte(s, p, t, k - p);
        }
        let j = index_from(s, q, 0x3c);
        if k < j {
            assert(s[k] != 0x3c);
        } else if j < k {
            assert(s[j] != 0x3c);
        }
        assert(x.at(q).at(j) == x.at(j));
        assert(xml_content(s, x) == xml_content(s, x.at(k)));
        if q < s.len() && s[q] != 0x3c {
            assert(xml_content(s, x.at(q)) == xml_content(s, x.at(q).at(j)));
        } else {
            assert(j == q);
        }
    } else {
        assert(x.at(q) == x);
    }
}

/// Markup that adds one span and no entry.
proof fn lemma_span_node(s: Seq<u8>, x: XmlState, len: nat, kind: StyleKind)
    requires
        0 <= x.st.pos,
        len > 0,
        x.st.pos + len <= s.len(),
        s[x.st.pos] == 0x3c,
        xml_markup(s, x) == (XmlStep { x: xml_span(x, x.st.pos + len, kind), err: None }),
        roomy(s, x.st, 0),
    ensures
        ({
            let y = xml_span(x, x.st.pos + len, kind);
            &&& xml_content(s, x) == xml_content(s, y)
            &&& y.stack == x.stack
            &&& reaches(x.st, y.st, x.st.pos + len, one_span(x.st.pos, len, kind), Seq::empty())
        }),
{
    lemma_one_span(x.st, x.st.pos, x.st.pos + len, kind);
}

/// The entries that are open where a node is written.
spec fn open_at(x: XmlState) -> bool {
    x.stack.len() > 0 && x.stack.last() < x.st.paths.len()
}

/// An opening tag is read up to its end.
proof fn lemma_open(s: Seq<u8>, x: XmlState, tag: XmlTag, close: Seq<u8>) -> (to: ScanState)
    requires
        tag.valid(),
        close == seq![0x3eu8] || close == seq![0x2fu8, 0x3eu8],
        stands(s, x.st.pos, tag.text(close)),
        roomy(s, x.st, tag.text(close).len() as int),
        open_at(x),
    ensures
        ({
            let p = x.st.pos;
            let n = x.st.paths.len() as int;
            let q = p + tag.text(close).len();
            let name_at = p + 1 + tag.name.len();
            let id = intern_id(x.st.names, tag.name) as u32;
            let opened = x.st.with_name(tag.name).styled(p + 1, name_at, StyleKind::Tag).opened(
                p,
                x.stack.last(),
                PathSegment::Element {
                    name: id,
                    sibling_index: (sibling_count(x.st.paths, x.stack.last(), id) + 1) as u32,
                },
            ).at(name_at);
            &&& s[p] == 0x3c
            &&& xml_markup(s, x) == if close.len() == 2 {
                XmlStep { x: XmlState { st: to.closed_at(n, q), stack: x.stack }, err: None }
            } else {
                XmlStep { x: XmlState { st: to, stack: x.stack.push(n as u32) }, err: None }
            }
            &&& reaches(opened, to, q, attrs_spans(tag.attrs, name_at), tag.marks(p, n))
            &&& to.names.no_duplicates()
            &&& tag.marks(p, n).len() == tag.attrs.len()
            &&& tag.attrs.len() + 3 <= tag.text(close).len()
            &&& names_kept(x.st.names, opened.names)
            &&& opened.styles == x.st.styles + one_span(p + 1, tag.name.len(), StyleKind::Tag)
            &&& id < opened.names.len()
            &&& opened.names[id as int] == tag.name
        }),
{
    let p = x.st.pos;
    let n = x.st.paths.len() as int;
    let name_at = p + 1 + tag.name.len();
    let tail = attrs_text(tag.attrs) + (tag.gap + close);
    lemma_stands_byte(s, p, tag.text(close), 0);
    lemma_stands_parts(s, p, seq![0x3cu8], tag.name + tail);
    lemma_stands_parts(s, p + 1, tag.name, tail);
    lemma_stands_byte(s, p + 1, tag.name, 0);
    lemma_tag_goes_on(s, name_at, tag.attrs, tag.gap, close);
    lemma_name(s, p + 1, tag.name);
    lemma_named(x.st.names, tag.name);
    let id = intern_id(x.st.names, tag.name) as u32;
    let opened = x.st.with_name(tag.name).styled(p + 1, name_at, StyleKind::Tag).opened(
        p,
        x.stack.last(),
        PathSegment::Element {
            name: id,
            sibling_index: (sibling_count(x.st.paths, x.stack.last(), id) + 1) as u32,
        },
    ).at(name_at);
    assert(in_name(tag.name[0]));
    let to = lemma_attrs(s, opened, tag.attrs, tag.gap, close, n);
    assert(opened.styles =~= x.st.styles + one_span(p + 1, tag.name.len(), StyleKind::Tag));
    assert(xml_markup(s, x) == xml_open_tag(s, x));
    to
}

/// The entry of an element, opened at `p`.
proof fn lemma_element_mark(st: ScanState, opened: ScanState, to: ScanState, mark: Mark, end: int, sp: Seq<StyleSpan>,
    spans: Seq<StyleSpan>, marks: Seq<Mark>)
    requires
        opened.paths.len() == st.paths.len() + 1,
        forall|i: int| 0 <= i < st.paths.len() ==> (#[trigger] opened.paths[i]) == st.paths[i],
        names_kept(st.names, opened.names),
        reaches(opened, to, end, spans, marks),
        is_mark(PathEntry { end: end as u32, ..opened.paths[st.paths.len() as int] }, opened.names, mark),
        0 <= end <= u32::MAX,
        opened.styles == st.styles + sp,
        st.names.len() <= st.paths.len(),
    ensures
        reaches(st, to.closed_at(st.paths.len() as int, end), end, sp + spans, seq![mark] + marks),
{
    lemma_entry_closed(st, opened, to, mark, end, spans, marks);
    let mid = ScanState { styles: opened.styles, ..st };
    assert(reaches(st, mid, st.pos, sp, Seq::empty()));
    lemma_reaches_trans(
        st,
        mid,
        to.closed_at(st.paths.len() as int, end),
        st.pos,
        end,
        sp,
        spans,
        Seq::empty(),
        seq![mark] + marks,
    );
    assert(Seq::<Mark>::empty() + (seq![mark] + marks) =~= seq![mark] + marks);
}

/// A self-closing element is read.
proof fn lemma_empty(s: Seq<u8>, x: XmlState, tag: XmlTag) -> (y: XmlState)
    requires
        XmlNode::Empty(tag).valid(),
        stands(s, x.st.pos, XmlNode::Empty(tag).text()),
        roomy(s, x.st, XmlNode::Empty(tag).text().len() as int),
        open_at(x),
    ensures
        node_read(s, x, y, XmlNode::Empty(tag)),
{
    let node = XmlNode::Empty(tag);
    let close = seq![0x2fu8, 0x3eu8];
    let p = x.st.pos;
    let n = x.st.paths.len() as int;
    let q = p + tag.text(close).len();
    let to = lemma_open(s, x, tag, close);
    let name_at = p + 1 + tag.name.len();
    let id = intern_id(x.st.names, tag.name) as u32;
    let opened = x.st.with_name(tag.name).styled(p + 1, name_at, StyleKind::Tag).opened(
        p,
        x.stack.last(),
        PathSegment::Element {
            name: id,
            sibling_index: (sibling_count(x.st.paths, x.stack.last(), id) + 1) as u32,
        },
    ).at(name_at);
    let y = XmlState { st: to.closed_at(n, q), stack: x.stack };
    let mark = Mark { start: p, end: q, parent: x.stack.last() as int, label: Label::Element(tag.name) };
    lemma_element_mark(
        x.st,
        opened,
        to,
        mark,
        q,
        one_span(p + 1, tag.name.len(), StyleKind::Tag),
        attrs_spans(tag.attrs, name_at),
        tag.marks(p, n),
    );
    assert(xml_content(s, x) == xml_content(s, y));
    y
}

/// The node written at the position of `x` has been read in `y`.
spec fn node_read(s: Seq<u8>, x: XmlState, y: XmlState, node: XmlNode) -> bool {
    let p = x.st.pos;
    let marks = node.marks(p, x.stack.last() as int, x.st.paths.len() as int);
    &&& xml_content(s, x) == xml_content(s, y)
    &&& y.stack == x.stack
    &&& reaches(x.st, y.st, p + node.text().len(), node.spans(p), marks)
    &&& y.st.names.no_duplicates()
    &&& marks.len() <= node.text().len()
}

proof fn lemma_comment(s: Seq<u8>, x: XmlState, t: Seq<u8>)
    requires
        XmlNode::Comment(t).valid(),
        stands(s, x.st.pos, XmlNode::Comment(t).text()),
    ensures
        s[x.st.pos] == 0x3c,
        xml_markup(s, x) == (XmlStep {
            x: xml_span(x, x.st.pos + XmlNode::Comment(t).text().len(), StyleKind::Comment),
            err: None,
        }),
{
    let p = x.st.pos;
    let text = XmlNode::Comment(t).text();
    let close = seq![0x2du8, 0x2du8, 0x3eu8];
    lemma_stands_byte(s, p, text, 0);
    lemma_stands_byte(s, p, text, 1);
    lemma_stands_byte(s, p, text, 2);
    lemma_stands_byte(s, p, text, 3);
    lemma_stands_parts(s, p, seq![0x3cu8, 0x21u8, 0x2du8, 0x2du8], t + close);
    lemma_closed(s, p + 4, t, close);
    assert(comment_close() =~= close);
    assert(s.subrange(p + 2, p + 4) =~= comment_open());
}

proof fn lemma_cdata(s: Seq<u8>, x: XmlState, t: Seq<u8>)
    requires
        XmlNode::CData(t).valid(),
        stands(s, x.st.pos, XmlNode::CData(t).text()),
    ensures
        s[x.st.pos] == 0x3c,
        xml_markup(s, x) == (XmlStep {
            x: xml_span(x, x.st.pos + XmlNode::CData(t).text().len(), StyleKind::CData),
            err: None,
        }),
{
    let p = x.st.pos;
    let text = XmlNode::CData(t).text();
    let open = seq![0x3cu8, 0x21u8, 0x5bu8, 0x43u8, 0x44u8, 0x41u8, 0x54u8, 0x41u8, 0x5bu8];
    let close = seq![0x5du8, 0x5du8, 0x3eu8];
    lemma_stands_parts(s, p, open, t + close);
    lemma_stands_byte(s, p, open, 0);
    lemma_stands_byte(s, p, open, 1);
    lemma_stands_byte(s, p, open, 2);
    lemma_stands_byte(s, p, open, 3);
    lemma_stands_byte(s, p, open, 4);
    lemma_stands_byte(s, p, open, 5);
    lemma_stands_byte(s, p, open, 6);
    lemma_stands_byte(s, p, open, 7);
    lemma_stands_byte(s, p, open, 8);
    lemma_closed(s, p + 9, t, close);
    assert(cdata_close() =~= close);
    assert(s.subrange(p + 2, p + 9) =~= cdata_open());
    if occurs_at(s, p + 2, comment_open()) {
        assert(s.subrange(p + 2, p + 4)[0] == s[p + 2]);
    }
}

proof fn lemma_instruction(s: Seq<u8>, x: XmlState, t: Seq<u8>)
    requires
        XmlNode::Instruction(t).valid(),
        stands(s, x.st.pos, XmlNode::Instruction(t).text()),
    ensures
        s[x.st.pos] == 0x3c,
        xml_markup(s, x) == (XmlStep {
            x: xml_span(x, x.st.pos + XmlNode::Instruction(t).text().len(), StyleKind::Pi),
            err: None,
        }),
{
    let p = x.st.pos;
    let text = XmlNode::Instruction(t).text();
    let close = seq![0x3fu8, 0x3eu8];
    lemma_stands_byte(s, p, text, 0);
    lemma_stands_byte(s, p, text, 1);
    lemma_stands_parts(s, p, seq![0x3cu8, 0x3fu8], t + close);
    lemma_closed(s, p + 2, t, close);
    assert(pi_close() =~= close);
}

proof fn lemma_declaration(s: Seq<u8>, x: XmlState, t: Seq<u8>)
    requires
        XmlNode::Declaration(t).valid(),
        stands(s, x.st.pos, XmlNode::Declaration(t).text()),
    ensures
        s[x.st.pos] == 0x3c,
        xml_markup(s, x) == (XmlStep {
            x: xml_span(x, x.st.pos + XmlNode::Declaration(t).text().len(), StyleKind::Pi),
            err: None,
        }),
{
    let p = x.st.pos;
    let text = XmlNode::Declaration(t).text();
    lemma_stands_byte(s, p, text, 0);
    lemma_stands_byte(s, p, text, 1);
    lemma_stands_byte(s, p, text, 2);
    lemma_stands_parts(s, p, seq![0x3cu8, 0x21u8], t + seq![0x3eu8]);
    lemma_declared(s, p + 2, t);
    assert(text[2] == t[0]);
    if occurs_at(s, p + 2, comment_open()) {
        assert(s.subrange(p + 2, p + 4)[0] == s[p + 2]);
    }
    if occurs_at(s, p + 2, cdata_open()) {
        assert(s.subrange(p + 2, p + 9)[0] == s[p + 2]);
    }
}

/// A closing tag ends the innermost open element, which has its name.
proof fn lemma_close(s: Seq<u8>, x: XmlState, name: Seq<u8>, gap: Seq<u8>) -> (y: XmlState)
    requires
        is_name(name),
        is_gap(gap),
        stands(s, x.st.pos, closing_text(name, gap)),
        roomy(s, x.st, 0),
        x.stack.len() > 1,
        0 < x.stack.last() < x.st.paths.len(),
        x.st.paths[x.stack.last() as int].segment matches PathSegment::Element { name: id, .. } && id
            < x.st.names.len() && x.st.names[id as int] == name,
    ensures
        ({
            let p = x.st.pos;
            let end = p + closing_text(name, gap).len();
            let to = x.st.styled(p + 2, p + 2 + name.len(), StyleKind::Tag).at(end);
            &&& s[p] == 0x3c
            &&& xml_markup(s, x) == (XmlStep { x: y, err: None })
            &&& y == (XmlState { st: to.closed_at(x.stack.last() as int, end), stack: x.stack.drop_last() })
        }),
{
    let p = x.st.pos;
    let text = closing_text(name, gap);
    let end = p + text.len();
    lemma_stands_byte(s, p, text, 0);
    lemma_stands_byte(s, p, text, 1);
    lemma_stands_parts(s, p, seq![0x3cu8, 0x2fu8], name + (gap + seq![0x3eu8]));
    lemma_stands_parts(s, p + 2, name, gap + seq![0x3eu8]);
    let n = p + 2 + name.len();
    lemma_stands_parts(s, n, gap, seq![0x3eu8]);
    lemma_stands_byte(s, n + gap.len(), seq![0x3eu8], 0);
    if gap.len() > 0 {
        lemma_stands_byte(s, n, gap, 0);
    }
    lemma_name(s, p + 2, name);
    lemma_find_byte(s, n, gap, 0x3e);
    let top = x.stack.last() as int;
    let id = match x.st.paths[top].segment {
        PathSegment::Element { name: id, .. } => id,
        _ => 0,
    };
    assert(x.st.names.contains(name));
    assert(intern_id(x.st.names, name) == id);
    let to = x.st.styled(p + 2, n, StyleKind::Tag).at(end);
    let after = XmlState { st: to, stack: x.stack };
    let y = XmlState { st: to.closed_at(top, end), stack: x.stack.drop_last() };
    assert(x.st.with_name(name) == x.st);
    assert(matching_frame(x.st.paths, x.stack, id) == Some(x.stack.len() - 1));
    assert(close_frames(y, x.stack.len() - 1, end) == y);
    assert(close_frames(after, x.stack.len() - 1, end) == y);
    assert(xml_close_tag(s, x) == y);
    y
}

/// A node is read.
proof fn lemma_node(s: Seq<u8>, x: XmlState, node: XmlNode) -> (y: XmlState)
    requires
        node.valid(),
        stands(s, x.st.pos, node.text()),
        roomy(s, x.st, node.text().len() as int),
        open_at(x),
    ensures
        node_read(s, x, y, node),
    decreases node, 0int,
{
    let p = x.st.pos;
    let len = node.text().len();
    match node {
        XmlNode::Text(t) => {
            lemma_text_skip(s, x, t);
            let y = x.at(p + t.len());
            assert(y.st.styles =~= x.st.styles + Seq::<StyleSpan>::empty());
            y
        },
        XmlNode::Comment(t) => {
            lemma_comment(s, x, t);
            lemma_span_node(s, x, len, StyleKind::Comment);
            xml_span(x, p + len, StyleKind::Comment)
        },
        XmlNode::CData(t) => {
            lemma_cdata(s, x, t);
            lemma_span_node(s, x, len, StyleKind::CData);
            xml_span(x, p + len, StyleKind::CData)
        },
        XmlNode::Instruction(t) => {
            lemma_instruction(s, x, t);
            lemma_span_node(s, x, len, StyleKind::Pi);
            xml_span(x, p + len, StyleKind::Pi)
        },
        XmlNode::Declaration(t) => {
            lemma_declaration(s, x, t);
            lemma_span_node(s, x, len, StyleKind::Pi);
            xml_span(x, p + len, StyleKind::Pi)
        },
        XmlNode::Empty(tag) => lemma_empty(s, x, tag),
        XmlNode::Element(tag, nodes, gap) => lemma_element(s, x, tag, *nodes, gap),
    }
}

/// An element with contents is read.
proof fn lemma_element(s: Seq<u8>, x: XmlState, tag: XmlTag, nodes: XmlNodes, gap: Seq<u8>) -> (y: XmlState)
    requires
        tag.valid(),
        nodes.valid(),
        is_gap(gap),
        stands(s, x.st.pos, XmlNode::Element(tag, Box::new(nodes), gap).text()),
        roomy(s, x.st, XmlNode::Element(tag, Box::new(nodes), gap).text().len() as int),
        open_at(x),
    ensures
        node_read(s, x, y, XmlNode::Element(tag, Box::new(nodes), gap)),
    decreases nodes, 1int,
{
    let node = XmlNode::Element(tag, Box::new(nodes), gap);
    let close = seq![0x3eu8];
    let p = x.st.pos;
    let n = x.st.paths.len() as int;
    let q = p + tag.text(close).len();
    let r = q + nodes.text().len();
    let end = p + node.text().len();
    lemma_stands_parts(s, p, tag.text(close), nodes.text() + closing_text(tag.name, gap));
    lemma_stands_parts(s, q, nodes.text(), closing_text(tag.name, gap));
    let to = lemma_open(s, x, tag, close);
    let name_at = p + 1 + tag.name.len();
    let id = intern_id(x.st.names, tag.name) as u32;
    let opened = x.st.with_name(tag.name).styled(p + 1, name_at, StyleKind::Tag).opened(
        p,
        x.stack.last(),
        PathSegment::Element {
            name: id,
            sibling_index: (sibling_count(x.st.paths, x.stack.last(), id) + 1) as u32,
        },
    ).at(name_at);
    let inner = XmlState { st: to, stack: x.stack.push(n as u32) };
    assert(xml_content(s, x) == xml_content(s, inner));
    let filled = lemma_nodes(s, inner, nodes);
    let am = tag.marks(p, n);
    let cm = nodes.marks(q, n, n + 1 + tag.attrs.len());
    let asp = attrs_spans(tag.attrs, name_at);
    let csp = nodes.spans(q);
    lemma_reaches_trans(opened, to, filled.st, q, r, asp, csp, am, cm);
    assert(filled.st.paths[n] == opened.paths[n]);
    assert(opened.names[id as int] == filled.st.names[id as int]);
    let y = lemma_close(s, filled, tag.name, gap);
    let last = filled.st.styled(r + 2, r + 2 + tag.name.len(), StyleKind::Tag).at(end);
    let tail = one_span(r + 2, tag.name.len(), StyleKind::Tag);
    lemma_one_span(filled.st, r + 2, r + 2 + tag.name.len(), StyleKind::Tag);
    assert(reaches(filled.st, last, end, tail, Seq::empty()));
    lemma_reaches_trans(opened, filled.st, last, r, end, asp + csp, tail, am + cm, Seq::empty());
    assert((am + cm) + Seq::<Mark>::empty() =~= am + cm);
    let mark = Mark { start: p, end, parent: x.stack.last() as int, label: Label::Element(tag.name) };
    let head = one_span(p + 1, tag.name.len(), StyleKind::Tag);
    lemma_element_mark(x.st, opened, last, mark, end, head, (asp + csp) + tail, am + cm);
    assert(head + ((asp + csp) + tail) =~= node.spans(p));
    assert(seq![mark] + (am + cm) =~= node.marks(p, x.stack.last() as int, n));
    assert(y.stack =~= x.stack);
    assert(xml_content(s, filled) == xml_content(s, y));
    y
}

proof fn lemma_nodes(s: Seq<u8>, x: XmlState, nodes: XmlNodes) -> (y: XmlState)
    requires
        nodes.valid(),
        stands(s, x.st.pos, nodes.text()),
        roomy(s, x.st, nodes.text().len() as int),
        open_at(x),
    ensures
        ({
            let p = x.st.pos;
            let marks = nodes.marks(p, x.stack.last() as int, x.st.paths.len() as int);
            &&& xml_content(s, x) == xml_content(s, y)
            &&& y.stack == x.stack
            &&& reaches(x.st, y.st, p + nodes.text().len(), nodes.spans(p), marks)
            &&& y.st.names.no_duplicates()
            &&& marks.len() <= nodes.text().len()
        }),
    decreases nodes, 0int,
{
    let p = x.st.pos;
    let parent = x.stack.last() as int;
    match nodes {
        XmlNodes::End => {
            assert(x.st.styles =~= x.st.styles + Seq::<StyleSpan>::empty());
            x
        },
        XmlNodes::More(node, rest) => {
            lemma_stands_parts(s, p, node.text(), rest.text());
            let q = p + node.text().len();
            let mid = lemma_node(s, x, *node);
            let y = lemma_nodes(s, mid, *rest);
            let m1 = node.marks(p, parent, x.st.paths.len() as int);
            lemma_reaches_trans(
                x.st,
                mid.st,
                y.st,
                q,
                q + rest.text().len(),
                node.spans(p),
                rest.spans(q),
                m1,
                rest.marks(q, parent, mid.st.paths.len() as int),
            );
            y
        },
    }
}

/// Every written document, whatever its whitespace, quotes and markup, is
/// read without an error: each element and attribute gets an entry with
/// its range, its parent and its whole name, and names, values, comments,
/// CDATA sections, instructions and declarations get their spans.
pub proof fn law_xml_reads_text(nodes: XmlNodes)
    requires
        nodes.valid(),
        nodes.text().len() + 1 < u32::MAX,
    ensures
        ({
            let s = nodes.text();
            let marks = nodes.marks(0, 0, 1);
            let doc = xml_document(s);
            &&& doc.err is None
            &&& doc.st.styles == nodes.spans(0)
            &&& doc.st.paths.len() == 1 + marks.len()
            &&& doc.st.paths[0] == PathEntry {
                start: 0,
                end: s.len() as u32,
                parent: u32::MAX,
                segment: PathSegment::Root,
            }
            &&& forall|i: int|
                1 <= i < doc.st.paths.len() ==> is_mark(#[trigger] doc.st.paths[i], doc.st.names, marks[i - 1])
        }),
{
    let s = nodes.text();
    let start = XmlState {
        st: ScanState::empty().opened(0, ROOT_PARENT, PathSegment::Root),
        stack: seq![0u32],
    };
    assert(s.subrange(0, s.len() as int) =~= s);
    let y = lemma_nodes(s, start, nodes);
    assert(xml_content(s, y) == (XmlStep { x: y, err: None }));
    let marks = nodes.marks(0, 0, 1);
    let doc = xml_document(s);
    let closed = y.st.closed_at(0, s.len() as int);
    assert(y.st.paths[0] == start.st.paths[0]);
    assert(doc.st.paths == unique_siblings_fixed(closed.paths));
    assert(doc.st.styles =~= nodes.spans(0));
    assert forall|i: int| 1 <= i < doc.st.paths.len() implies is_mark(
        #[trigger] doc.st.paths[i],
        doc.st.names,
        marks[i - 1],
    ) by {
        assert(is_mark(y.st.paths[1 + (i - 1)], y.st.names, marks[i - 1]));
        assert(closed.paths[i] == y.st.paths[i]);
    }
}

// --- names and values -----------------------------------------------

proof fn lemma_run_whole(s: Seq<u8>, i: int)
    requires
        0 <= i <= s.len(),
    ensures
        i <= name_end(s, i) <= s.len(),
        forall|k: int| i <= k < name_end(s, i) ==> in_name(#[trigger] s[k]),
        name_end(s, i) < s.len() ==> !in_name(s[name_end(s, i)]),
    decreases s.len() - i,
{
    lemma_name_end(s, i);
    if i < s.len() && is_name_char(s[i]) {
        lemma_run_whole(s, i + 1);
    }
}

/// `name` is the whole name at `p`: it starts as a name does, goes on
/// with letters, digits, `_`, `:`, `-`, `.` and bytes beyond ASCII, and
/// what follows it is none of these.
pub open spec fn is_whole_name(s: Seq<u8>, p: int, name: Seq<u8>) -> bool {
    &&& stands(s, p, name)
    &&& is_name(name)
    &&& p + name.len() < s.len() ==> !in_name(s[p + name.len()])
}

/// Whatever the input, broken or not: an element is called by the whole
/// name that follows its `<`, and an attribute by the whole name that it
/// starts with.
pub proof fn law_xml_whole_names(s: Seq<u8>, i: int)
    requires
        s.len() < u32::MAX,
        0 <= i < xml_document(s).st.paths.len(),
    ensures
        ({
            let doc = xml_document(s);
            let e = doc.st.paths[i];
            match e.segment {
                PathSegment::Element { name, .. } => name < doc.st.names.len() && s[e.start as int] == 0x3c
                    && is_whole_name(s, e.start + 1, doc.st.names[name as int]),
                PathSegment::Attribute(id) => id < doc.st.names.len() && is_whole_name(
                    s,
                    e.start as int,
                    doc.st.names[id as int],
                ),
                PathSegment::Root => true,
                _ => false,
            }
        }),
{
    law_xml_names(s, i);
    let doc = xml_document(s);
    let e = doc.st.paths[i];
    let start = e.start as int;
    match e.segment {
        PathSegment::Element { name, .. } => {
            lemma_run_whole(s, start + 1);
            let n = doc.st.names[name as int];
            assert(start + 1 + n.len() == name_end(s, start + 1));
            assert(s.subrange(start + 1, start + 1 + n.len()) =~= n);
        },
        PathSegment::Attribute(id) => {
            lemma_run_whole(s, start);
            let n = doc.st.names[id as int];
            assert(start + n.len() == name_end(s, start));
            assert(s.subrange(start, start + n.len()) =~= n);
        },
        _ => {},
    }
}

/// `e` is an element called `name` directly under `parent`.
pub open spec fn is_sibling(e: PathEntry, parent: u32, name: u32) -> bool {
    e.parent == parent && (e.segment matches PathSegment::Element { name: n, .. } && n == name)
}

proof fn lemma_sibling_filter(paths: Seq<PathEntry>, parent: u32, name: u32)
    ensures
        sibling_count(paths, parent, name) == paths.filter(|e: PathEntry| is_sibling(e, parent, name)).len(),
    decreases paths.len(),
{
    reveal(Seq::filter);
    if paths.len() > 0 {
        lemma_sibling_filter(paths.drop_last(), parent, name);
    }
}

/// The predicate of an element: none where no other element of its parent
/// has its name, else how many elements of its parent with its name come
/// up to it, itself included.
pub proof fn law_xml_sibling_predicate(s: Seq<u8>, i: int, name: u32, sibling_index: u32)
    requires
        s.len() < u32::MAX,
        0 <= i < xml_document(s).st.paths.len(),
        xml_document(s).st.paths[i].segment == (PathSegment::Element { name, sibling_index }),
    ensures
        ({
            let paths = xml_document(s).st.paths;
            let parent = paths[i].parent;
            let all = paths.filter(|e: PathEntry| is_sibling(e, parent, name)).len();
            let up_to = paths.take(i + 1).filter(|e: PathEntry| is_sibling(e, parent, name)).len();
            sibling_index == if all == 1 {
                0
            } else {
                up_to as int
            }
        }),
{
    law_sibling_index(s, i, name, sibling_index);
    let paths = xml_document(s).st.paths;
    let parent = paths[i].parent;
    lemma_sibling_filter(paths, parent, name);
    lemma_sibling_filter(paths.take(i + 1), parent, name);
    assert(paths.take(i + 1).drop_last() =~= paths.take(i));
}

/// The `=` and the value behind it are found.
proof fn lemma_value_at(s: Seq<u8>, name: Seq<u8>, g1: Seq<u8>, g2: Seq<u8>, body: Seq<u8>)
    requires
        is_name(name),
        is_gap(g1),
        is_gap(g2),
        body.len() > 0,
        !is_ws(body[0]),
        s == name + (g1 + (seq![0x3du8] + g2) + body),
    ensures
        ({
            let eq = (name.len() + g1.len()) as int;
            let v = eq + 1 + g2.len();
            &&& index_from(s, 0, 0x3d) == eq < s.len()
            &&& skip_ws_from(s, eq + 1) == v
            &&& stands(s, v, body)
            &&& v + body.len() == s.len()
        }),
{
    let eq = (name.len() + g1.len()) as int;
    let v = eq + 1 + g2.len();
    let front = name + g1;
    assert(s =~= front + (seq![0x3du8] + (g2 + body)));
    assert(s.subrange(0, s.len() as int) =~= s);
    lemma_stands_parts(s, 0, front, seq![0x3du8] + (g2 + body));
    lemma_stands_parts(s, eq, seq![0x3du8], g2 + body);
    lemma_stands_parts(s, eq + 1, g2, body);
    lemma_stands_byte(s, eq, seq![0x3du8], 0);
    lemma_stands_byte(s, v, body, 0);
    assert forall|i: int| 0 <= i < front.len() implies #[trigger] front[i] != 0x3d by {
        if i < name.len() {
            assert(in_name(name[i]));
        } else {
            assert(front[i] == g1[i - name.len()]);
        }
    }
    lemma_find_byte(s, 0, front, 0x3d);
    lemma_gap(s, eq + 1, g2);
}

/// The value of an attribute is what stands in its quotes or behind its
/// `=`; one without a value stands for itself.
pub proof fn law_xml_attribute_value(a: XmlAttr)
    requires
        a.valid(),
    ensures
        attr_value(a.text().skip(a.gap.len() as int)) == match a.value {
            XmlValue::Absent => a.name,
            XmlValue::Quoted(g1, g2, q, v) => v,
            XmlValue::Bare(g1, g2, v) => v,
        },
{
    let s = a.text().skip(a.gap.len() as int);
    assert(s =~= a.name + (a.value.lead() + a.value.body()));
    match a.value {
        XmlValue::Absent => {
            assert(s =~= a.name);
            lemma_index_from(s, 0, 0x3d);
            assert forall|i: int| 0 <= i < s.len() implies #[trigger] s[i] != 0x3d by {
                assert(in_name(a.name[i]));
            }
        },
        XmlValue::Quoted(g1, g2, b, x) => {
            let body = a.value.body();
            lemma_value_at(s, a.name, g1, g2, body);
            let v = (a.name.len() + g1.len() + 1 + g2.len()) as int;
            lemma_stands_byte(s, v, body, 0);
            lemma_stands_parts(s, v, seq![b], x + seq![b]);
            lemma_stands_parts(s, v + 1, x, seq![b]);
            lemma_stands_byte(s, v + 1 + x.len(), seq![b], 0);
            lemma_find_byte(s, v + 1, x, b);
        },
        XmlValue::Bare(g1, g2, x) => {
            lemma_value_at(s, a.name, g1, g2, x);
            let v = (a.name.len() + g1.len() + 1 + g2.len()) as int;
            lemma_stands_byte(s, v, x, 0);
        },
    }
}

} // verus!
