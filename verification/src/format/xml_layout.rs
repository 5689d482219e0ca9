//! Law of prettified XML: how a document is laid out.

use vstd::prelude::*;

use crate::bytes::{index_from, is_ws, lemma_index_from};
use crate::format::json::line_indent;
use crate::format::json_layout::{lemma_indent_line, new_line};
use crate::format::json_text::{is_gap, lemma_stands_byte, lemma_stands_parts, stands};
use crate::format::xml::{
    cdata_close, cdata_open, comment_close, comment_open, has_text, in_block, open_tag_end,
    open_tag_self_closed, pi_close, token_at, tokens_from, xml_pretty, EmitState, TokKind,
};
use crate::format::xml_reindent::{blocky, emit_all, emit_first, lemma_emit_all, outer};
use crate::format::xml_text::{
    attrs_text, closing_text, in_name, is_name, lemma_closed, lemma_declared, lemma_find_byte, starts_name, XmlAttr,
    XmlNode, XmlNodes, XmlTag, XmlValue,
};

verus! {

// --- layout ---------------------------------------------------------

/// `x` holds a byte other than space, tab, line feed, carriage return.
pub open spec fn has_word(x: Seq<u8>) -> bool {
    exists|i: int| 0 <= i < x.len() && !((#[trigger] x[i]) == 0x20 || x[i] == 0x09 || x[i] == 0x0a || x[i] == 0x0d)
}

/// Values without quotes hold none.
pub open spec fn tidy_tag(tag: XmlTag) -> bool {
    tag.valid() && forall|i: int| 0 <= i < tag.attrs.len() ==> tidy_attr(#[trigger] tag.attrs[i])
}

pub open spec fn tidy_attr(a: XmlAttr) -> bool {
    a.valid() && (a.value matches XmlValue::Bare(g1, g2, v) ==> forall|i: int|
        0 <= i < v.len() ==> (#[trigger] v[i]) != 0x22 && v[i] != 0x27)
}

impl XmlNode {
    pub open spec fn tidy(self) -> bool
        decreases self,
    {
        &&& self.valid()
        &&& match self {
            XmlNode::Text(t) => t.len() > 0,
            XmlNode::Empty(tag) => tidy_tag(tag),
            XmlNode::Element(tag, nodes, gap) => tidy_tag(tag) && nodes.tidy(),
            _ => true,
        }
    }

    /// The node on lines of its own at the given level: text among
    /// elements is whitespace and goes; an element whose own text shows
    /// something stays as it is; any other has its contents on lines one
    /// level deeper and its closing tag on a line of its own.
    pub open spec fn lines(self, level: nat) -> Seq<u8>
        decreases self,
    {
        match self {
            XmlNode::Text(t) => Seq::empty(),
            XmlNode::Element(tag, nodes, gap) => if nodes.has_words() {
                new_line(level) + self.text()
            } else {
                new_line(level) + tag.text(seq![0x3eu8]) + (nodes.lines(level + 1) + (new_line(level) + closing_text(
                    tag.name,
                    gap,
                )))
            },
            _ => new_line(level) + self.text(),
        }
    }
}

impl XmlNodes {
    /// No two text nodes follow each other.
    pub open spec fn tidy(self) -> bool
        decreases self,
    {
        match self {
            XmlNodes::End => true,
            XmlNodes::More(node, rest) => node.tidy() && rest.tidy() && !(*node is Text && rest.starts_with_text()),
        }
    }

    pub open spec fn starts_with_text(self) -> bool {
        self matches XmlNodes::More(node, rest) && *node is Text
    }

    /// Text that shows something stands directly among these nodes.
    pub open spec fn has_words(self) -> bool
        decreases self,
    {
        match self {
            XmlNodes::End => false,
            XmlNodes::More(node, rest) => (*node matches XmlNode::Text(t) && has_word(t)) || rest.has_words(),
        }
    }

    pub open spec fn lines(self, level: nat) -> Seq<u8>
        decreases self,
    {
        match self {
            XmlNodes::End => Seq::empty(),
            XmlNodes::More(node, rest) => node.lines(level) + rest.lines(level),
        }
    }
}

// --- tokens ---------------------------------------------------------

proof fn lemma_scan_plain(s: Seq<u8>, p: int, x: Seq<u8>)
    requires
        stands(s, p, x),
        forall|i: int| 0 <= i < x.len() ==> (#[trigger] x[i]) != 0x22 && x[i] != 0x27 && x[i] != 0x3e,
    ensures
        open_tag_end(s, p) == open_tag_end(s, p + x.len()),
        open_tag_self_closed(s, p) == open_tag_self_closed(s, p + x.len()),
    decreases x.len(),
{
    if x.len() > 0 {
        lemma_stands_byte(s, p, x, 0);
        assert(x =~= seq![x[0]] + x.skip(1));
        lemma_stands_parts(s, p, seq![x[0]], x.skip(1));
        assert forall|i: int| 0 <= i < x.skip(1).len() implies (#[trigger] x.skip(1)[i]) != 0x22 && x.skip(1)[i] != 0x27
            && x.skip(1)[i] != 0x3e by {
            assert(x.skip(1)[i] == x[i + 1]);
        }
        lemma_scan_plain(s, p + 1, x.skip(1));
    }
}

proof fn lemma_gap_plain(x: Seq<u8>)
    requires
        is_gap(x),
    ensures
        forall|i: int|
            0 <= i < x.len() ==> (#[trigger] x[i]) != 0x22 && x[i] != 0x27 && x[i] != 0x3e && x[i] != 0x2f,
{
}

proof fn lemma_name_plain(x: Seq<u8>)
    requires
        is_name(x),
    ensures
        forall|i: int|
            0 <= i < x.len() ==> (#[trigger] x[i]) != 0x22 && x[i] != 0x27 && x[i] != 0x3e && x[i] != 0x2f,
{
    assert forall|i: int| 0 <= i < x.len() implies (#[trigger] x[i]) != 0x22 && x[i] != 0x27 && x[i] != 0x3e && x[i]
        != 0x2f by {
        assert(in_name(x[i]));
    }
}

proof fn lemma_scan_value(s: Seq<u8>, p: int, v: XmlValue)
    requires
        v.valid(),
        v matches XmlValue::Bare(g1, g2, x) ==> forall|i: int|
            0 <= i < x.len() ==> (#[trigger] x[i]) != 0x22 && x[i] != 0x27,
        stands(s, p, v.lead() + v.body()),
    ensures
        open_tag_end(s, p) == open_tag_end(s, p + v.lead().len() + v.body().len()),
        open_tag_self_closed(s, p) == open_tag_self_closed(s, p + v.lead().len() + v.body().len()),
        v.body().len() > 0 ==> v.body().last() != 0x2f,
{
    lemma_stands_parts(s, p, v.lead(), v.body());
    let q = p + v.lead().len();
    match v {
        XmlValue::Absent => {},
        XmlValue::Quoted(g1, g2, b, x) => {
            lemma_gap_plain(g1);
            lemma_gap_plain(g2);
            let lead = v.lead();
            assert forall|i: int| 0 <= i < lead.len() implies (#[trigger] lead[i]) != 0x22 && lead[i] != 0x27 && lead[i]
                != 0x3e by {
                if i < g1.len() {
                    assert(lead[i] == g1[i]);
                } else if i > g1.len() {
                    assert(lead[i] == g2[i - g1.len() - 1]);
                }
            }
            lemma_scan_plain(s, p, lead);
            lemma_stands_byte(s, q, v.body(), 0);
            lemma_stands_parts(s, q, seq![b], x + seq![b]);
            lemma_stands_parts(s, q + 1, x, seq![b]);
            lemma_stands_byte(s, q + 1 + x.len(), seq![b], 0);
            lemma_find_byte(s, q + 1, x, b);
            assert(v.body().last() == b);
        },
        XmlValue::Bare(g1, g2, x) => {
            lemma_gap_plain(g1);
            lemma_gap_plain(g2);
            let lead = v.lead();
            assert forall|i: int| 0 <= i < lead.len() implies (#[trigger] lead[i]) != 0x22 && lead[i] != 0x27 && lead[i]
                != 0x3e by {
                if i < g1.len() {
                    assert(lead[i] == g1[i]);
                } else if i > g1.len() {
                    assert(lead[i] == g2[i - g1.len() - 1]);
                }
            }
            lemma_scan_plain(s, p, lead);
            lemma_scan_plain(s, q, x);
        },
    }
}

proof fn lemma_scan_attr(s: Seq<u8>, p: int, a: XmlAttr)
    requires
        tidy_attr(a),
        stands(s, p, a.text()),
    ensures
        open_tag_end(s, p) == open_tag_end(s, p + a.text().len()),
        open_tag_self_closed(s, p) == open_tag_self_closed(s, p + a.text().len()),
        a.text().len() > 0,
        a.text().last() != 0x2f,
{
    let tail = a.value.lead() + a.value.body();
    lemma_gap_plain(a.gap);
    lemma_name_plain(a.name);
    lemma_stands_parts(s, p, a.gap, a.name + tail);
    lemma_stands_parts(s, p + a.gap.len(), a.name, tail);
    lemma_scan_plain(s, p, a.gap);
    lemma_scan_plain(s, p + a.gap.len(), a.name);
    lemma_scan_value(s, p + a.gap.len() + a.name.len(), a.value);
    if a.value is Absent {
        assert(a.text().last() == a.name.last());
        assert(a.name[a.name.len() - 1] != 0x2f);
    } else {
        assert(a.text().last() == a.value.body().last());
    }
}

proof fn lemma_scan_attrs(s: Seq<u8>, p: int, attrs: Seq<XmlAttr>)
    requires
        forall|i: int| 0 <= i < attrs.len() ==> tidy_attr(#[trigger] attrs[i]),
        stands(s, p, attrs_text(attrs)),
    ensures
        open_tag_end(s, p) == open_tag_end(s, p + attrs_text(attrs).len()),
        open_tag_self_closed(s, p) == open_tag_self_closed(s, p + attrs_text(attrs).len()),
        attrs_text(attrs).len() > 0 ==> attrs_text(attrs).last() != 0x2f,
    decreases attrs.len(),
{
    if attrs.len() > 0 {
        let rest = attrs.skip(1);
        assert forall|i: int| 0 <= i < rest.len() implies tidy_attr(#[trigger] rest[i]) by {
            assert(rest[i] == attrs[i + 1]);
        }
        lemma_stands_parts(s, p, attrs[0].text(), attrs_text(rest));
        lemma_scan_attr(s, p, attrs[0]);
        lemma_scan_attrs(s, p + attrs[0].text().len(), rest);
        if attrs_text(rest).len() > 0 {
            assert(attrs_text(attrs).last() == attrs_text(rest).last());
        } else {
            assert(attrs_text(attrs) =~= attrs[0].text());
        }
    }
}

/// A written opening tag is one token.
proof fn lemma_tag_token(tag: XmlTag, close: Seq<u8>, rest: Seq<u8>)
    requires
        tidy_tag(tag),
        close == seq![0x3eu8] || close == seq![0x2fu8, 0x3eu8],
    ensures
        token_at(tag.text(close) + rest, 0) == (
            if close.len() == 2 {
                TokKind::SelfClose
            } else {
                TokKind::Open
            },
            tag.text(close).len() as int,
        ),
{
    let x = tag.text(close);
    let s = x + rest;
    assert(s.subrange(0, s.len() as int) =~= s);
    lemma_stands_parts(s, 0, x, rest);
    let tail = attrs_text(tag.attrs) + (tag.gap + close);
    lemma_stands_byte(s, 0, x, 0);
    lemma_stands_parts(s, 0, seq![0x3cu8], tag.name + tail);
    lemma_stands_parts(s, 1, tag.name, tail);
    lemma_stands_byte(s, 1, tag.name, 0);
    let n = 1 + tag.name.len() as int;
    lemma_stands_parts(s, n, attrs_text(tag.attrs), tag.gap + close);
    let g = n + attrs_text(tag.attrs).len();
    lemma_stands_parts(s, g, tag.gap, close);
    let c = g + tag.gap.len();
    lemma_stands_byte(s, c, close, 0);
    lemma_name_plain(tag.name);
    lemma_gap_plain(tag.gap);
    lemma_scan_plain(s, 1, tag.name);
    lemma_scan_attrs(s, n, tag.attrs);
    lemma_scan_plain(s, g, tag.gap);
    assert(starts_name(tag.name[0]));
    if close.len() == 2 {
        lemma_stands_byte(s, c, close, 1);
        assert(open_tag_end(s, c) == open_tag_end(s, c + 1));
        assert(open_tag_self_closed(s, c) == open_tag_self_closed(s, c + 1));
    } else {
        if tag.gap.len() > 0 {
            lemma_stands_byte(s, g, tag.gap, tag.gap.len() - 1);
        } else if attrs_text(tag.attrs).len() > 0 {
            lemma_stands_byte(s, n, attrs_text(tag.attrs), attrs_text(tag.attrs).len() - 1);
        } else {
            lemma_stands_byte(s, 1, tag.name, tag.name.len() - 1);
        }
        assert(s[c - 1] != 0x2f);
    }
}

/// A written closing tag is one token.
proof fn lemma_close_token(name: Seq<u8>, gap: Seq<u8>, rest: Seq<u8>)
    requires
        is_name(name),
        is_gap(gap),
    ensures
        token_at(closing_text(name, gap) + rest, 0) == (TokKind::Close, closing_text(name, gap).len() as int),
{
    let x = closing_text(name, gap);
    let s = x + rest;
    assert(s.subrange(0, s.len() as int) =~= s);
    lemma_stands_parts(s, 0, x, rest);
    lemma_stands_byte(s, 0, x, 0);
    lemma_stands_byte(s, 0, x, 1);
    let inner = name + gap;
    lemma_stands_parts(s, 0, seq![0x3cu8, 0x2fu8], name + (gap + seq![0x3eu8]));
    assert(name + (gap + seq![0x3eu8]) =~= inner + seq![0x3eu8]);
    lemma_stands_parts(s, 2, inner, seq![0x3eu8]);
    lemma_stands_byte(s, 2 + inner.len() as int, seq![0x3eu8], 0);
    lemma_name_plain(name);
    lemma_gap_plain(gap);
    assert forall|i: int| 0 <= i < inner.len() implies #[trigger] inner[i] != 0x3e by {
        if i < name.len() {
            assert(inner[i] == name[i]);
        } else {
            assert(inner[i] == gap[i - name.len()]);
        }
    }
    lemma_find_byte(s, 2, inner, 0x3e);
}

/// The kind of token that other markup makes.
spec fn markup_kind(node: XmlNode) -> TokKind {
    match node {
        XmlNode::Comment(t) => TokKind::Comment,
        XmlNode::CData(t) => TokKind::CData,
        XmlNode::Instruction(t) => TokKind::Pi,
        XmlNode::Declaration(t) => TokKind::Doctype,
        XmlNode::Empty(tag) => TokKind::SelfClose,
        _ => TokKind::Text,
    }
}

spec fn is_leaf(node: XmlNode) -> bool {
    node is Comment || node is CData || node is Instruction || node is Declaration || node is Empty
}

/// Other markup is one token.
proof fn lemma_leaf_token(node: XmlNode, rest: Seq<u8>)
    requires
        node.tidy(),
        is_leaf(node),
    ensures
        token_at(node.text() + rest, 0) == (markup_kind(node), node.text().len() as int),
        node.text().len() > 0,
{
    let x = node.text();
    let s = x + rest;
    assert(s.subrange(0, s.len() as int) =~= s);
    lemma_stands_parts(s, 0, x, rest);
    match node {
        XmlNode::Empty(tag) => {
            lemma_tag_token(tag, seq![0x2fu8, 0x3eu8], rest);
        },
        XmlNode::Comment(t) => {
            let close = seq![0x2du8, 0x2du8, 0x3eu8];
            lemma_stands_byte(s, 0, x, 0);
            lemma_stands_byte(s, 0, x, 1);
            lemma_stands_byte(s, 0, x, 2);
            lemma_stands_byte(s, 0, x, 3);
            lemma_stands_parts(s, 0, seq![0x3cu8, 0x21u8, 0x2du8, 0x2du8], t + close);
            lemma_closed(s, 4, t, close);
            assert(comment_close() =~= close);
            assert(s.subrange(2, 4) =~= comment_open());
        },
        XmlNode::CData(t) => {
            let open = seq![0x3cu8, 0x21u8, 0x5bu8, 0x43u8, 0x44u8, 0x41u8, 0x54u8, 0x41u8, 0x5bu8];
            let close = seq![0x5du8, 0x5du8, 0x3eu8];
            lemma_stands_parts(s, 0, open, t + close);
            lemma_stands_byte(s, 0, open, 0);
            lemma_stands_byte(s, 0, open, 1);
            lemma_stands_byte(s, 0, open, 2);
            assert(s.subrange(0, 9) == open);
            assert(s.subrange(2, 9) =~= open.subrange(2, 9));
            assert(open.subrange(2, 9) =~= cdata_open());
            lemma_closed(s, 9, t, close);
            assert(cdata_close() =~= close);
            if crate::bytes::occurs_at(s, 2, comment_open()) {
                assert(s.subrange(2, 4)[0] == s[2]);
            }
        },
        XmlNode::Instruction(t) => {
            let close = seq![0x3fu8, 0x3eu8];
            lemma_stands_byte(s, 0, x, 0);
            lemma_stands_byte(s, 0, x, 1);
            lemma_stands_parts(s, 0, seq![0x3cu8, 0x3fu8], t + close);
            lemma_closed(s, 2, t, close);
            assert(pi_close() =~= close);
        },
        XmlNode::Declaration(t) => {
            lemma_stands_byte(s, 0, x, 0);
            lemma_stands_byte(s, 0, x, 1);
            lemma_stands_byte(s, 0, x, 2);
            lemma_stands_parts(s, 0, seq![0x3cu8, 0x21u8], t + seq![0x3eu8]);
            lemma_declared(s, 2, t);
            assert(x[2] == t[0]);
            if crate::bytes::occurs_at(s, 2, comment_open()) {
                assert(s.subrange(2, 4)[0] == s[2]);
            }
            if crate::bytes::occurs_at(s, 2, cdata_open()) {
                assert(s.subrange(2, 9)[0] == s[2]);
            }
        },
        _ => {},
    }
}

proof fn lemma_text_token(t: Seq<u8>, rest: Seq<u8>)
    requires
        t.len() > 0,
        forall|i: int| 0 <= i < t.len() ==> #[trigger] t[i] != 0x3c,
        rest.len() > 0 ==> rest[0] == 0x3c,
    ensures
        token_at(t + rest, 0) == (TokKind::Text, t.len() as int),
{
    let s = t + rest;
    assert(s[0] == t[0]);
    lemma_index_from(s, 0, 0x3c);
    let k = index_from(s, 0, 0x3c);
    if k < t.len() {
        assert(s[k] == t[k]);
    }
    if rest.len() > 0 {
        assert(s[t.len() as int] == rest[0]);
    }
}

proof fn lemma_word(x: Seq<u8>)
    ensures
        has_text(x) == has_word(x),
{
    if has_text(x) {
        let i = choose|i: int| 0 <= i < x.len() && !is_ws(#[trigger] x[i]);
        assert(!(x[i] == 0x20 || x[i] == 0x09 || x[i] == 0x0a || x[i] == 0x0d));
    }
    if has_word(x) {
        let i = choose|i: int|
            0 <= i < x.len() && !((#[trigger] x[i]) == 0x20 || x[i] == 0x09 || x[i] == 0x0a || x[i] == 0x0d);
        assert(!is_ws(x[i]));
    }
}

/// What the first token of `x + rest` leaves.
proof fn lemma_split(x: Seq<u8>, rest: Seq<u8>)
    ensures
        (x + rest).take(x.len() as int) == x,
        (x + rest).skip(x.len() as int) == rest,
{
    assert((x + rest).take(x.len() as int) =~= x);
    assert((x + rest).skip(x.len() as int) =~= rest);
}

/// The nodes of an element, or the end of the document, follow text.
spec fn goes_on(node: XmlNode, rest: Seq<u8>) -> bool {
    node is Text && rest.len() > 0 ==> rest[0] == 0x3c
}

proof fn lemma_starts(nodes: XmlNodes, tail: Seq<u8>)
    requires
        nodes.tidy(),
        !nodes.starts_with_text(),
        tail.len() > 0 ==> tail[0] == 0x3c,
    ensures
        (nodes.text() + tail).len() > 0 ==> (nodes.text() + tail)[0] == 0x3c,
{
    match nodes {
        XmlNodes::End => {
            assert(nodes.text() + tail =~= tail);
        },
        XmlNodes::More(node, rest) => {
            assert(node.text().len() > 0 && node.text()[0] == 0x3c);
            assert((nodes.text() + tail)[0] == node.text()[0]);
        },
    }
}

// --- block or mixed -------------------------------------------------

proof fn lemma_block_node(node: XmlNode, depth: int, rest: Seq<u8>)
    requires
        node.tidy(),
        goes_on(node, rest),
        depth >= 0,
    ensures
        blocky(node.text() + rest, depth) == (!(depth == 0 && (node matches XmlNode::Text(t) && has_word(t))) && blocky(
            rest,
            depth,
        )),
    decreases node, 0int,
{
    let x = node.text();
    lemma_split(x, rest);
    match node {
        XmlNode::Text(t) => {
            lemma_text_token(t, rest);
            lemma_word(t);
        },
        XmlNode::Element(tag, nodes, gap) => {
            let open = tag.text(seq![0x3eu8]);
            let close = closing_text(tag.name, gap);
            let inner = nodes.text() + (close + rest);
            assert(x + rest =~= open + inner);
            lemma_tag_token(tag, seq![0x3eu8], inner);
            lemma_split(open, inner);
            assert((close + rest)[0] == close[0]);
            lemma_block_nodes(*nodes, depth + 1, close + rest);
            lemma_close_token(tag.name, gap, rest);
            lemma_split(close, rest);
        },
        _ => {
            lemma_leaf_token(node, rest);
        },
    }
}

/// Elements inside do not matter, only text directly among the nodes.
proof fn lemma_block_nodes(nodes: XmlNodes, depth: int, tail: Seq<u8>)
    requires
        nodes.tidy(),
        depth >= 0,
        tail.len() > 0 ==> tail[0] == 0x3c,
    ensures
        blocky(nodes.text() + tail, depth) == (!(depth == 0 && nodes.has_words()) && blocky(tail, depth)),
    decreases nodes, 1int,
{
    match nodes {
        XmlNodes::End => {
            assert(nodes.text() + tail =~= tail);
        },
        XmlNodes::More(node, rest) => {
            let w = rest.text() + tail;
            assert(nodes.text() + tail =~= node.text() + w);
            if *node is Text {
                lemma_starts(*rest, tail);
            }
            lemma_block_node(*node, depth, w);
            lemma_block_nodes(*rest, depth, tail);
        },
    }
}

// --- mixed contents -------------------------------------------------

/// In an element with text of its own everything stays as it is.
proof fn lemma_mixed_node(node: XmlNode, rest: Seq<u8>, e: EmitState)
    requires
        node.tidy(),
        goes_on(node, rest),
        !in_block(e.modes),
    ensures
        emit_all(node.text() + rest, e) == emit_all(rest, EmitState { out: e.out + node.text(), modes: e.modes }),
    decreases node, 0int,
{
    let x = node.text();
    let w = x + rest;
    lemma_split(x, rest);
    match node {
        XmlNode::Text(t) => {
            lemma_text_token(t, rest);
        },
        XmlNode::Element(tag, nodes, gap) => {
            let open = tag.text(seq![0x3eu8]);
            let close = closing_text(tag.name, gap);
            let inner = nodes.text() + (close + rest);
            assert(w =~= open + inner);
            lemma_tag_token(tag, seq![0x3eu8], inner);
            lemma_split(open, inner);
            let e1 = EmitState { out: e.out + open, modes: e.modes.push(false) };
            assert(emit_first(w, e) == e1);
            assert((close + rest)[0] == close[0]);
            lemma_mixed_nodes(*nodes, close + rest, e1);
            let e2 = EmitState { out: e1.out + nodes.text(), modes: e1.modes };
            lemma_close_token(tag.name, gap, rest);
            lemma_split(close, rest);
            assert(outer(e2.modes) =~= e.modes);
            let e3 = emit_first(close + rest, e2);
            assert(e3.out =~= e.out + x);
            assert(emit_all(close + rest, e2) == emit_all(rest, e3));
        },
        _ => {
            lemma_leaf_token(node, rest);
        },
    }
}

proof fn lemma_mixed_nodes(nodes: XmlNodes, tail: Seq<u8>, e: EmitState)
    requires
        nodes.tidy(),
        !in_block(e.modes),
        tail.len() > 0 ==> tail[0] == 0x3c,
    ensures
        emit_all(nodes.text() + tail, e) == emit_all(tail, EmitState { out: e.out + nodes.text(), modes: e.modes }),
    decreases nodes, 1int,
{
    match nodes {
        XmlNodes::End => {
            assert(nodes.text() + tail =~= tail);
            assert(e.out + nodes.text() =~= e.out);
        },
        XmlNodes::More(node, rest) => {
            let w = rest.text() + tail;
            assert(nodes.text() + tail =~= node.text() + w);
            if *node is Text {
                lemma_starts(*rest, tail);
            }
            lemma_mixed_node(*node, w, e);
            let next = EmitState { out: e.out + node.text(), modes: e.modes };
            lemma_mixed_nodes(*rest, tail, next);
            assert(next.out + rest.text() =~= e.out + nodes.text());
        },
    }
}

// --- blocks ---------------------------------------------------------

/// `out` with `lines` behind it; the first line of all starts without a
/// line feed.
pub open spec fn below(out: Seq<u8>, lines: Seq<u8>) -> Seq<u8> {
    if out.len() == 0 && lines.len() > 0 {
        lines.skip(1)
    } else {
        out + lines
    }
}

spec fn in_lines(e: EmitState) -> bool {
    in_block(e.modes) && (e.out.len() == 0 ==> e.modes.len() == 0)
}

proof fn lemma_below(out: Seq<u8>, level: nat, text: Seq<u8>)
    requires
        out.len() == 0 ==> level == 0,
    ensures
        below(out, new_line(level) + text) == if out.len() == 0 {
            text
        } else {
            out + line_indent(level) + text
        },
{
    lemma_indent_line(level);
    if out.len() == 0 {
        assert((new_line(0) + text).skip(1) =~= text);
    } else {
        assert(out + (new_line(level) + text) =~= out + line_indent(level) + text);
    }
}

proof fn lemma_below_twice(out: Seq<u8>, a: Seq<u8>, b: Seq<u8>)
    requires
        a.len() > 1 || a.len() == 0,
    ensures
        below(below(out, a), b) == below(out, a + b),
{
    if out.len() == 0 && a.len() > 1 {
        assert(a.skip(1) + b =~= (a + b).skip(1));
    } else if a.len() == 0 {
        assert(a + b =~= b);
        assert(out + a =~= out);
    } else {
        assert((out + a) + b =~= out + (a + b));
    }
}

/// What an opening tag among elements leads to.
proof fn lemma_line_open(tag: XmlTag, nodes: XmlNodes, gap: Seq<u8>, rest: Seq<u8>, e: EmitState)
    requires
        tidy_tag(tag),
        nodes.tidy(),
        is_gap(gap),
        in_lines(e),
    ensures
        ({
            let open = tag.text(seq![0x3eu8]);
            let inner = nodes.text() + (closing_text(tag.name, gap) + rest);
            emit_all(open + inner, e) == emit_all(
                inner,
                EmitState {
                    out: below(e.out, new_line(e.modes.len()) + open),
                    modes: e.modes.push(!nodes.has_words()),
                },
            )
        }),
        below(e.out, new_line(e.modes.len()) + tag.text(seq![0x3eu8])).len() > 0,
{
    let open = tag.text(seq![0x3eu8]);
    let close = closing_text(tag.name, gap);
    let inner = nodes.text() + (close + rest);
    lemma_tag_token(tag, seq![0x3eu8], inner);
    lemma_split(open, inner);
    assert((close + rest)[0] == close[0]);
    lemma_block_nodes(nodes, 0, close + rest);
    lemma_close_token(tag.name, gap, rest);
    assert(blocky(close + rest, 0));
    lemma_below(e.out, e.modes.len(), open);
    let w = open + inner;
    assert(emit_first(w, e) == EmitState {
        out: below(e.out, new_line(e.modes.len()) + open),
        modes: e.modes.push(!nodes.has_words()),
    });
}

/// What a closing tag leads to.
proof fn lemma_line_close(name: Seq<u8>, gap: Seq<u8>, rest: Seq<u8>, out: Seq<u8>, modes: Seq<bool>, block: bool)
    requires
        is_name(name),
        is_gap(gap),
    ensures
        emit_all(closing_text(name, gap) + rest, EmitState { out, modes: modes.push(block) }) == emit_all(
            rest,
            EmitState {
                out: if block {
                    out + (new_line(modes.len()) + closing_text(name, gap))
                } else {
                    out + closing_text(name, gap)
                },
                modes,
            },
        ),
{
    let close = closing_text(name, gap);
    let e = EmitState { out, modes: modes.push(block) };
    lemma_close_token(name, gap, rest);
    lemma_split(close, rest);
    lemma_indent_line(modes.len());
    assert(outer(e.modes) =~= modes);
    let next = emit_first(close + rest, e);
    if block {
        assert(next.out =~= out + (new_line(modes.len()) + close));
    }
}

proof fn lemma_line_leaf(node: XmlNode, rest: Seq<u8>, e: EmitState)
    requires
        node.tidy(),
        is_leaf(node),
        in_lines(e),
    ensures
        emit_all(node.text() + rest, e) == emit_all(
            rest,
            EmitState { out: below(e.out, new_line(e.modes.len()) + node.text()), modes: e.modes },
        ),
        node.text().len() > 0,
{
    let x = node.text();
    lemma_split(x, rest);
    lemma_leaf_token(node, rest);
    lemma_below(e.out, e.modes.len(), x);
    assert(emit_first(x + rest, e).out == below(e.out, new_line(e.modes.len()) + x));
}

proof fn lemma_line_text(t: Seq<u8>, rest: Seq<u8>, e: EmitState)
    requires
        XmlNode::Text(t).tidy(),
        goes_on(XmlNode::Text(t), rest),
        in_lines(e),
        !has_word(t),
    ensures
        emit_all(t + rest, e) == emit_all(rest, e),
{
    lemma_split(t, rest);
    lemma_text_token(t, rest);
    lemma_word(t);
}

proof fn lemma_block_out(out: Seq<u8>, level: nat, open: Seq<u8>, mid: Seq<u8>, close: Seq<u8>)
    requires
        out.len() == 0 ==> level == 0,
        open.len() > 0,
    ensures
        ({
            let first = below(out, new_line(level) + open);
            let end = new_line(level) + close;
            &&& first.len() > 0
            &&& below(first, mid) == first + mid
            &&& (first + mid) + end == below(out, new_line(level) + open + (mid + end))
        }),
{
    let end = new_line(level) + close;
    lemma_below(out, level, open);
    let first = below(out, new_line(level) + open);
    lemma_below_twice(out, new_line(level) + open, mid + end);
    assert((first + mid) + end =~= first + (mid + end));
}

proof fn lemma_mixed_out(out: Seq<u8>, level: nat, open: Seq<u8>, mid: Seq<u8>, close: Seq<u8>)
    requires
        out.len() == 0 ==> level == 0,
    ensures
        (below(out, new_line(level) + open) + mid) + close == below(out, new_line(level) + (open + (mid + close))),
{
    lemma_below(out, level, open);
    lemma_below(out, level, open + (mid + close));
    assert((below(out, new_line(level) + open) + mid) + close =~= below(out, new_line(level) + (open + (mid + close))));
}

proof fn lemma_line_element(tag: XmlTag, nodes: XmlNodes, gap: Seq<u8>, rest: Seq<u8>, e: EmitState)
    requires
        tidy_tag(tag),
        nodes.tidy(),
        is_gap(gap),
        in_lines(e),
    ensures
        ({
            let open = tag.text(seq![0x3eu8]);
            let close = closing_text(tag.name, gap);
            let level = e.modes.len();
            emit_all(open + (nodes.text() + (close + rest)), e) == emit_all(
                rest,
                EmitState {
                    out: below(
                        e.out,
                        if nodes.has_words() {
                            new_line(level) + (open + (nodes.text() + close))
                        } else {
                            new_line(level) + open + (nodes.lines(level + 1) + (new_line(level) + close))
                        },
                    ),
                    modes: e.modes,
                },
            )
        }),
    decreases nodes, 2int,
{
    let open = tag.text(seq![0x3eu8]);
    let close = closing_text(tag.name, gap);
    let level = e.modes.len();
    let block = !nodes.has_words();
    lemma_line_open(tag, nodes, gap, rest, e);
    let e1 = EmitState { out: below(e.out, new_line(level) + open), modes: e.modes.push(block) };
    assert((close + rest)[0] == close[0]);
    if block {
        let mid = nodes.lines(level + 1);
        assert(e1.modes.len() == level + 1);
        lemma_line_nodes(nodes, close + rest, e1);
        lemma_block_out(e.out, level, open, mid, close);
        lemma_line_close(tag.name, gap, rest, e1.out + mid, e.modes, true);
    } else {
        lemma_mixed_nodes(nodes, close + rest, e1);
        lemma_mixed_out(e.out, level, open, nodes.text(), close);
        lemma_line_close(tag.name, gap, rest, e1.out + nodes.text(), e.modes, false);
    }
}

/// A node among elements goes on lines of its own.
proof fn lemma_line_node(node: XmlNode, rest: Seq<u8>, e: EmitState)
    requires
        node.tidy(),
        goes_on(node, rest),
        in_lines(e),
        node matches XmlNode::Text(t) ==> !has_word(t),
    ensures
        emit_all(node.text() + rest, e) == emit_all(
            rest,
            EmitState { out: below(e.out, node.lines(e.modes.len())), modes: e.modes },
        ),
        node.lines(e.modes.len()).len() == 0 || node.lines(e.modes.len()).len() > 1,
    decreases node, 0int,
{
    match node {
        XmlNode::Text(t) => {
            lemma_line_text(t, rest, e);
            assert(below(e.out, Seq::empty()) =~= e.out);
        },
        XmlNode::Element(tag, nodes, gap) => {
            let open = tag.text(seq![0x3eu8]);
            let close = closing_text(tag.name, gap);
            assert(node.text() + rest =~= open + (nodes.text() + (close + rest)));
            lemma_line_element(tag, *nodes, gap, rest, e);
        },
        _ => {
            lemma_line_leaf(node, rest, e);
            assert(node.lines(e.modes.len()) == new_line(e.modes.len()) + node.text());
        },
    }
}

proof fn lemma_line_nodes(nodes: XmlNodes, tail: Seq<u8>, e: EmitState)
    requires
        nodes.tidy(),
        in_lines(e),
        !nodes.has_words(),
        tail.len() > 0 ==> tail[0] == 0x3c,
    ensures
        emit_all(nodes.text() + tail, e) == emit_all(
            tail,
            EmitState { out: below(e.out, nodes.lines(e.modes.len())), modes: e.modes },
        ),
        nodes.lines(e.modes.len()).len() == 0 || nodes.lines(e.modes.len()).len() > 1,
    decreases nodes, 1int,
{
    let level = e.modes.len();
    match nodes {
        XmlNodes::End => {
            assert(nodes.text() + tail =~= tail);
            assert(below(e.out, Seq::empty()) =~= e.out);
        },
        XmlNodes::More(node, rest) => {
            let w = rest.text() + tail;
            assert(nodes.text() + tail =~= node.text() + w);
            if *node is Text {
                lemma_starts(*rest, tail);
            }
            lemma_line_node(*node, w, e);
            let next = EmitState { out: below(e.out, node.lines(level)), modes: e.modes };
            lemma_line_nodes(*rest, tail, next);
            lemma_below_twice(e.out, node.lines(level), rest.lines(level));
        },
    }
}

proof fn lemma_node_last(node: XmlNode, level: nat)
    ensures
        node.lines(level).len() > 0 ==> node.lines(level).last() == 0x3e,
{
    let l = node.lines(level);
    match node {
        XmlNode::Text(t) => {},
        XmlNode::Element(tag, nodes, gap) => {
            let close = closing_text(tag.name, gap);
            assert(close.last() == 0x3e);
            if nodes.has_words() {
                assert(node.text().last() == close.last());
                assert(l.last() == node.text().last());
            } else {
                assert(l.last() == close.last());
            }
        },
        XmlNode::Empty(tag) => {
            assert(node.text().last() == 0x3e);
            assert(l.last() == node.text().last());
        },
        _ => {
            assert(node.text().last() == 0x3e);
            assert(l.last() == node.text().last());
        },
    }
}

proof fn lemma_nodes_last(nodes: XmlNodes, level: nat)
    ensures
        nodes.lines(level).len() > 0 ==> nodes.lines(level).last() == 0x3e,
    decreases nodes,
{
    if let XmlNodes::More(node, rest) = nodes {
        lemma_node_last(*node, level);
        lemma_nodes_last(*rest, level);
        if rest.lines(level).len() > 0 {
            assert(nodes.lines(level).last() == rest.lines(level).last());
        } else {
            assert(nodes.lines(level) =~= node.lines(level));
        }
    }
}

/// Prettifying a document lays its nodes out on lines, and a line feed
/// ends it. (Only whitespace stands between the outermost nodes.)
pub proof fn law_xml_layout(nodes: XmlNodes)
    requires
        nodes.tidy(),
        !nodes.has_words(),
        nodes.text().len() <= usize::MAX,
    ensures
        xml_pretty(nodes.text()) == if nodes.lines(0).len() == 0 {
            Seq::empty()
        } else {
            nodes.lines(0).skip(1) + seq![0x0au8]
        },
{
    let s = nodes.text();
    let none = EmitState { out: Seq::empty(), modes: Seq::empty() };
    assert(tokens_from(s, 0).skip(0) =~= tokens_from(s, 0));
    assert(s.skip(0) =~= s);
    lemma_emit_all(s, tokens_from(s, 0), 0, 0, none);
    lemma_line_nodes(nodes, Seq::empty(), none);
    assert(nodes.text() + Seq::<u8>::empty() =~= s);
    lemma_nodes_last(nodes, 0);
    let l = nodes.lines(0);
    if l.len() > 0 {
        let out = l.skip(1);
        assert(out.last() == l.last());
        assert(out.push(0x0a) =~= out + seq![0x0au8]);
    }
}

} // verus!
