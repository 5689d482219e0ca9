//! Laws of XML markup: which open elements a closing tag closes, where a
//! declaration ends, and which `<` starts nothing.

use vstd::prelude::*;

use crate::bytes::occurs_at;
use crate::format::json_text::{is_gap, lemma_stands_byte, lemma_stands_parts, stands};
use crate::format::xml::{
    cdata_open, close_frames, comment_open, doctype_end, matching_frame, xml_close_tag, xml_markup, xml_span, XmlState,
    XmlStep,
};
use crate::format::xml_text::{closing_text, is_name, lemma_find_byte, lemma_name, starts_name};
use crate::format::{intern_id, PathEntry, PathSegment, StyleKind};

verus! {

/// The open elements, outermost first, the root in front.
pub open spec fn open_elements(x: XmlState) -> bool {
    &&& x.stack.len() > 0 && x.stack[0] == 0
    &&& x.st.names.no_duplicates()
    &&& x.st.names.len() < u32::MAX
    &&& forall|j: int|
        1 <= j < x.stack.len() ==> 0 < (#[trigger] x.stack[j]) < x.st.paths.len() && (
        x.st.paths[x.stack[j] as int].segment matches PathSegment::Element { name, .. } && name < x.st.names.len())
    &&& forall|i: int, j: int| 0 <= i < j < x.stack.len() ==> (#[trigger] x.stack[i]) != (#[trigger] x.stack[j])
}

/// The `j`th open element is called `name`.
pub open spec fn is_called(x: XmlState, j: int, name: Seq<u8>) -> bool {
    x.st.paths[x.stack[j] as int].segment matches PathSegment::Element { name: id, .. } && x.st.names[id as int] == name
}

proof fn lemma_frame(x: XmlState, n: int, name: Seq<u8>, id: u32)
    requires
        open_elements(x),
        1 <= n <= x.stack.len(),
        x.st.names.contains(name) ==> id == x.st.names.index_of(name),
        !x.st.names.contains(name) ==> id == x.st.names.len(),
    ensures
        match matching_frame(x.st.paths, x.stack.take(n), id) {
            Some(k) => 1 <= k < n && is_called(x, k, name) && forall|j: int|
                k < j < n ==> !#[trigger] is_called(x, j, name),
            None => forall|j: int| 1 <= j < n ==> !#[trigger] is_called(x, j, name),
        },
    decreases n,
{
    let stack = x.stack.take(n);
    if n > 1 {
        let top = x.stack[n - 1];
        assert(stack.last() == top);
        assert(stack.drop_last() =~= x.stack.take(n - 1));
        lemma_frame(x, n - 1, name, id);
        if let PathSegment::Element { name: other, .. } = x.st.paths[top as int].segment {
            assert(other < x.st.names.len());
            if other == id {
                assert(x.st.names.contains(name));
                assert(x.st.names[id as int] == name);
            } else if x.st.names[other as int] == name {
                assert(x.st.names.contains(name));
                assert(x.st.names[x.st.names.index_of(name)] == name);
            }
        }
    } else {
        assert(stack.last() == 0);
    }
}

proof fn lemma_frames_closed(x: XmlState, depth: int, end: int)
    requires
        x.stack.len() > 0,
        0 <= depth <= x.stack.len(),
        forall|j: int| 0 <= j < x.stack.len() ==> (#[trigger] x.stack[j]) < x.st.paths.len(),
        forall|i: int, j: int| 0 <= i < j < x.stack.len() ==> (#[trigger] x.stack[i]) != (#[trigger] x.stack[j]),
    ensures
        ({
            let y = close_frames(x, depth, end);
            &&& y.stack == x.stack.take(depth)
            &&& y.st.paths.len() == x.st.paths.len()
            &&& forall|j: int|
                depth <= j < x.stack.len() ==> y.st.paths[(#[trigger] x.stack[j]) as int] == (PathEntry {
                    end: end as u32,
                    ..x.st.paths[x.stack[j] as int]
                })
            &&& forall|i: int|
                0 <= i < x.st.paths.len() && (forall|j: int|
                    depth <= j < x.stack.len() ==> (#[trigger] x.stack[j]) != i) ==> (#[trigger] y.st.paths[i])
                    == x.st.paths[i]
        }),
    decreases x.stack.len(),
{
    if x.stack.len() > depth {
        let top = x.stack.last() as int;
        let n = x.stack.len() - 1;
        let next = XmlState { st: x.st.closed_at(top, end), stack: x.stack.drop_last() };
        assert(x.stack[n] == top);
        if n > 0 {
            assert forall|j: int| 0 <= j < next.stack.len() implies (#[trigger] next.stack[j])
                < next.st.paths.len() by {
                assert(next.stack[j] == x.stack[j]);
            }
            assert forall|i: int, j: int| 0 <= i < j < next.stack.len() implies (#[trigger] next.stack[i]) != (
            #[trigger] next.stack[j]) by {
                assert(x.stack[i] != x.stack[j]);
            }
            lemma_frames_closed(next, depth, end);
        }
        let y = close_frames(next, depth, end);
        assert(next.stack.take(depth) =~= x.stack.take(depth));
        assert forall|j: int| depth <= j < x.stack.len() implies y.st.paths[(#[trigger] x.stack[j]) as int] == (
        PathEntry { end: end as u32, ..x.st.paths[x.stack[j] as int] }) by {
            if j < n {
                assert(next.stack[j] == x.stack[j]);
                assert(x.stack[j] != x.stack[n]);
            } else {
                assert forall|k: int| depth <= k < next.stack.len() implies (#[trigger] next.stack[k]) != top by {
                    assert(next.stack[k] == x.stack[k]);
                    assert(x.stack[k] != x.stack[n]);
                }
                assert(y.st.paths[top] == next.st.paths[top]);
            }
        }
        assert forall|i: int|
            0 <= i < x.st.paths.len() && (forall|j: int|
                depth <= j < x.stack.len() ==> (#[trigger] x.stack[j]) != i) implies (#[trigger] y.st.paths[i])
            == x.st.paths[i] by {
            assert(x.stack[n] != i);
            assert forall|k: int| depth <= k < next.stack.len() implies (#[trigger] next.stack[k]) != i by {
                assert(next.stack[k] == x.stack[k]);
            }
            assert(y.st.paths[i] == next.st.paths[i]);
        }
    } else {
        assert(x.stack.take(depth) =~= x.stack);
    }
}

/// A closing tag ends the innermost open element of its name, and with it
/// every element still open inside; without such an element it closes
/// nothing.
pub proof fn law_xml_close_tag(s: Seq<u8>, x: XmlState, name: Seq<u8>, gap: Seq<u8>)
    requires
        is_name(name),
        is_gap(gap),
        stands(s, x.st.pos, closing_text(name, gap)),
        open_elements(x),
        x.st.paths.len() > 0,
    ensures
        ({
            let y = xml_close_tag(s, x);
            let end = x.st.pos + closing_text(name, gap).len();
            &&& y.st.pos == end
            &&& (forall|j: int| 1 <= j < x.stack.len() ==> !#[trigger] is_called(x, j, name)) ==> y.stack == x.stack
                && y.st.paths == x.st.paths
            &&& forall|k: int|
                1 <= k < x.stack.len() && #[trigger] is_called(x, k, name) && (forall|j: int|
                    k < j < x.stack.len() ==> !#[trigger] is_called(x, j, name)) ==> {
                    &&& y.stack == x.stack.take(k)
                    &&& forall|j: int|
                        k <= j < x.stack.len() ==> y.st.paths[(#[trigger] x.stack[j]) as int].end == end as u32
                    &&& forall|i: int|
                        0 <= i < x.st.paths.len() && (forall|j: int|
                            k <= j < x.stack.len() ==> (#[trigger] x.stack[j]) != i) ==> (#[trigger] y.st.paths[i])
                            == x.st.paths[i]
                }
        }),
{
    let p = x.st.pos;
    let text = closing_text(name, gap);
    let end = p + text.len();
    lemma_stands_parts(s, p, seq![0x3cu8, 0x2fu8], name + (gap + seq![0x3eu8]));
    lemma_stands_parts(s, p + 2, name, gap + seq![0x3eu8]);
    let n = p + 2 + name.len();
    lemma_stands_parts(s, n, gap, seq![0x3eu8]);
    lemma_stands_byte(s, n + gap.len(), seq![0x3eu8], 0);
    if gap.len() > 0 {
        lemma_stands_byte(s, n, gap, 0);
    }
    lemma_name(s, p + 2, name);
    lemma_find_byte(s, n, gap, 0x3e);
    let id = intern_id(x.st.names, name) as u32;
    lemma_frame(x, x.stack.len() as int, name, id);
    assert(x.stack.take(x.stack.len() as int) =~= x.stack);
    let after = XmlState {
        st: x.st.with_name(name).styled(p + 2, n, StyleKind::Tag).at(end),
        stack: x.stack,
    };
    assert forall|j: int| 0 <= j < after.stack.len() implies (#[trigger] after.stack[j]) < after.st.paths.len() by {
        if j > 0 {
            assert(0 < x.stack[j] < x.st.paths.len());
        }
    }
    if let Some(k) = matching_frame(x.st.paths, x.stack, id) {
        lemma_frames_closed(after, k, end);
        assert(is_called(x, k, name));
        let y = close_frames(after, k, end);
        lemma_close_pos(after, k, end);
        assert(xml_close_tag(s, x) == y);
        assert forall|j: int| 1 <= j < x.stack.len() && #[trigger] is_called(x, j, name) && (forall|i: int|
            j < i < x.stack.len() ==> !#[trigger] is_called(x, i, name)) implies j == k by {
            if j < k {
                assert(!is_called(x, k, name));
            }
        }
    }
}

proof fn lemma_close_pos(x: XmlState, depth: int, end: int)
    ensures
        close_frames(x, depth, end).st.pos == x.st.pos,
    decreases x.stack.len(),
{
    if x.stack.len() > depth && x.stack.len() > 0 {
        let next = XmlState { st: x.st.closed_at(x.stack.last() as int, end), stack: x.stack.drop_last() };
        lemma_close_pos(next, depth, end);
    }
}

/// A `<` that neither a name, `/`, `!` nor `?` follows is text.
pub proof fn law_xml_stray_angle(s: Seq<u8>, x: XmlState)
    requires
        0 <= x.st.pos < s.len(),
        s[x.st.pos] == 0x3c,
        x.st.pos + 1 < s.len() ==> {
            let b = s[x.st.pos + 1];
            b != 0x3f && b != 0x21 && b != 0x2f && !starts_name(b)
        },
    ensures
        xml_markup(s, x) == (XmlStep { x: x.at(x.st.pos + 1), err: None }),
{
}

/// A piece of a declaration.
pub enum DeclPiece {
    /// No quotes, brackets or `>`.
    Plain(Seq<u8>),
    /// In quotes; anything but that quote.
    Quoted(u8, Seq<u8>),
    /// In brackets; no quotes or brackets.
    Subset(Seq<u8>),
}

impl DeclPiece {
    pub open spec fn valid(self) -> bool {
        match self {
            DeclPiece::Plain(t) => forall|i: int|
                0 <= i < t.len() ==> (#[trigger] t[i]) != 0x3e && t[i] != 0x22 && t[i] != 0x27 && t[i] != 0x5b && t[i]
                    != 0x5d,
            DeclPiece::Quoted(q, t) => (q == 0x22 || q == 0x27) && forall|i: int|
                0 <= i < t.len() ==> #[trigger] t[i] != q,
            DeclPiece::Subset(t) => forall|i: int|
                0 <= i < t.len() ==> (#[trigger] t[i]) != 0x22 && t[i] != 0x27 && t[i] != 0x5b && t[i] != 0x5d,
        }
    }

    pub open spec fn text(self) -> Seq<u8> {
        match self {
            DeclPiece::Plain(t) => t,
            DeclPiece::Quoted(q, t) => seq![q] + (t + seq![q]),
            DeclPiece::Subset(t) => seq![0x5bu8] + (t + seq![0x5du8]),
        }
    }
}

pub open spec fn decl_text(pieces: Seq<DeclPiece>) -> Seq<u8>
    decreases pieces.len(),
{
    if pieces.len() == 0 {
        seq![0x3eu8]
    } else {
        pieces[0].text() + decl_text(pieces.skip(1))
    }
}

proof fn lemma_decl_run(s: Seq<u8>, p: int, t: Seq<u8>, depth: int)
    requires
        stands(s, p, t),
        forall|i: int|
            0 <= i < t.len() ==> (#[trigger] t[i]) != 0x22 && t[i] != 0x27 && t[i] != 0x5b && t[i] != 0x5d && (t[i]
                != 0x3e || depth > 0),
    ensures
        doctype_end(s, p, depth) == doctype_end(s, p + t.len(), depth),
    decreases t.len(),
{
    if t.len() > 0 {
        lemma_stands_byte(s, p, t, 0);
        let rest = t.skip(1);
        assert(t =~= seq![t[0]] + rest);
        lemma_stands_parts(s, p, seq![t[0]], rest);
        assert forall|i: int| 0 <= i < rest.len() implies (#[trigger] rest[i]) != 0x22 && rest[i] != 0x27 && rest[i]
            != 0x5b && rest[i] != 0x5d && (rest[i] != 0x3e || depth > 0) by {
            assert(rest[i] == t[i + 1]);
        }
        lemma_decl_run(s, p + 1, rest, depth);
    }
}

proof fn lemma_decl_pieces(s: Seq<u8>, p: int, pieces: Seq<DeclPiece>)
    requires
        forall|i: int| 0 <= i < pieces.len() ==> (#[trigger] pieces[i]).valid(),
        stands(s, p, decl_text(pieces)),
    ensures
        doctype_end(s, p, 0) == p + decl_text(pieces).len(),
    decreases pieces.len(),
{
    if pieces.len() == 0 {
        lemma_stands_byte(s, p, seq![0x3eu8], 0);
    } else {
        let piece = pieces[0];
        let rest = pieces.skip(1);
        assert(piece.valid());
        lemma_stands_parts(s, p, piece.text(), decl_text(rest));
        assert forall|i: int| 0 <= i < rest.len() implies (#[trigger] rest[i]).valid() by {
            assert(rest[i] == pieces[i + 1]);
        }
        lemma_decl_pieces(s, p + piece.text().len(), rest);
        match piece {
            DeclPiece::Plain(t) => {
                lemma_decl_run(s, p, t, 0);
            },
            DeclPiece::Quoted(q, t) => {
                lemma_stands_byte(s, p, piece.text(), 0);
                lemma_stands_parts(s, p, seq![q], t + seq![q]);
                lemma_stands_parts(s, p + 1, t, seq![q]);
                lemma_stands_byte(s, p + 1 + t.len(), seq![q], 0);
                lemma_find_byte(s, p + 1, t, q);
            },
            DeclPiece::Subset(t) => {
                lemma_stands_byte(s, p, piece.text(), 0);
                lemma_stands_parts(s, p, seq![0x5bu8], t + seq![0x5du8]);
                lemma_stands_parts(s, p + 1, t, seq![0x5du8]);
                lemma_stands_byte(s, p + 1 + t.len(), seq![0x5du8], 0);
                lemma_decl_run(s, p + 1, t, 1);
            },
        }
    }
}

/// A declaration ends at the first `>` that stands neither in quotes nor
/// in brackets, and is one span.
pub proof fn law_xml_declaration(s: Seq<u8>, x: XmlState, pieces: Seq<DeclPiece>)
    requires
        forall|i: int| 0 <= i < pieces.len() ==> (#[trigger] pieces[i]).valid(),
        stands(s, x.st.pos, seq![0x3cu8, 0x21u8] + decl_text(pieces)),
        decl_text(pieces)[0] != 0x2d && decl_text(pieces)[0] != 0x5b,
    ensures
        xml_markup(s, x) == (XmlStep {
            x: xml_span(x, x.st.pos + 2 + decl_text(pieces).len(), StyleKind::Pi),
            err: None,
        }),
{
    let p = x.st.pos;
    let text = decl_text(pieces);
    lemma_decl_len(pieces);
    lemma_stands_byte(s, p, seq![0x3cu8, 0x21u8] + text, 1);
    lemma_stands_parts(s, p, seq![0x3cu8, 0x21u8], text);
    lemma_stands_byte(s, p + 2, text, 0);
    lemma_decl_pieces(s, p + 2, pieces);
    if occurs_at(s, p + 2, comment_open()) {
        assert(s.subrange(p + 2, p + 4)[0] == s[p + 2]);
    }
    if occurs_at(s, p + 2, cdata_open()) {
        assert(s.subrange(p + 2, p + 9)[0] == s[p + 2]);
    }
}

proof fn lemma_decl_len(pieces: Seq<DeclPiece>)
    ensures
        decl_text(pieces).len() > 0,
    decreases pieces.len(),
{
    if pieces.len() > 0 {
        lemma_decl_len(pieces.skip(1));
    }
}

} // verus!
