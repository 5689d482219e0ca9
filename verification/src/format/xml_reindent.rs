//! Law of prettified XML: prettifying it again changes nothing.

use vstd::prelude::*;

use crate::ascii::{APOS, BANG, GT, LBRACKET, LF, LT, QUESTION, QUOTE, RBRACKET, SLASH};
use crate::bytes::{
    find_from, index_from, is_ws, lemma_find_from, lemma_index_from, lemma_skip_ws_bounds, occurs_at, past_byte,
    skip_ws_from,
};
use crate::format::json::line_indent;
use crate::format::pretty_laws::lemma_trim_ws_end;
use crate::format::xml::{
    block_from, cdata_close, cdata_open, closed_by, comment_close, comment_open, doctype_end, emit_from, emit_line,
    emit_token, has_text, in_block, is_name_start, lemma_doctype_end, lemma_open_tag_end, lemma_token_at,
    open_tag_end, open_tag_self_closed, pi_close, tok_bytes, token_at, tokens_from, trim_ws_end, trimmed_ws,
    with_final_newline, xml_pretty, EmitState, Tok, TokKind,
};

verus! {

// --- where tokens end -----------------------------------------------

/// `a` and `b` begin with the same `n` bytes.
spec fn agree(a: Seq<u8>, b: Seq<u8>, n: int) -> bool {
    &&& 0 <= n <= a.len()
    &&& n <= b.len()
    &&& forall|k: int| 0 <= k < n ==> #[trigger] a[k] == b[k]
}

/// The tag scanned from `i` has a `>` outside quotes.
spec fn tag_closed(s: Seq<u8>, i: int) -> bool
    decreases s.len() - i,
{
    proof {
        if 0 <= i < s.len() {
            lemma_index_from(s, i + 1, s[i]);
        }
    }
    if i < 0 || i >= s.len() {
        false
    } else if s[i] == QUOTE || s[i] == APOS {
        tag_closed(s, past_byte(s, i + 1, s[i]))
    } else if s[i] == GT {
        true
    } else {
        tag_closed(s, i + 1)
    }
}

/// The declaration scanned from `i` has a `>` outside quotes and
/// brackets.
spec fn decl_closed(s: Seq<u8>, i: int, depth: int) -> bool
    decreases s.len() - i,
{
    proof {
        if 0 <= i < s.len() {
            lemma_index_from(s, i + 1, s[i]);
        }
    }
    if i < 0 || i >= s.len() {
        false
    } else if s[i] == QUOTE || s[i] == APOS {
        decl_closed(s, past_byte(s, i + 1, s[i]), depth)
    } else if s[i] == LBRACKET {
        decl_closed(s, i + 1, depth + 1)
    } else if s[i] == RBRACKET {
        decl_closed(s, i + 1, depth - 1)
    } else if s[i] == GT && depth <= 0 {
        true
    } else {
        decl_closed(s, i + 1, depth)
    }
}

/// Markup, not text, starts at the beginning of `w`.
spec fn is_markup(w: Seq<u8>) -> bool {
    &&& w.len() >= 2
    &&& w[0] == LT
    &&& w[1] == QUESTION || w[1] == BANG || w[1] == SLASH || is_name_start(w[1])
}

/// The markup at the beginning of `w` has its closing bytes.
spec fn markup_closed(w: Seq<u8>) -> bool {
    if w[1] == QUESTION {
        find_from(w, 2, pi_close()) is Some
    } else if w[1] == BANG {
        if occurs_at(w, 2, comment_open()) {
            find_from(w, 4, comment_close()) is Some
        } else if occurs_at(w, 2, cdata_open()) {
            find_from(w, 9, cdata_close()) is Some
        } else {
            decl_closed(w, 2, 0)
        }
    } else if w[1] == SLASH {
        index_from(w, 2, GT) < w.len()
    } else {
        tag_closed(w, 1)
    }
}

proof fn lemma_index_agree(a: Seq<u8>, b: Seq<u8>, n: int, i: int, x: u8)
    requires
        agree(a, b, n),
        0 <= i,
        index_from(a, i, x) < n,
    ensures
        index_from(b, i, x) == index_from(a, i, x),
    decreases n - i,
{
    if i < a.len() {
        lemma_index_from(a, i, x);
        if i < n {
            assert(a[i] == b[i]);
            if a[i] != x {
                lemma_index_agree(a, b, n, i + 1, x);
            }
        }
    }
}

proof fn lemma_tag_agree(a: Seq<u8>, b: Seq<u8>, n: int, i: int)
    requires
        agree(a, b, n),
        1 <= i,
        tag_closed(a, i),
        open_tag_end(a, i) <= n,
    ensures
        open_tag_end(b, i) == open_tag_end(a, i),
        open_tag_self_closed(b, i) == open_tag_self_closed(a, i),
        tag_closed(b, i),
        i < open_tag_end(a, i),
    decreases a.len() - i,
{
    if i < a.len() {
        lemma_open_tag_end(a, i);
        lemma_index_from(a, i + 1, a[i]);
        if a[i] == QUOTE || a[i] == APOS {
            let p = past_byte(a, i + 1, a[i]);
            lemma_open_tag_end(a, p);
            lemma_tag_agree(a, b, n, p);
            assert(a[i] == b[i]);
            lemma_index_agree(a, b, n, i + 1, a[i]);
        } else if a[i] == GT {
            assert(a[i] == b[i]);
            assert(a[i - 1] == b[i - 1]);
        } else {
            lemma_tag_agree(a, b, n, i + 1);
            assert(a[i] == b[i]);
        }
    }
}

proof fn lemma_decl_agree(a: Seq<u8>, b: Seq<u8>, n: int, i: int, depth: int)
    requires
        agree(a, b, n),
        1 <= i,
        decl_closed(a, i, depth),
        doctype_end(a, i, depth) <= n,
    ensures
        doctype_end(b, i, depth) == doctype_end(a, i, depth),
        decl_closed(b, i, depth),
        i < doctype_end(a, i, depth) <= a.len(),
        a[doctype_end(a, i, depth) - 1] == GT,
    decreases a.len() - i,
{
    if i < a.len() {
        lemma_doctype_end(a, i, depth);
        lemma_index_from(a, i + 1, a[i]);
        if a[i] == QUOTE || a[i] == APOS {
            let p = past_byte(a, i + 1, a[i]);
            lemma_doctype_end(a, p, depth);
            lemma_decl_agree(a, b, n, p, depth);
            assert(a[i] == b[i]);
            lemma_index_agree(a, b, n, i + 1, a[i]);
        } else if a[i] == LBRACKET {
            lemma_decl_agree(a, b, n, i + 1, depth + 1);
            assert(a[i] == b[i]);
        } else if a[i] == RBRACKET {
            lemma_decl_agree(a, b, n, i + 1, depth - 1);
            assert(a[i] == b[i]);
        } else if a[i] == GT && depth <= 0 {
            assert(a[i] == b[i]);
        } else {
            lemma_decl_agree(a, b, n, i + 1, depth);
            assert(a[i] == b[i]);
        }
    }
}

proof fn lemma_occurs_agree(a: Seq<u8>, b: Seq<u8>, n: int, i: int, pat: Seq<u8>)
    requires
        agree(a, b, n),
        0 <= i,
        i + pat.len() <= n,
    ensures
        occurs_at(a, i, pat) == occurs_at(b, i, pat),
{
    assert(a.subrange(i, i + pat.len()) =~= b.subrange(i, i + pat.len()));
}

proof fn lemma_find_agree(a: Seq<u8>, b: Seq<u8>, n: int, i: int, pat: Seq<u8>)
    requires
        agree(a, b, n),
        0 <= i,
        pat.len() > 0,
        find_from(a, i, pat) matches Some(k) && k + pat.len() <= n,
    ensures
        find_from(b, i, pat) == find_from(a, i, pat),
    decreases a.len() - i,
{
    if i < a.len() {
        lemma_find_from(a, i, pat);
        lemma_occurs_agree(a, b, n, i, pat);
        if !occurs_at(a, i, pat) {
            lemma_find_agree(a, b, n, i + 1, pat);
        }
    }
}

/// What the byte at `i + j` must be where `pat` occurs at `i`.
proof fn lemma_occurs_byte(s: Seq<u8>, i: int, pat: Seq<u8>, j: int)
    requires
        occurs_at(s, i, pat),
        0 <= j < pat.len(),
    ensures
        i + j < s.len(),
        s[i + j] == pat[j],
{
    assert(s.subrange(i, i + pat.len())[j] == s[i + j]);
}

/// Closed markup is the same token whatever follows it.
proof fn lemma_closed_token(w: Seq<u8>, y: Seq<u8>)
    requires
        is_markup(w),
        markup_closed(w),
    ensures
        ({
            let (kind, n) = token_at(w, 0);
            &&& 2 <= n <= w.len()
            &&& token_at(w.take(n) + y, 0) == (kind, n)
            &&& is_markup(w.take(n) + y)
            &&& markup_closed(w.take(n) + y)
        }),
{
    lemma_token_at(w, 0);
    let (kind, n) = token_at(w, 0);
    let b = w.take(n) + y;
    lemma_find_from(w, 2, pi_close());
    lemma_find_from(w, 4, comment_close());
    lemma_find_from(w, 9, cdata_close());
    lemma_index_from(w, 2, GT);
    if w[1] != QUESTION && w[1] != BANG && w[1] != SLASH {
        lemma_open_tag_end(w, 1);
        lemma_tag_agree(w, w, w.len() as int, 1);
    } else if w[1] == BANG && !occurs_at(w, 2, comment_open()) && !occurs_at(w, 2, cdata_open()) {
        lemma_doctype_end(w, 2, 0);
        lemma_decl_agree(w, w, w.len() as int, 2, 0);
    }
    assert(n >= 2);
    assert(agree(w, b, n));
    assert(b[0] == w[0] && b[1] == w[1]);
    if w[1] == QUESTION {
        lemma_find_agree(w, b, n, 2, pi_close());
    } else if w[1] == BANG {
        if occurs_at(w, 2, comment_open()) {
            lemma_occurs_agree(w, b, n, 2, comment_open());
            lemma_find_agree(w, b, n, 4, comment_close());
        } else if occurs_at(w, 2, cdata_open()) {
            lemma_occurs_agree(w, b, n, 2, comment_open());
            lemma_occurs_agree(w, b, n, 2, cdata_open());
            lemma_find_agree(w, b, n, 9, cdata_close());
        } else {
            lemma_decl_agree(w, b, n, 2, 0);
            assert(b[n - 1] == GT);
            if occurs_at(b, 2, comment_open()) {
                if n >= 4 {
                    lemma_occurs_agree(w, b, n, 2, comment_open());
                } else {
                    lemma_occurs_byte(b, 2, comment_open(), n - 3);
                }
            }
            if occurs_at(b, 2, cdata_open()) {
                if n >= 9 {
                    lemma_occurs_agree(w, b, n, 2, cdata_open());
                } else {
                    lemma_occurs_byte(b, 2, cdata_open(), n - 3);
                }
            }
        }
    } else if w[1] == SLASH {
        lemma_index_agree(w, b, n, 2, GT);
    } else {
        lemma_tag_agree(w, b, n, 1);
    }
}

// --- unfinished markup ----------------------------------------------

/// `w` with one more line feed, or without.
spec fn fed(w: Seq<u8>, feed: bool) -> Seq<u8> {
    if feed {
        w.push(LF)
    } else {
        w
    }
}

proof fn lemma_index_fed(w: Seq<u8>, feed: bool, i: int, x: u8)
    requires
        0 <= i <= w.len(),
        x != LF,
    ensures
        index_from(w, i, x) < w.len() ==> index_from(fed(w, feed), i, x) == index_from(w, i, x),
        index_from(w, i, x) >= w.len() ==> index_from(fed(w, feed), i, x) == fed(w, feed).len(),
    decreases w.len() - i,
{
    let v = fed(w, feed);
    if i < w.len() {
        assert(v[i] == w[i]);
        if w[i] != x {
            lemma_index_fed(w, feed, i + 1, x);
        }
    } else if feed {
        assert(v[i] == LF);
        assert(index_from(v, i + 1, x) == i + 1);
    }
}

proof fn lemma_tag_fed(w: Seq<u8>, feed: bool, i: int)
    requires
        1 <= i <= w.len(),
        !tag_closed(w, i),
    ensures
        open_tag_end(w, i) == w.len(),
        open_tag_end(fed(w, feed), i) == fed(w, feed).len(),
        !open_tag_self_closed(w, i),
        !open_tag_self_closed(fed(w, feed), i),
        !tag_closed(fed(w, feed), i),
    decreases w.len() - i,
{
    let v = fed(w, feed);
    if i < w.len() {
        assert(v[i] == w[i]);
        lemma_index_from(w, i + 1, w[i]);
        if w[i] == QUOTE || w[i] == APOS {
            let p = past_byte(w, i + 1, w[i]);
            lemma_index_fed(w, feed, i + 1, w[i]);
            lemma_tag_fed(w, feed, p);
            if index_from(w, i + 1, w[i]) >= w.len() {
                assert(past_byte(v, i + 1, v[i]) == v.len());
            }
        } else {
            lemma_tag_fed(w, feed, i + 1);
        }
    } else if feed {
        assert(v[i] == LF);
        assert(open_tag_end(v, i + 1) == i + 1);
        assert(!open_tag_self_closed(v, i + 1));
        assert(!tag_closed(v, i + 1));
    }
}

proof fn lemma_decl_fed(w: Seq<u8>, feed: bool, i: int, depth: int)
    requires
        1 <= i <= w.len(),
        !decl_closed(w, i, depth),
    ensures
        doctype_end(w, i, depth) == w.len(),
        doctype_end(fed(w, feed), i, depth) == fed(w, feed).len(),
        !decl_closed(fed(w, feed), i, depth),
    decreases w.len() - i,
{
    let v = fed(w, feed);
    if i < w.len() {
        assert(v[i] == w[i]);
        lemma_index_from(w, i + 1, w[i]);
        if w[i] == QUOTE || w[i] == APOS {
            let p = past_byte(w, i + 1, w[i]);
            lemma_index_fed(w, feed, i + 1, w[i]);
            lemma_decl_fed(w, feed, p, depth);
            if index_from(w, i + 1, w[i]) >= w.len() {
                assert(past_byte(v, i + 1, v[i]) == v.len());
            }
        } else if w[i] == LBRACKET {
            lemma_decl_fed(w, feed, i + 1, depth + 1);
        } else if w[i] == RBRACKET {
            lemma_decl_fed(w, feed, i + 1, depth - 1);
        } else {
            lemma_decl_fed(w, feed, i + 1, depth);
        }
    } else if feed {
        assert(v[i] == LF);
        assert(doctype_end(v, i + 1, depth) == i + 1);
        assert(!decl_closed(v, i + 1, depth));
    }
}

proof fn lemma_occurs_fed(w: Seq<u8>, feed: bool, i: int, pat: Seq<u8>)
    requires
        0 <= i,
        pat.len() > 0,
        forall|j: int| 0 <= j < pat.len() ==> #[trigger] pat[j] != LF,
    ensures
        occurs_at(fed(w, feed), i, pat) == occurs_at(w, i, pat),
{
    let v = fed(w, feed);
    if occurs_at(v, i, pat) {
        lemma_occurs_byte(v, i, pat, pat.len() - 1);
        assert(i + pat.len() <= w.len());
        assert(v.subrange(i, i + pat.len()) =~= w.subrange(i, i + pat.len()));
    }
    if occurs_at(w, i, pat) {
        assert(v.subrange(i, i + pat.len()) =~= w.subrange(i, i + pat.len()));
    }
}

proof fn lemma_find_fed(w: Seq<u8>, feed: bool, i: int, pat: Seq<u8>)
    requires
        0 <= i,
        pat.len() > 0,
        forall|j: int| 0 <= j < pat.len() ==> #[trigger] pat[j] != LF,
        find_from(w, i, pat) is None,
    ensures
        find_from(fed(w, feed), i, pat) is None,
    decreases w.len() + 1 - i,
{
    let v = fed(w, feed);
    if i < v.len() {
        lemma_occurs_fed(w, feed, i, pat);
        if i < w.len() {
            lemma_find_fed(w, feed, i + 1, pat);
        } else {
            assert(find_from(v, i + 1, pat) is None);
        }
    }
}

/// Markup that is not closed runs to the end, also of a text with one
/// more line feed.
proof fn lemma_open_token(w: Seq<u8>, feed: bool)
    requires
        is_markup(w),
        !markup_closed(w),
    ensures
        token_at(w, 0).1 == w.len(),
        token_at(fed(w, feed), 0) == (token_at(w, 0).0, fed(w, feed).len() as int),
        is_markup(fed(w, feed)),
        !markup_closed(fed(w, feed)),
{
    let v = fed(w, feed);
    assert(v[0] == w[0] && v[1] == w[1]);
    lemma_occurs_fed(w, feed, 2, comment_open());
    lemma_occurs_fed(w, feed, 2, cdata_open());
    if w[1] == QUESTION {
        lemma_find_fed(w, feed, 2, pi_close());
    } else if w[1] == BANG {
        if occurs_at(w, 2, comment_open()) {
            lemma_find_fed(w, feed, 4, comment_close());
        } else if occurs_at(w, 2, cdata_open()) {
            lemma_find_fed(w, feed, 9, cdata_close());
        } else {
            lemma_decl_fed(w, feed, 2, 0);
        }
    } else if w[1] == SLASH {
        lemma_index_from(w, 2, GT);
        lemma_index_fed(w, feed, 2, GT);
    } else {
        lemma_tag_fed(w, feed, 1);
    }
}

// --- tokens of a text by itself -------------------------------------

/// No visible text stands directly in the element whose contents are
/// `w`, up to its closing tag; `depth` elements are open inside it.
pub open spec fn blocky(w: Seq<u8>, depth: int) -> bool
    decreases w.len(),
{
    proof {
        if w.len() > 0 {
            lemma_token_at(w, 0);
        }
    }
    if w.len() == 0 {
        true
    } else {
        let (kind, n) = token_at(w, 0);
        if kind == TokKind::Open {
            blocky(w.skip(n), depth + 1)
        } else if kind == TokKind::Close {
            depth <= 0 || blocky(w.skip(n), depth - 1)
        } else if kind == TokKind::Text && depth == 0 && has_text(w.take(n)) {
            false
        } else {
            blocky(w.skip(n), depth)
        }
    }
}

/// What a token adds: `block` says whether the element that it opens has
/// no visible text directly in it.
pub open spec fn emit_one(kind: TokKind, text: Seq<u8>, block: bool, e: EmitState) -> EmitState {
    match kind {
        TokKind::Open => EmitState { out: emit_line(e, text), modes: e.modes.push(in_block(e.modes) && block) },
        TokKind::Close => EmitState {
            out: if in_block(e.modes) {
                e.out + line_indent(outer(e.modes).len()) + text
            } else {
                e.out + text
            },
            modes: outer(e.modes),
        },
        TokKind::Text => if !in_block(e.modes) {
            EmitState { out: e.out + text, ..e }
        } else if has_text(text) {
            EmitState { out: emit_line(e, trimmed_ws(text)), ..e }
        } else {
            e
        },
        _ => EmitState { out: emit_line(e, text), ..e },
    }
}

pub open spec fn outer(modes: Seq<bool>) -> Seq<bool> {
    if modes.len() == 0 {
        modes
    } else {
        modes.drop_last()
    }
}

/// The state after the first token of `w`.
pub open spec fn emit_first(w: Seq<u8>, e: EmitState) -> EmitState {
    let (kind, n) = token_at(w, 0);
    emit_one(kind, w.take(n), blocky(w.skip(n), 0), e)
}

/// The state after all tokens of `w`.
pub open spec fn emit_all(w: Seq<u8>, e: EmitState) -> EmitState
    decreases w.len(),
{
    proof {
        if w.len() > 0 {
            lemma_token_at(w, 0);
        }
    }
    if w.len() == 0 {
        e
    } else {
        emit_all(w.skip(token_at(w, 0).1), emit_first(w, e))
    }
}

/// What the tokens of `w` add to the prettified text.
spec fn rest_out(w: Seq<u8>, e: EmitState) -> Seq<u8> {
    with_final_newline(emit_all(w, e).out).skip(e.out.len() as int)
}

proof fn lemma_index_shift(s: Seq<u8>, from: int, i: int, x: u8)
    requires
        0 <= from <= i <= s.len(),
    ensures
        index_from(s.skip(from), i - from, x) == index_from(s, i, x) - from,
        past_byte(s.skip(from), i - from, x) == past_byte(s, i, x) - from,
    decreases s.len() - i,
{
    if i < s.len() {
        assert(s.skip(from)[i - from] == s[i]);
        if s[i] != x {
            lemma_index_shift(s, from, i + 1, x);
        }
    }
}

proof fn lemma_occurs_shift(s: Seq<u8>, from: int, i: int, pat: Seq<u8>)
    requires
        0 <= from <= i,
        from <= s.len(),
    ensures
        occurs_at(s.skip(from), i - from, pat) == occurs_at(s, i, pat),
{
    if i + pat.len() <= s.len() {
        assert(s.skip(from).subrange(i - from, i - from + pat.len()) =~= s.subrange(i, i + pat.len()));
    }
}

proof fn lemma_closed_by_shift(s: Seq<u8>, from: int, i: int, pat: Seq<u8>)
    requires
        0 <= from <= i,
        from <= s.len(),
    ensures
        closed_by(s.skip(from), i - from, pat) == closed_by(s, i, pat) - from,
    decreases s.len() - i,
{
    lemma_occurs_shift(s, from, i, pat);
    if i < s.len() && !occurs_at(s, i, pat) {
        lemma_closed_by_shift(s, from, i + 1, pat);
    }
}

proof fn lemma_tag_shift(s: Seq<u8>, from: int, i: int)
    requires
        0 <= from < i <= s.len(),
    ensures
        open_tag_end(s.skip(from), i - from) == open_tag_end(s, i) - from,
        open_tag_self_closed(s.skip(from), i - from) == open_tag_self_closed(s, i),
    decreases s.len() - i,
{
    if i < s.len() {
        assert(s.skip(from)[i - from] == s[i]);
        assert(s.skip(from)[i - from - 1] == s[i - 1]);
        lemma_index_from(s, i + 1, s[i]);
        lemma_index_shift(s, from, i + 1, s[i]);
        if s[i] == QUOTE || s[i] == APOS {
            lemma_tag_shift(s, from, past_byte(s, i + 1, s[i]));
        } else if s[i] != GT {
            lemma_tag_shift(s, from, i + 1);
        }
    }
}

proof fn lemma_decl_shift(s: Seq<u8>, from: int, i: int, depth: int)
    requires
        0 <= from <= i <= s.len(),
    ensures
        doctype_end(s.skip(from), i - from, depth) == doctype_end(s, i, depth) - from,
    decreases s.len() - i,
{
    if i < s.len() {
        assert(s.skip(from)[i - from] == s[i]);
        lemma_index_from(s, i + 1, s[i]);
        lemma_index_shift(s, from, i + 1, s[i]);
        if s[i] == QUOTE || s[i] == APOS {
            lemma_decl_shift(s, from, past_byte(s, i + 1, s[i]), depth);
        } else if s[i] == LBRACKET {
            lemma_decl_shift(s, from, i + 1, depth + 1);
        } else if s[i] == RBRACKET {
            lemma_decl_shift(s, from, i + 1, depth - 1);
        } else if !(s[i] == GT && depth <= 0) {
            lemma_decl_shift(s, from, i + 1, depth);
        }
    }
}

/// A token depends on the text from its start on alone.
proof fn lemma_token_shift(s: Seq<u8>, i: int)
    requires
        0 <= i < s.len(),
    ensures
        token_at(s.skip(i), 0) == (token_at(s, i).0, token_at(s, i).1 - i),
{
    let w = s.skip(i);
    assert(w[0] == s[i]);
    lemma_index_shift(s, i, i, LT);
    if i + 1 < s.len() {
        assert(w[1] == s[i + 1]);
        lemma_closed_by_shift(s, i, i + 2, pi_close());
        lemma_occurs_shift(s, i, i + 2, comment_open());
        lemma_occurs_shift(s, i, i + 2, cdata_open());
        lemma_closed_by_shift(s, i, i + 4, comment_close());
        lemma_closed_by_shift(s, i, i + 9, cdata_close());
        lemma_decl_shift(s, i, i + 2, 0);
        lemma_index_shift(s, i, i + 2, GT);
        lemma_tag_shift(s, i, i + 1);
    }
}

proof fn lemma_block_all(s: Seq<u8>, toks: Seq<Tok>, k: int, i: int, depth: int)
    requires
        0 <= i <= s.len() <= usize::MAX,
        0 <= k <= toks.len(),
        toks.skip(k) == tokens_from(s, i),
    ensures
        block_from(s, toks, k, depth) == blocky(s.skip(i), depth),
    decreases s.len() - i,
{
    if i < s.len() {
        lemma_token_at(s, i);
        lemma_token_shift(s, i);
        let (kind, end) = token_at(s, i);
        assert(toks.skip(k).len() > 0);
        assert(toks[k] == toks.skip(k)[0]);
        assert(toks.skip(k + 1) =~= toks.skip(k).skip(1));
        assert(tokens_from(s, i).skip(1) =~= tokens_from(s, end));
        assert(s.skip(i).skip(end - i) =~= s.skip(end));
        assert(s.skip(i).take(end - i) =~= tok_bytes(s, toks[k]));
        lemma_block_all(s, toks, k + 1, end, depth + 1);
        lemma_block_all(s, toks, k + 1, end, depth - 1);
        lemma_block_all(s, toks, k + 1, end, depth);
    } else {
        assert(toks.skip(k).len() == 0);
    }
}

pub proof fn lemma_emit_all(s: Seq<u8>, toks: Seq<Tok>, k: int, i: int, e: EmitState)
    requires
        0 <= i <= s.len() <= usize::MAX,
        0 <= k <= toks.len(),
        toks.skip(k) == tokens_from(s, i),
    ensures
        emit_from(s, toks, k, e) == emit_all(s.skip(i), e),
    decreases s.len() - i,
{
    if i < s.len() {
        lemma_token_at(s, i);
        lemma_token_shift(s, i);
        let (kind, end) = token_at(s, i);
        assert(toks.skip(k).len() > 0);
        assert(toks[k] == toks.skip(k)[0]);
        assert(toks.skip(k + 1) =~= toks.skip(k).skip(1));
        assert(tokens_from(s, i).skip(1) =~= tokens_from(s, end));
        assert(s.skip(i).skip(end - i) =~= s.skip(end));
        assert(s.skip(i).take(end - i) =~= tok_bytes(s, toks[k]));
        lemma_block_all(s, toks, k + 1, end, 0);
        lemma_emit_all(s, toks, k + 1, end, emit_token(s, toks, k, e));
    } else {
        assert(toks.skip(k).len() == 0);
    }
}

// --- what one token adds --------------------------------------------

/// `s` holds whitespace alone.
spec fn all_ws(s: Seq<u8>) -> bool {
    forall|i: int| 0 <= i < s.len() ==> is_ws(#[trigger] s[i])
}

/// `s` begins and ends with a byte that is not whitespace.
spec fn solid(s: Seq<u8>) -> bool {
    &&& s.len() > 0
    &&& !is_ws(s[0])
    &&& !is_ws(s.last())
}

spec fn no_lt(s: Seq<u8>) -> bool {
    forall|i: int| 0 <= i < s.len() ==> #[trigger] s[i] != LT
}

/// The line break before a token other than a closing tag.
spec fn lead(e: EmitState) -> Seq<u8> {
    if in_block(e.modes) && e.out.len() > 0 {
        line_indent(e.modes.len())
    } else {
        Seq::empty()
    }
}

/// The line break before a token of the given kind.
spec fn break_before(kind: TokKind, e: EmitState) -> Seq<u8> {
    if kind != TokKind::Close {
        lead(e)
    } else if in_block(e.modes) {
        line_indent(outer(e.modes).len())
    } else {
        Seq::empty()
    }
}

proof fn lemma_indent(depth: nat)
    ensures
        all_ws(line_indent(depth)),
        no_lt(line_indent(depth)),
        line_indent(depth).len() > 0,
        line_indent(depth)[0] == LF,
{
}

/// Visible text without its outer whitespace is solid.
proof fn lemma_trimmed(s: Seq<u8>)
    requires
        has_text(s),
    ensures
        solid(trimmed_ws(s)),
        no_lt(s) ==> no_lt(trimmed_ws(s)),
        has_text(trimmed_ws(s)),
{
    let lo = skip_ws_from(s, 0);
    let hi = trim_ws_end(s, lo, s.len() as int);
    lemma_skip_ws_bounds(s, 0);
    lemma_trim_ws_end(s, lo, s.len() as int);
    let v = choose|i: int| 0 <= i < s.len() && !is_ws(#[trigger] s[i]);
    assert(lo <= v < hi);
    assert(trimmed_ws(s)[0] == s[lo]);
    assert(trimmed_ws(s).last() == s[hi - 1]);
}

/// Whitespace around solid text is what trimming takes away.
proof fn lemma_trim_around(a: Seq<u8>, t: Seq<u8>, b: Seq<u8>)
    requires
        all_ws(a),
        solid(t),
        all_ws(b),
    ensures
        trimmed_ws(a + t + b) == t,
        has_text(a + t + b),
{
    let s = a + t + b;
    let lo = skip_ws_from(s, 0);
    let hi = trim_ws_end(s, lo, s.len() as int);
    lemma_skip_ws_bounds(s, 0);
    assert(s[a.len() as int] == t[0]);
    assert(s[a.len() + t.len() - 1] == t.last());
    if lo < a.len() {
        assert(s[lo] == a[lo]);
    }
    assert(lo == a.len());
    lemma_trim_ws_end(s, lo, s.len() as int);
    if hi > a.len() + t.len() {
        assert(s[hi - 1] == b[hi - 1 - a.len() - t.len()]);
    }
    assert(hi == a.len() + t.len());
    assert(s.subrange(lo, hi) =~= t);
}

proof fn lemma_has_text_ws(a: Seq<u8>, b: Seq<u8>)
    requires
        all_ws(b),
    ensures
        has_text(a + b) == has_text(a),
{
    let s = a + b;
    if has_text(a) {
        let i = choose|i: int| 0 <= i < a.len() && !is_ws(#[trigger] a[i]);
        assert(s[i] == a[i]);
    }
    if has_text(s) {
        let i = choose|i: int| 0 <= i < s.len() && !is_ws(#[trigger] s[i]);
        if i >= a.len() {
            assert(s[i] == b[i - a.len()]);
        }
        assert(s[i] == a[i]);
    }
}

proof fn lemma_emit_first(w: Seq<u8>, e: EmitState)
    requires
        w.len() > 0,
    ensures
        ({
            let (kind, n) = token_at(w, 0);
            let e1 = emit_first(w, e);
            let added = e1.out.skip(e.out.len() as int);
            &&& 0 < n <= w.len()
            &&& e.out.len() <= e1.out.len()
            &&& e1.out == e.out + added
            &&& w[0] == LT ==> added == break_before(kind, e) + w.take(n)
        }),
{
    lemma_token_at(w, 0);
    let (kind, n) = token_at(w, 0);
    let text = w.take(n);
    let e1 = emit_first(w, e);
    let added = e1.out.skip(e.out.len() as int);
    if w[0] == LT {
        if kind == TokKind::Text {
            assert(n == 1);
            assert(text =~= seq![LT]);
            assert(solid(text));
            lemma_trim_around(Seq::empty(), text, Seq::empty());
            assert(Seq::<u8>::empty() + text + Seq::<u8>::empty() =~= text);
        }
        assert(e1.out =~= e.out + (break_before(kind, e) + text));
        assert(added =~= break_before(kind, e) + text);
    }
    assert(e1.out =~= e.out + added);
}

proof fn lemma_grows(w: Seq<u8>, e: EmitState)
    ensures
        e.out.len() <= emit_all(w, e).out.len(),
        emit_all(w, e).out.take(e.out.len() as int) == e.out,
    decreases w.len(),
{
    let out = emit_all(w, e).out;
    if w.len() > 0 {
        lemma_emit_first(w, e);
        let e1 = emit_first(w, e);
        lemma_grows(w.skip(token_at(w, 0).1), e1);
        assert(out.take(e.out.len() as int) =~= out.take(e1.out.len() as int).take(e.out.len() as int));
        assert(e1.out.take(e.out.len() as int) =~= e.out);
    } else {
        assert(e.out.take(e.out.len() as int) =~= e.out);
    }
}

proof fn lemma_rest_step(w: Seq<u8>, e: EmitState)
    requires
        w.len() > 0,
    ensures
        rest_out(w, e) == emit_first(w, e).out.skip(e.out.len() as int) + rest_out(
            w.skip(token_at(w, 0).1),
            emit_first(w, e),
        ),
{
    lemma_emit_first(w, e);
    let e1 = emit_first(w, e);
    let w1 = w.skip(token_at(w, 0).1);
    lemma_grows(w1, e1);
    let out = with_final_newline(emit_all(w1, e1).out);
    assert(emit_all(w, e) == emit_all(w1, e1));
    let n1 = e1.out.len() as int;
    assert(out.take(n1) =~= emit_all(w1, e1).out.take(n1));
    assert(out =~= out.take(n1) + out.skip(n1));
    assert(out.skip(e.out.len() as int) =~= e1.out.skip(e.out.len() as int) + out.skip(n1));
}

/// At the end only the final line feed is still to come.
proof fn lemma_rest_end(e: EmitState)
    ensures
        rest_out(Seq::empty(), e) == if e.out.len() > 0 && e.out.last() != LF {
            seq![LF]
        } else {
            Seq::empty()
        },
        with_final_newline(e.out) == e.out + rest_out(Seq::empty(), e),
{
    assert(emit_all(Seq::empty(), e) == e);
    if e.out.len() > 0 && e.out.last() != LF {
        assert(e.out.push(LF).skip(e.out.len() as int) =~= seq![LF]);
        assert(e.out.push(LF) =~= e.out + seq![LF]);
    } else {
        assert(e.out.skip(e.out.len() as int) =~= Seq::<u8>::empty());
        assert(e.out =~= e.out + Seq::<u8>::empty());
    }
}

/// What follows in a block starts on a new line.
proof fn lemma_rest_line(w: Seq<u8>, e: EmitState)
    requires
        in_block(e.modes),
        e.out.len() > 0,
    ensures
        rest_out(w, e).len() > 0 ==> rest_out(w, e)[0] == LF,
    decreases w.len(),
{
    if w.len() == 0 {
        assert(w =~= Seq::empty());
        lemma_rest_end(e);
    } else {
        lemma_rest_step(w, e);
        lemma_emit_first(w, e);
        let (kind, n) = token_at(w, 0);
        let e1 = emit_first(w, e);
        lemma_indent(e.modes.len());
        lemma_indent(outer(e.modes).len());
        if w[0] != LT && !has_text(w.take(n)) {
            assert(e1 == e);
            lemma_rest_line(w.skip(n), e1);
            assert(rest_out(w, e) =~= rest_out(w.skip(n), e1));
        } else if w[0] != LT {
            assert(e1.out =~= e.out + (line_indent(e.modes.len()) + trimmed_ws(w.take(n))));
            assert(e1.out.skip(e.out.len() as int)[0] == LF);
        } else {
            assert(e1.out.skip(e.out.len() as int)[0] == LF);
        }
    }
}

/// The first token of what follows a tag or a lone `<` is that tag or
/// `<` again, but that unfinished markup takes the final line feed in.
proof fn lemma_same_token(w: Seq<u8>, e: EmitState)
    requires
        w.len() > 0,
        w[0] == LT,
    ensures
        ({
            let (kind, n) = token_at(w, 0);
            let rest = rest_out(w.skip(n), emit_first(w, e));
            let y = w.take(n) + rest;
            ||| token_at(y, 0) == (kind, n)
            ||| {
                &&& n == w.len()
                &&& kind != TokKind::Text
                &&& rest == seq![LF]
                &&& token_at(y, 0) == (kind, n + 1)
            }
        }),
{
    let (kind, n) = token_at(w, 0);
    let e1 = emit_first(w, e);
    let w1 = w.skip(n);
    let rest = rest_out(w1, e1);
    let y = w.take(n) + rest;
    lemma_emit_first(w, e);
    if is_markup(w) {
        if markup_closed(w) {
            lemma_closed_token(w, rest);
        } else {
            lemma_open_token(w, false);
            assert(w1 =~= Seq::empty());
            lemma_rest_end(e1);
            lemma_open_token(w, rest.len() > 0);
            assert(y =~= fed(w, rest.len() > 0));
        }
    } else {
        assert(kind == TokKind::Text && n == 1);
        assert(y[0] == LT);
        if w1.len() == 0 {
            assert(w1 =~= Seq::empty());
            lemma_rest_end(e1);
        } else if in_block(e1.modes) {
            lemma_rest_line(w1, e1);
        } else {
            lemma_rest_step(w1, e1);
            lemma_emit_first(w1, e1);
            let (kind1, n1) = token_at(w1, 0);
            let e2 = emit_first(w1, e1);
            assert(e2.out =~= e1.out + w1.take(n1));
            assert(e2.out.skip(e1.out.len() as int) =~= w1.take(n1));
            assert(rest[0] == w1[0]);
            assert(w1[0] == w[1]);
        }
        if y.len() > 1 {
            assert(y[1] == rest[0]);
        }
    }
}

// --- prettifying again ----------------------------------------------

/// Text before a `<` or before the end is one token.
proof fn lemma_text_token(pre: Seq<u8>, y: Seq<u8>)
    requires
        pre.len() > 0,
        no_lt(pre),
        y.len() == 0 || y[0] == LT,
    ensures
        token_at(pre + y, 0) == (TokKind::Text, pre.len() as int),
        (pre + y).take(pre.len() as int) == pre,
        (pre + y).skip(pre.len() as int) == y,
{
    let s = pre + y;
    lemma_index_from(s, 0, LT);
    let k = index_from(s, 0, LT);
    assert(s[0] == pre[0]);
    if k < pre.len() {
        assert(s[k] == pre[k]);
    }
    if y.len() > 0 {
        assert(s[pre.len() as int] == y[0]);
    }
    assert(s.take(pre.len() as int) =~= pre);
    assert(s.skip(pre.len() as int) =~= y);
}

/// A run of text holds no `<` and ends before one.
proof fn lemma_run(w: Seq<u8>)
    requires
        w.len() > 0,
        w[0] != LT,
    ensures
        token_at(w, 0).0 == TokKind::Text,
        no_lt(w.take(token_at(w, 0).1)),
        w.skip(token_at(w, 0).1).len() > 0 ==> w.skip(token_at(w, 0).1)[0] == LT,
{
    lemma_index_from(w, 0, LT);
}

/// What a run of text adds holds no `<`, is visible as the run is, and
/// in a block is a line break and solid text.
proof fn lemma_run_added(w: Seq<u8>, e: EmitState)
    requires
        w.len() > 0,
        w[0] != LT,
    ensures
        ({
            let text = w.take(token_at(w, 0).1);
            let e1 = emit_first(w, e);
            let added = e1.out.skip(e.out.len() as int);
            &&& no_lt(added)
            &&& has_text(added) == has_text(text)
            &&& e1.modes == e.modes
            &&& added.len() > 0 && in_block(e.modes) ==> added == lead(e) + trimmed_ws(text) && solid(
                trimmed_ws(text),
            )
        }),
{
    lemma_run(w);
    lemma_emit_first(w, e);
    let text = w.take(token_at(w, 0).1);
    let e1 = emit_first(w, e);
    let added = e1.out.skip(e.out.len() as int);
    if !in_block(e.modes) {
        assert(added =~= text);
    } else if has_text(text) {
        lemma_trimmed(text);
        lemma_indent(e.modes.len());
        let t = trimmed_ws(text);
        assert(e1.out =~= e.out + (lead(e) + t));
        assert(added =~= lead(e) + t);
        lemma_trim_around(lead(e), t, Seq::empty());
        assert(lead(e) + t + Seq::<u8>::empty() =~= added);
    } else {
        assert(added =~= Seq::empty());
    }
}

proof fn lemma_break(kind: TokKind, e: EmitState)
    ensures
        all_ws(break_before(kind, e)),
        no_lt(break_before(kind, e)),
{
    lemma_indent(e.modes.len());
    lemma_indent(outer(e.modes).len());
}

proof fn lemma_blocks_text(pend: Seq<u8>, ws: Seq<u8>, y: Seq<u8>, depth: int)
    requires
        no_lt(pend),
        all_ws(ws),
        y.len() == 0 || y[0] == LT,
    ensures
        blocky(pend + ws + y, depth) == (!(depth == 0 && has_text(pend)) && blocky(y, depth)),
{
    let pre = pend + ws;
    lemma_has_text_ws(pend, ws);
    assert(no_lt(pre));
    if pre.len() > 0 {
        lemma_text_token(pre, y);
    } else {
        assert(pre + y =~= y);
    }
}

/// The prettified text is made of blocks where `w` is, `pend` standing
/// for text that was added just before.
proof fn lemma_same_blocks(w: Seq<u8>, e: EmitState, pend: Seq<u8>, depth: int)
    requires
        no_lt(pend),
        pend.len() > 0 && w.len() > 0 ==> w[0] == LT,
    ensures
        blocky(pend + rest_out(w, e), depth) == (!(depth == 0 && has_text(pend)) && blocky(w, depth)),
    decreases w.len(),
{
    let r = pend + rest_out(w, e);
    if w.len() == 0 {
        assert(w =~= Seq::empty());
        lemma_rest_end(e);
        lemma_blocks_text(pend, rest_out(w, e), Seq::empty(), depth);
        assert(r + Seq::<u8>::empty() =~= r);
    } else {
        let (kind, n) = token_at(w, 0);
        let e1 = emit_first(w, e);
        let w1 = w.skip(n);
        let rest = rest_out(w1, e1);
        lemma_emit_first(w, e);
        lemma_rest_step(w, e);
        if w[0] != LT {
            let added = e1.out.skip(e.out.len() as int);
            lemma_run(w);
            lemma_run_added(w, e);
            lemma_same_blocks(w1, e1, added, depth);
            assert(r =~= added + rest);
            assert(!has_text(pend));
        } else {
            let ind = break_before(kind, e);
            let y = w.take(n) + rest;
            lemma_break(kind, e);
            assert(r =~= pend + ind + y);
            assert(y[0] == LT);
            lemma_blocks_text(pend, ind, y, depth);
            lemma_same_token(w, e);
            if token_at(y, 0).1 == n {
                let next = if kind == TokKind::Open {
                    depth + 1
                } else if kind == TokKind::Close {
                    depth - 1
                } else {
                    depth
                };
                assert(y.take(n) =~= w.take(n));
                assert(y.skip(n) =~= rest);
                assert(Seq::<u8>::empty() + rest =~= rest);
                lemma_same_blocks(w1, e1, Seq::empty(), next);
                assert(!has_text(Seq::<u8>::empty()));
            } else {
                assert(y.skip(n + 1) =~= w1);
            }
            assert(blocky(y, depth) == blocky(w, depth));
        }
    }
}

/// Text that was added, with whitespace behind it, is added again.
proof fn lemma_text_again(e: EmitState, pend: Seq<u8>, t: Seq<u8>, ws: Seq<u8>, block: bool)
    requires
        all_ws(ws),
        pend.len() > 0 && in_block(e.modes) ==> pend == lead(e) + t && solid(t),
    ensures
        emit_one(TokKind::Text, pend + ws, block, e) == (EmitState {
            out: if in_block(e.modes) {
                e.out + pend
            } else {
                e.out + (pend + ws)
            },
            modes: e.modes,
        }),
{
    if in_block(e.modes) {
        lemma_indent(e.modes.len());
        if pend.len() > 0 {
            lemma_trim_around(lead(e), t, ws);
            assert(emit_line(e, t) =~= e.out + pend);
        } else {
            lemma_has_text_ws(pend, ws);
            assert(e.out + pend =~= e.out);
        }
    }
}

/// `pend` is text without `<` that the state `e` has beyond `before`.
spec fn pending(e: EmitState, pend: Seq<u8>, before: EmitState, t: Seq<u8>) -> bool {
    &&& no_lt(pend)
    &&& e.out == before.out + pend
    &&& e.modes == before.modes
    &&& pend.len() > 0 && in_block(e.modes) ==> pend == lead(before) + t && solid(t)
}

proof fn lemma_again_end(e: EmitState, pend: Seq<u8>, before: EmitState, t: Seq<u8>)
    requires
        pending(e, pend, before, t),
    ensures
        with_final_newline(emit_all(pend + rest_out(Seq::empty(), e), before).out) == with_final_newline(e.out),
{
    lemma_rest_end(e);
    let nl = rest_out(Seq::empty(), e);
    let r = pend + nl;
    assert(all_ws(nl));
    if r.len() > 0 {
        lemma_text_token(r, Seq::empty());
        assert(r + Seq::<u8>::empty() =~= r);
        lemma_text_again(before, pend, t, nl, blocky(Seq::empty(), 0));
        assert(emit_all(r, before) == emit_all(Seq::empty(), emit_first(r, before)));
        assert(before.out + (pend + nl) =~= e.out + nl);
    } else {
        assert(e.out =~= before.out);
    }
}

/// Pending text and the line break before markup `y` are one token, or
/// none, and bring back the state that `y` was written in.
proof fn lemma_again_text(
    e: EmitState,
    pend: Seq<u8>,
    before: EmitState,
    t: Seq<u8>,
    kind: TokKind,
    y: Seq<u8>,
)
    requires
        pending(e, pend, before, t),
        y.len() > 0,
        y[0] == LT,
    ensures
        emit_all(pend + break_before(kind, e) + y, before) == emit_all(y, e),
{
    let ind = break_before(kind, e);
    let pre = pend + ind;
    lemma_break(kind, e);
    if pre.len() > 0 {
        lemma_text_token(pre, y);
        lemma_text_again(before, pend, t, ind, blocky(y, 0));
        if !in_block(e.modes) {
            assert(pre =~= pend);
        }
        assert(emit_first(pre + y, before).out =~= e.out);
        assert(emit_first(pre + y, before) == e);
    } else {
        assert(pre + y =~= y);
        assert(e.out =~= before.out);
        assert(before == e);
    }
}

/// Unfinished markup that took the final line feed in ends the same.
proof fn lemma_again_open(w: Seq<u8>, e: EmitState)
    requires
        w.len() > 0,
        w[0] == LT,
        token_at(w, 0).0 != TokKind::Text,
        token_at(w, 0).1 == w.len(),
        token_at(w.push(LF), 0) == (token_at(w, 0).0, w.len() as int + 1),
        rest_out(Seq::empty(), emit_first(w, e)) == seq![LF],
    ensures
        with_final_newline(emit_all(w.push(LF), e).out) == with_final_newline(emit_all(w, e).out),
{
    let (kind, n) = token_at(w, 0);
    let y = w.push(LF);
    let e1 = emit_first(w, e);
    let e2 = emit_first(y, e);
    assert(w.skip(n) =~= Seq::empty());
    assert(y.skip(n + 1) =~= Seq::empty());
    assert(w.take(n) =~= w);
    assert(y.take(n + 1) =~= y);
    lemma_rest_end(e1);
    lemma_emit_first(w, e);
    lemma_emit_first(y, e);
    assert(emit_all(w, e) == emit_all(Seq::empty(), e1));
    assert(emit_all(y, e) == emit_all(Seq::empty(), e2));
    assert(e2.out =~= e1.out + seq![LF]);
}

/// Prettifying what `w` adds, after what was there before, adds the same.
proof fn lemma_again(w: Seq<u8>, e: EmitState, pend: Seq<u8>, before: EmitState, t: Seq<u8>)
    requires
        pending(e, pend, before, t),
        pend.len() > 0 && w.len() > 0 ==> w[0] == LT,
    ensures
        with_final_newline(emit_all(pend + rest_out(w, e), before).out) == with_final_newline(emit_all(w, e).out),
    decreases w.len(),
{
    let r = pend + rest_out(w, e);
    if w.len() == 0 {
        assert(w =~= Seq::empty());
        lemma_again_end(e, pend, before, t);
    } else {
        let (kind, n) = token_at(w, 0);
        let e1 = emit_first(w, e);
        let w1 = w.skip(n);
        let rest = rest_out(w1, e1);
        lemma_emit_first(w, e);
        lemma_rest_step(w, e);
        if w[0] != LT {
            let added = e1.out.skip(e.out.len() as int);
            lemma_run(w);
            lemma_run_added(w, e);
            assert(before.out =~= e.out);
            assert(before == e);
            lemma_again(w1, e1, added, before, trimmed_ws(w.take(n)));
            assert(r =~= added + rest);
        } else {
            let y = w.take(n) + rest;
            assert(r =~= pend + break_before(kind, e) + y);
            assert(y[0] == LT);
            lemma_again_text(e, pend, before, t, kind, y);
            lemma_same_token(w, e);
            if token_at(y, 0).1 == n {
                assert(y.take(n) =~= w.take(n));
                assert(y.skip(n) =~= rest);
                assert(Seq::<u8>::empty() + rest =~= rest);
                lemma_same_blocks(w1, e1, Seq::empty(), 0);
                assert(!has_text(Seq::<u8>::empty()));
                assert(emit_first(y, e) == e1);
                assert(e1.out + Seq::<u8>::empty() =~= e1.out);
                lemma_again(w1, e1, Seq::empty(), e1, Seq::empty());
            } else {
                assert(w1 =~= Seq::empty());
                assert(y =~= w.push(LF));
                lemma_again_open(w, e);
            }
        }
    }
}

/// Prettifying prettified XML changes nothing, whatever it was made of.
pub proof fn law_xml_prettify_idempotent(s: Seq<u8>)
    requires
        s.len() <= usize::MAX,
        xml_pretty(s).len() <= usize::MAX,
    ensures
        xml_pretty(xml_pretty(s)) == xml_pretty(s),
{
    let none = EmitState { out: Seq::empty(), modes: Seq::empty() };
    let r = xml_pretty(s);
    assert(tokens_from(s, 0).skip(0) =~= tokens_from(s, 0));
    assert(tokens_from(r, 0).skip(0) =~= tokens_from(r, 0));
    assert(s.skip(0) =~= s);
    assert(r.skip(0) =~= r);
    lemma_emit_all(s, tokens_from(s, 0), 0, 0, none);
    lemma_emit_all(r, tokens_from(r, 0), 0, 0, none);
    assert(Seq::<u8>::empty() + rest_out(s, none) =~= r);
    assert(none.out + Seq::<u8>::empty() =~= none.out);
    lemma_again(s, none, Seq::empty(), none, Seq::empty());
}

} // verus!
