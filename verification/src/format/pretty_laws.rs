//! Laws of the prettifiers: they only move whitespace.

use vstd::prelude::*;

use crate::ascii::{BACKSLASH, COLON, COMMA, LBRACE, LBRACKET, LF, QUOTE, RBRACE, RBRACKET, SPACE};
use crate::bytes::{is_ws, lemma_skip_ws_bounds, skip_ws_from};
use crate::format::cursor::byte_at;
use crate::format::json::{
    closer_of, is_structural, json_pretty, lemma_plain_end, lemma_string_stop, line_indent, plain_end, string_stop,
};
use crate::format::xml::{
    emit_from, emit_line, emit_token, has_text, in_block, is_block, lemma_token_at, tok_bytes, token_at, tokens_from,
    trim_ws_end, trimmed_ws, xml_pretty, EmitState, Tok, TokKind,
};

verus! {

// --- JSON -----------------------------------------------------------

/// The bytes of a JSON text that carry meaning: everything but the
/// whitespace outside strings.
pub open spec fn significant(s: Seq<u8>) -> Seq<u8>
    decreases s.len(),
{
    proof {
        if s.len() > 0 {
            lemma_string_stop(s, 1);
        }
    }
    if s.len() == 0 {
        Seq::empty()
    } else if is_ws(s[0]) {
        significant(s.skip(1))
    } else if s[0] == QUOTE {
        let e = string_stop(s, 1);
        s.take(e) + significant(s.skip(e))
    } else {
        seq![s[0]] + significant(s.skip(1))
    }
}

/// String scanning looks only at what follows.
proof fn lemma_string_stop_shift(s: Seq<u8>, from: int, i: int)
    requires
        0 <= from <= i <= s.len(),
    ensures
        string_stop(s.skip(from), i - from) == string_stop(s, i) - from,
    decreases s.len() - i,
{
    let t = s.skip(from);
    if i < s.len() {
        assert(t[i - from] == s[i]);
        if s[i] == BACKSLASH && i + 1 < s.len() {
            lemma_string_stop_shift(s, from, i + 2);
        } else if s[i] != QUOTE {
            lemma_string_stop_shift(s, from, i + 1);
        }
    }
}

/// A string that is closed, or that nothing follows, stops at the same
/// place whatever comes after it.
proof fn lemma_string_stop_append(a: Seq<u8>, rest: Seq<u8>, i: int)
    requires
        0 <= i <= a.len(),
        string_stop(a, i) == a.len(),
        rest.len() == 0 || closed_string(a, i),
    ensures
        string_stop(a + rest, i) == a.len(),
    decreases a.len() - i,
{
    let s = a + rest;
    if rest.len() == 0 {
        assert(s =~= a);
    } else if i < a.len() {
        assert(s[i] == a[i]);
        if a[i] == BACKSLASH && i + 1 < a.len() {
            lemma_string_stop_append(a, rest, i + 2);
        } else if a[i] == BACKSLASH {
            assert(!closed_string(a, i + 1));
        } else if a[i] != QUOTE {
            lemma_string_stop_append(a, rest, i + 1);
        }
    }
}

/// Scanning from `i` meets an unescaped quote.
spec fn closed_string(s: Seq<u8>, i: int) -> bool
    decreases (if i < s.len() { s.len() - i } else { 0 }),
{
    if i < 0 || i >= s.len() {
        false
    } else if s[i] == BACKSLASH && i + 1 < s.len() {
        closed_string(s, i + 2)
    } else if s[i] == QUOTE {
        true
    } else {
        closed_string(s, i + 1)
    }
}

/// The text of a string literal cut out of `s` scans like it did inside
/// `s`.
proof fn lemma_string_cut(s: Seq<u8>, from: int, i: int)
    requires
        0 <= from < i <= s.len(),
    ensures
        ({
            let e = string_stop(s, i);
            let t = s.subrange(from, e);
            &&& i <= e <= s.len()
            &&& string_stop(t, i - from) == t.len()
            &&& e < s.len() ==> closed_string(t, i - from)
        }),
    decreases s.len() - i,
{
    lemma_string_stop(s, i);
    let e = string_stop(s, i);
    let t = s.subrange(from, e);
    if i < s.len() {
        if s[i] == BACKSLASH && i + 1 < s.len() {
            lemma_string_stop(s, i + 2);
            lemma_string_cut(s, from, i + 2);
            assert(t[i - from] == s[i]);
        } else if s[i] != QUOTE {
            lemma_string_stop(s, i + 1);
            lemma_string_cut(s, from, i + 1);
            assert(t[i - from] == s[i]);
        } else {
            assert(t[i - from] == s[i]);
        }
    }
}

proof fn lemma_significant_ws(ws: Seq<u8>, rest: Seq<u8>)
    requires
        forall|k: int| 0 <= k < ws.len() ==> is_ws(#[trigger] ws[k]),
    ensures
        significant(ws + rest) == significant(rest),
    decreases ws.len(),
{
    if ws.len() == 0 {
        assert(ws + rest =~= rest);
    } else {
        let s = ws + rest;
        assert(s[0] == ws[0]);
        assert(s.skip(1) =~= ws.skip(1) + rest);
        lemma_significant_ws(ws.skip(1), rest);
    }
}

proof fn lemma_significant_byte(b: u8, rest: Seq<u8>)
    requires
        !is_ws(b),
        b != QUOTE,
    ensures
        significant(seq![b] + rest) == seq![b] + significant(rest),
{
    let s = seq![b] + rest;
    assert(s.skip(1) =~= rest);
}

proof fn lemma_significant_plain(a: Seq<u8>, rest: Seq<u8>)
    requires
        forall|k: int| 0 <= k < a.len() ==> !is_ws(#[trigger] a[k]) && a[k] != QUOTE,
    ensures
        significant(a + rest) == a + significant(rest),
    decreases a.len(),
{
    if a.len() == 0 {
        assert(a + rest =~= rest);
        assert(a + significant(rest) =~= significant(rest));
    } else {
        lemma_significant_plain(a.skip(1), rest);
        lemma_significant_byte(a[0], a.skip(1) + rest);
        assert(a + rest =~= seq![a[0]] + (a.skip(1) + rest));
        assert(a + significant(rest) =~= seq![a[0]] + (a.skip(1) + significant(rest)));
    }
}

proof fn lemma_significant_string(a: Seq<u8>, rest: Seq<u8>)
    requires
        a.len() > 0,
        a[0] == QUOTE,
        string_stop(a, 1) == a.len(),
        rest.len() == 0 || closed_string(a, 1),
    ensures
        significant(a + rest) == a + significant(rest),
{
    let s = a + rest;
    lemma_string_stop_append(a, rest, 1);
    assert(s[0] == a[0]);
    assert(s.take(a.len() as int) =~= a);
    assert(s.skip(a.len() as int) =~= rest);
}

proof fn lemma_indent_ws(depth: nat)
    ensures
        forall|k: int| 0 <= k < line_indent(depth).len() ==> is_ws(#[trigger] line_indent(depth)[k]),
{
}

proof fn lemma_plain_bytes(s: Seq<u8>, i: int)
    requires
        0 <= i <= s.len(),
    ensures
        forall|k: int| i <= k < plain_end(s, i) ==> !is_structural(#[trigger] s[k]),
    decreases s.len() - i,
{
    if i < s.len() && !is_structural(s[i]) {
        lemma_plain_bytes(s, i + 1);
    }
}

proof fn lemma_significant_skip_ws(s: Seq<u8>, i: int)
    requires
        0 <= i <= s.len(),
    ensures
        significant(s.skip(i)) == significant(s.skip(skip_ws_from(s, i))),
{
    lemma_skip_ws_bounds(s, i);
    let j = skip_ws_from(s, i);
    assert(s.skip(i) =~= s.subrange(i, j) + s.skip(j));
    lemma_significant_ws(s.subrange(i, j), s.skip(j));
}

proof fn lemma_pretty_significant(s: Seq<u8>, i: int, depth: nat)
    requires
        0 <= i <= s.len(),
    ensures
        significant(json_pretty(s, i, depth)) == significant(s.skip(i)),
    decreases s.len() - i,
{
    if i < s.len() {
        let b = s[i];
        let tail = s.skip(i);
        assert(tail[0] == b);
        assert(tail.skip(1) =~= s.skip(i + 1));
        lemma_skip_ws_bounds(s, i + 1);
        lemma_string_stop(s, i + 1);
        lemma_plain_end(s, i);
        if is_ws(b) {
            lemma_pretty_significant(s, i + 1, depth);
        } else if b == LBRACE || b == LBRACKET {
            let j = skip_ws_from(s, i + 1);
            let close = closer_of(b);
            if byte_at(s, j) == Some(close) {
                let rest = json_pretty(s, j + 1, depth);
                lemma_pretty_significant(s, j + 1, depth);
                lemma_significant_plain(seq![b, close], rest);
                lemma_significant_skip_ws(s, i + 1);
                assert(s.skip(j) =~= seq![close] + s.skip(j + 1));
                lemma_significant_byte(close, s.skip(j + 1));
                assert(seq![b, close] + significant(rest) =~= seq![b] + (seq![close] + significant(rest)));
            } else {
                let rest = json_pretty(s, i + 1, depth + 1);
                lemma_pretty_significant(s, i + 1, depth + 1);
                lemma_indent_ws(depth + 1);
                lemma_significant_ws(line_indent(depth + 1), rest);
                lemma_significant_byte(b, line_indent(depth + 1) + rest);
                assert(seq![b] + line_indent(depth + 1) + rest =~= seq![b] + (line_indent(depth + 1) + rest));
            }
        } else if b == RBRACE || b == RBRACKET {
            let outer = if depth == 0 {
                0
            } else {
                (depth - 1) as nat
            };
            let rest = json_pretty(s, i + 1, outer);
            lemma_pretty_significant(s, i + 1, outer);
            lemma_indent_ws(outer);
            lemma_significant_byte(b, rest);
            lemma_significant_ws(line_indent(outer), seq![b] + rest);
            assert(line_indent(outer) + seq![b] + rest =~= line_indent(outer) + (seq![b] + rest));
        } else if b == COMMA {
            let rest = json_pretty(s, i + 1, depth);
            lemma_pretty_significant(s, i + 1, depth);
            lemma_indent_ws(depth);
            lemma_significant_ws(line_indent(depth), rest);
            lemma_significant_byte(b, line_indent(depth) + rest);
            assert(seq![b] + line_indent(depth) + rest =~= seq![b] + (line_indent(depth) + rest));
        } else if b == COLON {
            let rest = json_pretty(s, i + 1, depth);
            lemma_pretty_significant(s, i + 1, depth);
            lemma_significant_ws(seq![SPACE], rest);
            lemma_significant_byte(b, seq![SPACE] + rest);
            assert(seq![COLON, SPACE] + rest =~= seq![b] + (seq![SPACE] + rest));
        } else if b == QUOTE {
            let e = string_stop(s, i + 1);
            let rest = json_pretty(s, e, depth);
            lemma_pretty_significant(s, e, depth);
            lemma_string_cut(s, i, i + 1);
            let a = s.subrange(i, e);
            lemma_significant_string(a, rest);
            lemma_string_stop_shift(s, i, i + 1);
            assert(tail.take(e - i) =~= a);
            assert(tail.skip(e - i) =~= s.skip(e));
        } else {
            let e = plain_end(s, i);
            let rest = json_pretty(s, e, depth);
            lemma_pretty_significant(s, e, depth);
            lemma_plain_bytes(s, i);
            let a = s.subrange(i, e);
            assert forall|k: int| 0 <= k < a.len() implies !is_ws(#[trigger] a[k]) && a[k] != QUOTE by {
                assert(!is_structural(s[i + k]));
            }
            lemma_significant_plain(a, rest);
            lemma_significant_plain(a, s.skip(e));
            assert(tail =~= a + s.skip(e));
        }
    }
}

/// Prettifying JSON text, well formed or not, changes nothing but the
/// whitespace outside strings.
pub proof fn law_json_prettify_keeps_content(s: Seq<u8>)
    ensures
        significant(json_pretty(s, 0, 0)) == significant(s),
{
    lemma_pretty_significant(s, 0, 0);
    assert(s.skip(0) =~= s);
}

/// The prettified text as a function of the remaining significant bytes.
spec fn pretty_of(t: Seq<u8>, depth: nat) -> Seq<u8> {
    json_pretty(t, 0, depth)
}

/// Prettifying looks only at what follows.
proof fn lemma_pretty_shift(s: Seq<u8>, from: int, i: int, depth: nat)
    requires
        0 <= from <= i <= s.len(),
    ensures
        json_pretty(s.skip(from), i - from, depth) == json_pretty(s, i, depth),
    decreases s.len() - i,
{
    let t = s.skip(from);
    if i < s.len() {
        assert(t[i - from] == s[i]);
        lemma_skip_ws_bounds(s, i + 1);
        lemma_string_stop(s, i + 1);
        lemma_plain_end(s, i);
        lemma_skip_ws_shift(s, from, i + 1);
        if is_ws(s[i]) {
            lemma_pretty_shift(s, from, i + 1, depth);
        } else if s[i] == LBRACE || s[i] == LBRACKET {
            let j = skip_ws_from(s, i + 1);
            if byte_at(s, j) == Some(closer_of(s[i])) {
                lemma_pretty_shift(s, from, j + 1, depth);
            } else {
                lemma_pretty_shift(s, from, i + 1, depth + 1);
            }
        } else if s[i] == RBRACE || s[i] == RBRACKET {
            lemma_pretty_shift(
                s,
                from,
                i + 1,
                if depth == 0 {
                    0
                } else {
                    (depth - 1) as nat
                },
            );
        } else if s[i] == COMMA || s[i] == COLON {
            lemma_pretty_shift(s, from, i + 1, depth);
        } else if s[i] == QUOTE {
            let e = string_stop(s, i + 1);
            lemma_string_stop_shift(s, from, i + 1);
            assert(t.subrange(i - from, e - from) =~= s.subrange(i, e));
            lemma_pretty_shift(s, from, e, depth);
        } else {
            let e = plain_end(s, i);
            lemma_plain_end_shift(s, from, i);
            assert(t.subrange(i - from, e - from) =~= s.subrange(i, e));
            lemma_pretty_shift(s, from, e, depth);
        }
    }
}

proof fn lemma_skip_ws_shift(s: Seq<u8>, from: int, i: int)
    requires
        0 <= from <= i <= s.len(),
    ensures
        skip_ws_from(s.skip(from), i - from) == skip_ws_from(s, i) - from,
    decreases s.len() - i,
{
    if i < s.len() {
        assert(s.skip(from)[i - from] == s[i]);
        if is_ws(s[i]) {
            lemma_skip_ws_shift(s, from, i + 1);
        }
    }
}

proof fn lemma_plain_end_shift(s: Seq<u8>, from: int, i: int)
    requires
        0 <= from <= i <= s.len(),
    ensures
        plain_end(s.skip(from), i - from) == plain_end(s, i) - from,
    decreases s.len() - i,
{
    if i < s.len() {
        assert(s.skip(from)[i - from] == s[i]);
        if !is_structural(s[i]) {
            lemma_plain_end_shift(s, from, i + 1);
        }
    }
}

/// One plain byte at a time comes to the same.
proof fn lemma_pretty_plain_step(s: Seq<u8>, depth: nat)
    requires
        s.len() > 0,
        !is_structural(s[0]),
    ensures
        pretty_of(s, depth) == seq![s[0]] + pretty_of(s.skip(1), depth),
{
    lemma_plain_end(s, 0);
    let e = plain_end(s, 0);
    lemma_pretty_shift(s, 1, 1, depth);
    assert(e == plain_end(s, 1));
    if 1 < s.len() && !is_structural(s[1]) {
        lemma_plain_end(s, 1);
        assert(s.subrange(0, e) =~= seq![s[0]] + s.subrange(1, e));
        assert(s.subrange(0, e) + json_pretty(s, e, depth) =~= seq![s[0]] + (s.subrange(1, e) + json_pretty(
            s,
            e,
            depth,
        )));
    } else {
        assert(e == 1);
        assert(s.subrange(0, 1) =~= seq![s[0]]);
    }
}

/// The first byte that is left when insignificant whitespace is dropped.
proof fn lemma_significant_head(s: Seq<u8>)
    ensures
        ({
            let j = skip_ws_from(s, 0);
            &&& 0 <= j <= s.len()
            &&& j == s.len() ==> significant(s).len() == 0
            &&& j < s.len() ==> significant(s).len() > 0 && significant(s)[0] == s[j]
        }),
{
    lemma_skip_ws_bounds(s, 0);
    lemma_significant_skip_ws(s, 0);
    let j = skip_ws_from(s, 0);
    assert(s.skip(0) =~= s);
    if j < s.len() {
        let t = s.skip(j);
        assert(t[0] == s[j]);
        if s[j] == QUOTE {
            lemma_string_stop(t, 1);
        }
    }
}

/// Prettifying depends on the significant bytes only.
proof fn lemma_pretty_of_significant(s: Seq<u8>, depth: nat)
    ensures
        pretty_of(significant(s), depth) == pretty_of(s, depth),
    decreases s.len(),
{
    if s.len() > 0 {
        let b = s[0];
        let rest = s.skip(1);
        let sig = significant(s);
        if is_ws(b) {
            lemma_pretty_of_significant(rest, depth);
            lemma_pretty_shift(s, 1, 1, depth);
        } else if b == QUOTE {
            lemma_string_stop(s, 1);
            let e = string_stop(s, 1);
            let a = s.take(e);
            let tail = significant(s.skip(e));
            lemma_pretty_of_significant(s.skip(e), depth);
            lemma_pretty_shift(s, e, e, depth);
            lemma_string_cut(s, 0, 1);
            assert(s.subrange(0, e) =~= a);
            assert(e == s.len() ==> s.skip(e).len() == 0);
            lemma_string_stop_append(a, tail, 1);
            assert(sig[0] == b);
            assert(sig.subrange(0, e) =~= a);
            assert(sig.skip(e) =~= tail);
            lemma_pretty_shift(sig, e, e, depth);
        } else {
            let tail = significant(rest);
            assert(sig =~= seq![b] + tail);
            assert(sig.skip(1) =~= tail);
            if b == LBRACE || b == LBRACKET {
                let j = skip_ws_from(s, 1);
                lemma_skip_ws_bounds(s, 1);
                lemma_skip_ws_shift(s, 1, 1);
                lemma_significant_head(rest);
                lemma_significant_no_ws_head(rest);
                assert(skip_ws_from(sig, 1) == 1) by {
                    if sig.len() > 1 {
                        assert(sig[1] == tail[0]);
                    }
                }
                if byte_at(s, j) == Some(closer_of(b)) {
                    assert(tail[0] == closer_of(b));
                    let after = s.skip(j + 1);
                    lemma_significant_skip_ws(s, 1);
                    assert(s.skip(j) =~= seq![closer_of(b)] + after);
                    lemma_significant_byte(closer_of(b), after);
                    assert(tail =~= seq![closer_of(b)] + significant(after));
                    assert(sig.skip(2) =~= significant(after));
                    lemma_pretty_of_significant(after, depth);
                    lemma_pretty_shift(s, j + 1, j + 1, depth);
                    lemma_pretty_shift(sig, 2, 2, depth);
                } else {
                    assert(byte_at(sig, 1) != Some(closer_of(b))) by {
                        if sig.len() > 1 {
                            assert(rest[j - 1] == s[j]);
                        }
                    }
                    lemma_pretty_of_significant(rest, depth + 1);
                    lemma_pretty_shift(s, 1, 1, depth + 1);
                    lemma_pretty_shift(sig, 1, 1, depth + 1);
                }
            } else if b == RBRACE || b == RBRACKET {
                let outer = if depth == 0 {
                    0
                } else {
                    (depth - 1) as nat
                };
                lemma_pretty_of_significant(rest, outer);
                lemma_pretty_shift(s, 1, 1, outer);
                lemma_pretty_shift(sig, 1, 1, outer);
            } else if b == COMMA || b == COLON {
                lemma_pretty_of_significant(rest, depth);
                lemma_pretty_shift(s, 1, 1, depth);
                lemma_pretty_shift(sig, 1, 1, depth);
            } else {
                lemma_pretty_of_significant(rest, depth);
                lemma_pretty_plain_step(s, depth);
                lemma_pretty_plain_step(sig, depth);
            }
        }
    }
}

proof fn lemma_significant_no_ws_head(s: Seq<u8>)
    ensures
        significant(s).len() > 0 ==> !is_ws(significant(s)[0]),
    decreases s.len(),
{
    if s.len() > 0 {
        if is_ws(s[0]) {
            lemma_significant_no_ws_head(s.skip(1));
        } else if s[0] == QUOTE {
            lemma_string_stop(s, 1);
        }
    }
}

/// Prettifying twice is prettifying once: text that is already pretty
/// stays as it is.
pub proof fn law_json_prettify_idempotent(s: Seq<u8>)
    ensures
        json_pretty(json_pretty(s, 0, 0), 0, 0) == json_pretty(s, 0, 0),
{
    let p = json_pretty(s, 0, 0);
    law_json_prettify_keeps_content(s);
    lemma_pretty_of_significant(p, 0);
    lemma_pretty_of_significant(s, 0);
}

/// Two texts that differ only in whitespace outside strings prettify to
/// the same bytes.
pub proof fn law_json_prettify_canonical(a: Seq<u8>, b: Seq<u8>)
    requires
        significant(a) == significant(b),
    ensures
        json_pretty(a, 0, 0) == json_pretty(b, 0, 0),
{
    lemma_pretty_of_significant(a, 0);
    lemma_pretty_of_significant(b, 0);
}

// --- XML ------------------------------------------------------------

/// `s` without its whitespace bytes.
pub open spec fn visible(s: Seq<u8>) -> Seq<u8>
    decreases s.len(),
{
    if s.len() == 0 {
        Seq::empty()
    } else if is_ws(s.last()) {
        visible(s.drop_last())
    } else {
        visible(s.drop_last()).push(s.last())
    }
}

proof fn lemma_visible_concat(a: Seq<u8>, b: Seq<u8>)
    ensures
        visible(a + b) == visible(a) + visible(b),
    decreases b.len(),
{
    if b.len() == 0 {
        assert(a + b =~= a);
        assert(visible(a) + visible(b) =~= visible(a));
    } else {
        lemma_visible_concat(a, b.drop_last());
        assert((a + b).drop_last() =~= a + b.drop_last());
        assert((a + b).last() == b.last());
        if !is_ws(b.last()) {
            assert(visible(a) + visible(b.drop_last()).push(b.last()) =~= (visible(a) + visible(b.drop_last())).push(
                b.last(),
            ));
        }
    }
}

proof fn lemma_visible_ws(s: Seq<u8>)
    requires
        forall|k: int| 0 <= k < s.len() ==> is_ws(#[trigger] s[k]),
    ensures
        visible(s) == Seq::<u8>::empty(),
    decreases s.len(),
{
    if s.len() > 0 {
        lemma_visible_ws(s.drop_last());
    }
}

pub proof fn lemma_trim_ws_end(s: Seq<u8>, lo: int, hi: int)
    requires
        0 <= lo <= hi <= s.len(),
    ensures
        lo <= trim_ws_end(s, lo, hi) <= hi,
        lo < trim_ws_end(s, lo, hi) ==> !is_ws(s[trim_ws_end(s, lo, hi) - 1]),
        forall|k: int| trim_ws_end(s, lo, hi) <= k < hi ==> is_ws(#[trigger] s[k]),
    decreases hi,
{
    if lo < hi && is_ws(s[hi - 1]) {
        lemma_trim_ws_end(s, lo, hi - 1);
    }
}

proof fn lemma_visible_trimmed(s: Seq<u8>)
    ensures
        visible(trimmed_ws(s)) == visible(s),
{
    lemma_skip_ws_bounds(s, 0);
    let lo = skip_ws_from(s, 0);
    lemma_trim_ws_end(s, lo, s.len() as int);
    let hi = trim_ws_end(s, lo, s.len() as int);
    let head = s.subrange(0, lo);
    let mid = s.subrange(lo, hi);
    let tail = s.subrange(hi, s.len() as int);
    lemma_visible_ws(head);
    lemma_visible_ws(tail);
    lemma_visible_concat(head, mid);
    lemma_visible_concat(head + mid, tail);
    assert(s =~= head + mid + tail);
    assert(Seq::<u8>::empty() + visible(mid) =~= visible(mid));
    assert(visible(mid) + Seq::<u8>::empty() =~= visible(mid));
}

proof fn lemma_visible_indent(out: Seq<u8>, depth: nat)
    ensures
        visible(out + line_indent(depth)) == visible(out),
{
    lemma_indent_ws(depth);
    lemma_visible_ws(line_indent(depth));
    lemma_visible_concat(out, line_indent(depth));
    assert(visible(out) + Seq::<u8>::empty() =~= visible(out));
}

proof fn lemma_visible_emit_line(e: EmitState, text: Seq<u8>)
    ensures
        visible(emit_line(e, text)) == visible(e.out) + visible(text),
{
    lemma_visible_indent(e.out, e.modes.len());
    lemma_visible_concat(e.out + line_indent(e.modes.len()), text);
    lemma_visible_concat(e.out, text);
}

proof fn lemma_visible_emit_token(s: Seq<u8>, toks: Seq<Tok>, k: int, e: EmitState)
    requires
        0 <= k < toks.len(),
    ensures
        visible(emit_token(s, toks, k, e).out) == visible(e.out) + visible(tok_bytes(s, toks[k])),
{
    let text = tok_bytes(s, toks[k]);
    lemma_visible_emit_line(e, text);
    lemma_visible_concat(e.out, text);
    lemma_visible_emit_line(e, trimmed_ws(text));
    lemma_visible_trimmed(text);
    let outer = if e.modes.len() == 0 {
        e.modes
    } else {
        e.modes.drop_last()
    };
    lemma_visible_indent(e.out, outer.len());
    lemma_visible_concat(e.out + line_indent(outer.len()), text);
    if !has_text(text) {
        assert forall|i: int| 0 <= i < text.len() implies is_ws(#[trigger] text[i]) by {}
        lemma_visible_ws(text);
        assert(visible(e.out) + Seq::<u8>::empty() =~= visible(e.out));
    }
}

/// The texts of the tokens from `k` on, end to end.
pub open spec fn tokens_text(s: Seq<u8>, toks: Seq<Tok>, k: int) -> Seq<u8>
    decreases toks.len() - k,
{
    if k < 0 || k >= toks.len() {
        Seq::empty()
    } else {
        tok_bytes(s, toks[k]) + tokens_text(s, toks, k + 1)
    }
}

proof fn lemma_visible_emit_from(s: Seq<u8>, toks: Seq<Tok>, k: int, e: EmitState)
    requires
        0 <= k <= toks.len(),
    ensures
        visible(emit_from(s, toks, k, e).out) == visible(e.out) + visible(tokens_text(s, toks, k)),
    decreases toks.len() - k,
{
    if k < toks.len() {
        let next = emit_token(s, toks, k, e);
        lemma_visible_emit_token(s, toks, k, e);
        lemma_visible_emit_from(s, toks, k + 1, next);
        let text = tok_bytes(s, toks[k]);
        let rest = tokens_text(s, toks, k + 1);
        lemma_visible_concat(text, rest);
        assert(visible(e.out) + visible(text) + visible(rest) =~= visible(e.out) + (visible(text) + visible(rest)));
    } else {
        assert(visible(e.out) + Seq::<u8>::empty() =~= visible(e.out));
    }
}

proof fn lemma_tokens_text_shift(s: Seq<u8>, head: Tok, toks: Seq<Tok>, k: int)
    requires
        0 <= k <= toks.len(),
    ensures
        tokens_text(s, seq![head] + toks, k + 1) == tokens_text(s, toks, k),
    decreases toks.len() - k,
{
    if k < toks.len() {
        assert((seq![head] + toks)[k + 1] == toks[k]);
        lemma_tokens_text_shift(s, head, toks, k + 1);
    }
}

/// The tokens of a document cover it without gaps or overlaps: their
/// texts end to end are the document.
pub proof fn law_xml_tokens_cover(s: Seq<u8>, i: int)
    requires
        0 <= i <= s.len() <= usize::MAX,
    ensures
        tokens_text(s, tokens_from(s, i), 0) == s.skip(i),
    decreases s.len() - i,
{
    if i < s.len() {
        lemma_token_at(s, i);
        let (kind, end) = token_at(s, i);
        let head = Tok { kind, start: i as usize, end: end as usize };
        let rest = tokens_from(s, end);
        law_xml_tokens_cover(s, end);
        lemma_tokens_text_shift(s, head, rest, 0);
        assert((seq![head] + rest)[0] == head);
        assert(s.skip(i) =~= s.subrange(i, end) + s.skip(end));
    } else {
        assert(s.skip(i) =~= Seq::<u8>::empty());
    }
}

/// Prettifying an XML document, well formed or not, adds and removes
/// nothing but whitespace.
pub proof fn law_xml_prettify_keeps_content(s: Seq<u8>)
    requires
        s.len() <= usize::MAX,
    ensures
        visible(xml_pretty(s)) == visible(s),
{
    let toks = tokens_from(s, 0);
    let start = EmitState { out: Seq::empty(), modes: Seq::empty() };
    law_xml_tokens_cover(s, 0);
    assert(s.skip(0) =~= s);
    lemma_visible_emit_from(s, toks, 0, start);
    let out = emit_from(s, toks, 0, start).out;
    assert(visible(start.out) + visible(s) =~= visible(s));
    if out.len() > 0 && out.last() != LF {
        assert(out.push(LF).drop_last() =~= out);
    }
}

/// The closing tag of the element that is open at token `k`, with `depth`
/// elements open inside it; the number of tokens when it has none.
pub open spec fn closing_token(toks: Seq<Tok>, k: int, depth: int) -> int
    decreases toks.len() - k,
{
    if k < 0 || k >= toks.len() {
        toks.len() as int
    } else if toks[k].kind == TokKind::Open {
        closing_token(toks, k + 1, depth + 1)
    } else if toks[k].kind == TokKind::Close {
        if depth <= 0 {
            k
        } else {
            closing_token(toks, k + 1, depth - 1)
        }
    } else {
        closing_token(toks, k + 1, depth)
    }
}

/// Texts of the tokens `a..b`, end to end.
pub open spec fn range_text(s: Seq<u8>, toks: Seq<Tok>, a: int, b: int) -> Seq<u8>
    decreases b - a,
{
    if a >= b {
        Seq::empty()
    } else {
        tok_bytes(s, toks[a]) + range_text(s, toks, a + 1, b)
    }
}

proof fn lemma_mixed(s: Seq<u8>, toks: Seq<Tok>, k: int, depth: int, e: EmitState)
    requires
        0 <= k <= toks.len(),
        0 <= depth < e.modes.len(),
        forall|j: int| e.modes.len() - 1 - depth <= j < e.modes.len() ==> !#[trigger] e.modes[j],
    ensures
        ({
            let m = closing_token(toks, k, depth);
            let open = if m < toks.len() {
                e.modes.take(e.modes.len() - depth)
            } else {
                emit_from(s, toks, k, e).modes
            };
            &&& k <= m <= toks.len()
            &&& emit_from(s, toks, k, e) == emit_from(
                s,
                toks,
                m,
                EmitState { out: e.out + range_text(s, toks, k, m), modes: open },
            )
        }),
    decreases toks.len() - k,
{
    let m = closing_token(toks, k, depth);
    if k >= toks.len() {
        assert(e.out + Seq::<u8>::empty() =~= e.out);
    } else if toks[k].kind == TokKind::Close && depth <= 0 {
        assert(e.out + Seq::<u8>::empty() =~= e.out);
        assert(e.modes.take(e.modes.len() - depth) =~= e.modes);
    } else {
        let next = emit_token(s, toks, k, e);
        let text = tok_bytes(s, toks[k]);
        assert(!in_block(e.modes));
        assert(next.out == e.out + text);
        let inner = if toks[k].kind == TokKind::Open {
            depth + 1
        } else if toks[k].kind == TokKind::Close {
            depth - 1
        } else {
            depth
        };
        assert forall|j: int| next.modes.len() - 1 - inner <= j < next.modes.len() implies !#[trigger] next.modes[j] by {
            if j < e.modes.len() {
                assert(!e.modes[j]);
            }
        }
        lemma_mixed(s, toks, k + 1, inner, next);
        assert(next.modes.take(next.modes.len() - inner) =~= e.modes.take(e.modes.len() - depth));
        assert(e.out + text + range_text(s, toks, k + 1, m) =~= e.out + (text + range_text(s, toks, k + 1, m)));
    }
}

/// An element that holds text keeps its contents, whatever is nested in
/// it: from its opening tag to its closing tag every token is emitted as
/// it is.
pub proof fn law_xml_mixed_verbatim(s: Seq<u8>, toks: Seq<Tok>, k: int, e: EmitState)
    requires
        0 <= k < toks.len(),
        toks[k].kind == TokKind::Open,
        !is_block(s, toks, k),
    ensures
        ({
            let m = closing_token(toks, k + 1, 0);
            let opened = emit_token(s, toks, k, e);
            let before_close = EmitState {
                out: opened.out + range_text(s, toks, k + 1, m),
                modes: if m < toks.len() {
                    opened.modes
                } else {
                    emit_from(s, toks, k, e).modes
                },
            };
            &&& k < m <= toks.len()
            &&& emit_from(s, toks, k, e) == emit_from(s, toks, m, before_close)
            &&& m < toks.len() ==> emit_token(s, toks, m, before_close).out == before_close.out + tok_bytes(s, toks[m])
        }),
{
    let opened = emit_token(s, toks, k, e);
    let m = closing_token(toks, k + 1, 0);
    lemma_mixed(s, toks, k + 1, 0, opened);
    assert(opened.modes.take(opened.modes.len() as int) =~= opened.modes);
    if m < toks.len() {
        lemma_closing_kind(toks, k + 1, 0);
    }
}

proof fn lemma_closing_kind(toks: Seq<Tok>, k: int, depth: int)
    requires
        0 <= k,
        closing_token(toks, k, depth) < toks.len(),
    ensures
        toks[closing_token(toks, k, depth)].kind == TokKind::Close,
    decreases toks.len() - k,
{
    if k < toks.len() {
        if toks[k].kind == TokKind::Open {
            lemma_closing_kind(toks, k + 1, depth + 1);
        } else if toks[k].kind != TokKind::Close {
            lemma_closing_kind(toks, k + 1, depth);
        } else if depth > 0 {
            lemma_closing_kind(toks, k + 1, depth - 1);
        }
    }
}

/// A non-empty prettified XML document ends in a newline.
pub proof fn law_xml_prettify_final_newline(s: Seq<u8>)
    ensures
        xml_pretty(s).len() > 0 ==> xml_pretty(s).last() == LF,
{
}

} // verus!
