//! Law of prettified JSON: it parses to the same outline.

use vstd::prelude::*;

use crate::ascii::{
    BACKSLASH, COLON, COMMA, DOT, LBRACE, LBRACKET, LOWER_E, LOWER_F, LOWER_N, LOWER_T, LOWER_U, MINUS, PLUS, QUOTE,
    RBRACE, RBRACKET, SPACE, UPPER_E,
};
use crate::bytes::{is_digit, is_ws, lemma_skip_digits_bounds, lemma_skip_ws_bounds, skip_digits_from, skip_ws_from};
use crate::format::cursor::byte_at;
use crate::format::json::{
    closer_of, decode_escapes, is_structural, json_after_element, json_after_field, json_array, json_document,
    json_elements, json_fields, json_object, json_pretty, json_value, lemma_json_fields_positions, lemma_plain_end,
    lemma_string_close, lemma_string_stop, line_indent, literal_match, number_end, number_fraction_end,
    number_sign_end, plain_end, string_close, string_stop, word_false, word_null, word_true,
};
use crate::format::json_subtree::{
    lemma_after_element_forward, lemma_after_field_forward, lemma_key_stop, lemma_number_phases, lemma_value_forward,
    strings_spanned,
};
use crate::format::{intern_id, PathSegment, ScanState, StyleKind, StyleSpan, ROOT_PARENT};

verus! {

// --- following the prettified text ----------------------------------

/// The prettified text of `s` from `i` on, without leading whitespace.
spec fn rest_of(s: Seq<u8>, i: int, depth: nat) -> Seq<u8> {
    let p = json_pretty(s, i, depth);
    p.skip(skip_ws_from(p, 0))
}

/// Whitespace aside, `t` goes on at `j` as the prettified text of `s`
/// does from `i`.
spec fn follows(t: Seq<u8>, j: int, s: Seq<u8>, i: int, depth: nat) -> bool {
    0 <= i <= s.len() && 0 <= j <= t.len() && t.skip(skip_ws_from(t, j)) == rest_of(s, i, depth)
}

proof fn lemma_skip_ws_shift(t: Seq<u8>, k: int, i: int)
    requires
        0 <= k <= i <= t.len(),
    ensures
        skip_ws_from(t.skip(k), i - k) == skip_ws_from(t, i) - k,
    decreases t.len() - i,
{
    if i < t.len() {
        assert(t.skip(k)[i - k] == t[i]);
        if is_ws(t[i]) {
            lemma_skip_ws_shift(t, k, i + 1);
        }
    }
}

proof fn lemma_skip_ws_prefix(ws: Seq<u8>, p: Seq<u8>, i: int)
    requires
        forall|k: int| 0 <= k < ws.len() ==> is_ws(#[trigger] ws[k]),
        0 <= i <= ws.len(),
    ensures
        skip_ws_from(ws + p, i) == ws.len() + skip_ws_from(p, 0),
    decreases ws.len() - i,
{
    let t = ws + p;
    if i < ws.len() {
        assert(t[i] == ws[i]);
        lemma_skip_ws_prefix(ws, p, i + 1);
    } else {
        lemma_skip_ws_shift(t, i, i);
        assert(t.skip(i) =~= p);
    }
}

/// Behind a token and some whitespace `t` goes on as before.
proof fn lemma_follows(t: Seq<u8>, k: int, ws: Seq<u8>, s: Seq<u8>, i: int, depth: nat)
    requires
        0 <= k <= t.len(),
        0 <= i <= s.len(),
        forall|n: int| 0 <= n < ws.len() ==> is_ws(#[trigger] ws[n]),
        t.skip(k) == ws + json_pretty(s, i, depth),
    ensures
        follows(t, k, s, i, depth),
{
    let p = json_pretty(s, i, depth);
    lemma_skip_ws_shift(t, k, k);
    lemma_skip_ws_prefix(ws, p, 0);
    lemma_skip_ws_bounds(p, 0);
    let a = skip_ws_from(p, 0);
    assert(t.skip(k).len() == ws.len() + p.len());
    assert(t.skip(k + ws.len() + a) =~= t.skip(k).skip(ws.len() + a));
    assert((ws + p).skip(ws.len() + a) =~= p.skip(a));
}

proof fn lemma_pretty_skip_ws(s: Seq<u8>, i: int, depth: nat)
    requires
        0 <= i <= s.len(),
    ensures
        json_pretty(s, i, depth) == json_pretty(s, skip_ws_from(s, i), depth),
    decreases s.len() - i,
{
    if i < s.len() && is_ws(s[i]) {
        lemma_pretty_skip_ws(s, i + 1, depth);
    }
}

/// Both texts may be taken from their next token on.
proof fn lemma_follows_skip(t: Seq<u8>, j: int, s: Seq<u8>, i: int, depth: nat)
    requires
        follows(t, j, s, i, depth),
    ensures
        follows(t, skip_ws_from(t, j), s, skip_ws_from(s, i), depth),
        skip_ws_from(t, skip_ws_from(t, j)) == skip_ws_from(t, j),
        skip_ws_from(s, skip_ws_from(s, i)) == skip_ws_from(s, i),
        j <= skip_ws_from(t, j) <= t.len(),
        i <= skip_ws_from(s, i) <= s.len(),
{
    lemma_skip_ws_bounds(t, j);
    lemma_skip_ws_bounds(s, i);
    lemma_pretty_skip_ws(s, i, depth);
}

// --- one token ------------------------------------------------------

/// A token that the prettifier copies, and then whitespace.
proof fn lemma_token(
    t: Seq<u8>,
    j: int,
    s: Seq<u8>,
    i: int,
    depth: nat,
    token: Seq<u8>,
    ws: Seq<u8>,
    next: int,
    inner: nat,
)
    requires
        follows(t, j, s, i, depth),
        token.len() > 0,
        !is_ws(token[0]),
        forall|n: int| 0 <= n < ws.len() ==> is_ws(#[trigger] ws[n]),
        0 <= next <= s.len(),
        json_pretty(s, skip_ws_from(s, i), depth) == token + (ws + json_pretty(s, next, inner)),
    ensures
        ({
            let k = skip_ws_from(t, j);
            &&& j <= k && k + token.len() <= t.len()
            &&& t.subrange(k, k + token.len()) == token
            &&& follows(t, k + token.len(), s, next, inner)
        }),
{
    lemma_follows_skip(t, j, s, i, depth);
    let k = skip_ws_from(t, j);
    let p = json_pretty(s, skip_ws_from(s, i), depth);
    assert(p[0] == token[0]);
    assert(skip_ws_from(p, 0) == 0);
    assert(t.skip(k) =~= p);
    assert(t.subrange(k, k + token.len()) =~= p.take(token.len() as int));
    assert(p.take(token.len() as int) =~= token);
    assert(t.skip(k + token.len()) =~= p.skip(token.len() as int));
    assert(p.skip(token.len() as int) =~= ws + json_pretty(s, next, inner));
    lemma_follows(t, k + token.len(), ws, s, next, inner);
}

proof fn lemma_step_open(t: Seq<u8>, j: int, s: Seq<u8>, i: int, depth: nat)
    requires
        follows(t, j, s, i, depth),
        ({
            let q = skip_ws_from(s, i);
            &&& q < s.len()
            &&& s[q] == LBRACE || s[q] == LBRACKET
            &&& byte_at(s, skip_ws_from(s, q + 1)) != Some(closer_of(s[q]))
        }),
    ensures
        ({
            let k = skip_ws_from(t, j);
            &&& j <= k < t.len()
            &&& t[k] == s[skip_ws_from(s, i)]
            &&& follows(t, k + 1, s, skip_ws_from(s, i) + 1, depth + 1)
        }),
{
    lemma_skip_ws_bounds(s, i);
    let q = skip_ws_from(s, i);
    let token = seq![s[q]];
    let ws = line_indent(depth + 1);
    let rest = json_pretty(s, q + 1, depth + 1);
    assert(token + ws + rest =~= token + (ws + rest));
    lemma_token(t, j, s, i, depth, token, ws, q + 1, depth + 1);
    let k = skip_ws_from(t, j);
    assert(t.subrange(k, k + 1)[0] == t[k]);
}

proof fn lemma_step_empty(t: Seq<u8>, j: int, s: Seq<u8>, i: int, depth: nat)
    requires
        follows(t, j, s, i, depth),
        ({
            let q = skip_ws_from(s, i);
            &&& q < s.len()
            &&& s[q] == LBRACE || s[q] == LBRACKET
            &&& byte_at(s, skip_ws_from(s, q + 1)) == Some(closer_of(s[q]))
        }),
    ensures
        ({
            let q = skip_ws_from(s, i);
            let k = skip_ws_from(t, j);
            &&& j <= k && k + 1 < t.len()
            &&& t[k] == s[q]
            &&& t[k + 1] == closer_of(s[q])
            &&& follows(t, k + 2, s, skip_ws_from(s, q + 1) + 1, depth)
        }),
{
    lemma_skip_ws_bounds(s, i);
    let q = skip_ws_from(s, i);
    lemma_skip_ws_bounds(s, q + 1);
    let token = seq![s[q], closer_of(s[q])];
    let next = skip_ws_from(s, q + 1) + 1;
    let rest = json_pretty(s, next, depth);
    assert(token + rest =~= token + (Seq::<u8>::empty() + rest));
    lemma_token(t, j, s, i, depth, token, Seq::empty(), next, depth);
    let k = skip_ws_from(t, j);
    assert(t.subrange(k, k + 2)[0] == t[k]);
    assert(t.subrange(k, k + 2)[1] == t[k + 1]);
}

proof fn lemma_behind_ws(p: Seq<u8>, ws: Seq<u8>, b: u8, rest: Seq<u8>)
    requires
        forall|n: int| 0 <= n < ws.len() ==> is_ws(#[trigger] ws[n]),
        !is_ws(b),
        p == ws + seq![b] + rest,
    ensures
        p.skip(skip_ws_from(p, 0)) == seq![b] + rest,
{
    let tail = seq![b] + rest;
    assert(p =~= ws + tail);
    lemma_skip_ws_prefix(ws, tail, 0);
    assert(tail[0] == b);
    assert(skip_ws_from(tail, 0) == 0);
    assert(p.skip(ws.len() as int) =~= tail);
}

proof fn lemma_step_close(t: Seq<u8>, j: int, s: Seq<u8>, i: int, depth: nat)
    requires
        follows(t, j, s, i, depth),
        depth > 0,
        ({
            let q = skip_ws_from(s, i);
            q < s.len() && (s[q] == RBRACE || s[q] == RBRACKET)
        }),
    ensures
        ({
            let k = skip_ws_from(t, j);
            &&& j <= k < t.len()
            &&& t[k] == s[skip_ws_from(s, i)]
            &&& follows(t, k + 1, s, skip_ws_from(s, i) + 1, (depth - 1) as nat)
        }),
{
    lemma_follows_skip(t, j, s, i, depth);
    let q = skip_ws_from(s, i);
    let k = skip_ws_from(t, j);
    let outer = (depth - 1) as nat;
    let ws = line_indent(outer);
    let rest = json_pretty(s, q + 1, outer);
    lemma_behind_ws(json_pretty(s, q, depth), ws, s[q], rest);
    let tail = t.skip(k);
    assert(tail == seq![s[q]] + rest);
    assert(tail[0] == t[k]);
    assert(t.skip(k + 1) =~= tail.skip(1));
    assert(tail.skip(1) =~= Seq::<u8>::empty() + rest);
    lemma_follows(t, k + 1, Seq::empty(), s, q + 1, outer);
}

proof fn lemma_step_mark(t: Seq<u8>, j: int, s: Seq<u8>, i: int, depth: nat)
    requires
        follows(t, j, s, i, depth),
        ({
            let q = skip_ws_from(s, i);
            q < s.len() && (s[q] == COMMA || s[q] == COLON)
        }),
    ensures
        ({
            let k = skip_ws_from(t, j);
            &&& j <= k < t.len()
            &&& t[k] == s[skip_ws_from(s, i)]
            &&& follows(t, k + 1, s, skip_ws_from(s, i) + 1, depth)
        }),
{
    lemma_skip_ws_bounds(s, i);
    let q = skip_ws_from(s, i);
    let token = seq![s[q]];
    let rest = json_pretty(s, q + 1, depth);
    let ws = if s[q] == COMMA {
        line_indent(depth)
    } else {
        seq![SPACE]
    };
    assert(json_pretty(s, q, depth) =~= token + (ws + rest));
    lemma_token(t, j, s, i, depth, token, ws, q + 1, depth);
    let k = skip_ws_from(t, j);
    assert(t.subrange(k, k + 1)[0] == t[k]);
}

/// A string or a plain run of bytes.
proof fn lemma_step_run(t: Seq<u8>, j: int, s: Seq<u8>, i: int, depth: nat, e: int)
    requires
        follows(t, j, s, i, depth),
        ({
            let q = skip_ws_from(s, i);
            &&& q < s.len()
            &&& if s[q] == QUOTE {
                e == string_stop(s, q + 1)
            } else {
                !is_structural(s[q]) && e == plain_end(s, q)
            }
        }),
    ensures
        ({
            let q = skip_ws_from(s, i);
            let k = skip_ws_from(t, j);
            &&& j <= k && q < e <= s.len() && k + (e - q) <= t.len()
            &&& t.subrange(k, k + (e - q)) == s.subrange(q, e)
            &&& follows(t, k + (e - q), s, e, depth)
        }),
{
    lemma_skip_ws_bounds(s, i);
    let q = skip_ws_from(s, i);
    lemma_string_stop(s, q + 1);
    lemma_plain_end(s, q);
    let token = s.subrange(q, e);
    let rest = json_pretty(s, e, depth);
    assert(token + rest =~= token + (Seq::<u8>::empty() + rest));
    assert(token[0] == s[q]);
    lemma_token(t, j, s, i, depth, token, Seq::empty(), e, depth);
}

// --- tokens elsewhere -----------------------------------------------

/// The bytes `s[p..e]` stand at `k` in `t`.
spec fn copied(s: Seq<u8>, t: Seq<u8>, p: int, k: int, e: int) -> bool {
    &&& 0 <= p <= e <= s.len()
    &&& 0 <= k
    &&& k + (e - p) <= t.len()
    &&& forall|n: int| p <= n < e ==> #[trigger] s[n] == t[n - p + k]
}

proof fn lemma_copied(s: Seq<u8>, t: Seq<u8>, p: int, k: int, e: int)
    requires
        0 <= p <= e <= s.len(),
        0 <= k,
        k + (e - p) <= t.len(),
        t.subrange(k, k + (e - p)) == s.subrange(p, e),
    ensures
        copied(s, t, p, k, e),
{
    assert forall|n: int| p <= n < e implies #[trigger] s[n] == t[n - p + k] by {
        assert(s.subrange(p, e)[n - p] == s[n]);
        assert(t.subrange(k, k + (e - p))[n - p] == t[n - p + k]);
    }
}

proof fn lemma_string_moved(s: Seq<u8>, t: Seq<u8>, p: int, k: int, i: int, q: int)
    requires
        p <= i,
        string_close(s, i) == Some(q),
        copied(s, t, p, k, q + 1),
    ensures
        string_close(t, i - p + k) == Some(q - p + k),
    decreases q - i,
{
    lemma_string_close(s, i);
    assert(s[i] == t[i - p + k]);
    if s[i] != QUOTE {
        if s[i] == BACKSLASH {
            let unicode = i + 1 < s.len() && s[i + 1] == LOWER_U;
            let next = if unicode {
                i + 6
            } else {
                i + 2
            };
            lemma_string_close(s, next);
            assert(s[i + 1] == t[i + 1 - p + k]);
            lemma_string_moved(s, t, p, k, next, q);
        } else {
            lemma_string_close(s, i + 1);
            lemma_string_moved(s, t, p, k, i + 1, q);
        }
    }
}

proof fn lemma_literal_moved(s: Seq<u8>, t: Seq<u8>, p: int, k: int, word: Seq<u8>, n: int)
    requires
        0 <= n <= word.len(),
        literal_match(s, p, word, n) == word.len(),
        copied(s, t, p, k, p + word.len()),
    ensures
        literal_match(t, k, word, n) == word.len(),
    decreases word.len() - n,
{
    if n < word.len() && byte_at(s, p + n) == Some(word[n]) {
        assert(s[p + n] == t[p + n - p + k]);
        lemma_literal_moved(s, t, p, k, word, n + 1);
    }
}

/// No digit, sign, point or exponent mark stands at `i`.
spec fn run_over(s: Seq<u8>, i: int) -> bool {
    i == s.len() || (0 <= i < s.len() && is_structural(s[i]))
}

/// The run `s[p..e]` stands at `k` in `t` too, and is over in both.
spec fn run_moved(s: Seq<u8>, t: Seq<u8>, p: int, k: int, e: int) -> bool {
    &&& copied(s, t, p, k, e)
    &&& run_over(s, e)
    &&& run_over(t, k + (e - p))
}

proof fn lemma_byte_moved(s: Seq<u8>, t: Seq<u8>, p: int, k: int, e: int, i: int)
    requires
        run_moved(s, t, p, k, e),
        p <= i <= e,
    ensures
        i < e ==> byte_at(t, i - p + k) == byte_at(s, i),
        i == e ==> (byte_at(s, i) is None || is_structural(byte_at(s, i)->0)),
        i == e ==> (byte_at(t, i - p + k) is None || is_structural(byte_at(t, i - p + k)->0)),
{
    if i < e {
        assert(s[i] == t[i - p + k]);
    }
}

proof fn lemma_digits_moved(s: Seq<u8>, t: Seq<u8>, p: int, k: int, e: int, i: int)
    requires
        run_moved(s, t, p, k, e),
        p <= i <= e,
    ensures
        skip_digits_from(t, i - p + k) == skip_digits_from(s, i) - p + k,
        i <= skip_digits_from(s, i) <= e,
    decreases e - i,
{
    lemma_byte_moved(s, t, p, k, e, i);
    if i < e {
        assert(s[i] == t[i - p + k]);
        if is_digit(s[i]) {
            lemma_digits_moved(s, t, p, k, e, i + 1);
        }
    }
}

proof fn lemma_number_moved(s: Seq<u8>, t: Seq<u8>, p: int, k: int, e: int)
    requires
        run_moved(s, t, p, k, e),
        p < e,
        number_end(s, p) == Some(e),
    ensures
        number_end(t, k) == Some(k + (e - p)),
{
    lemma_number_phases(s, p);
    let first = number_sign_end(s, p);
    let whole = skip_digits_from(s, first);
    let frac = number_fraction_end(s, whole);
    lemma_byte_moved(s, t, p, k, e, p);
    assert(number_sign_end(t, k) == first - p + k);
    lemma_digits_moved(s, t, p, k, e, first);
    lemma_byte_moved(s, t, p, k, e, whole);
    if byte_at(s, whole) == Some(DOT) {
        lemma_digits_moved(s, t, p, k, e, whole + 1);
    }
    assert(number_fraction_end(t, whole - p + k) == frac - p + k);
    lemma_byte_moved(s, t, p, k, e, frac);
    if byte_at(s, frac) == Some(LOWER_E) || byte_at(s, frac) == Some(UPPER_E) {
        lemma_byte_moved(s, t, p, k, e, frac + 1);
        if byte_at(s, frac + 1) == Some(PLUS) || byte_at(s, frac + 1) == Some(MINUS) {
            lemma_digits_moved(s, t, p, k, e, frac + 2);
        } else {
            lemma_digits_moved(s, t, p, k, e, frac + 1);
        }
    }
}

proof fn lemma_digits_plain(s: Seq<u8>, i: int)
    requires
        0 <= i <= s.len(),
    ensures
        forall|k: int| i <= k < skip_digits_from(s, i) ==> !is_structural(#[trigger] s[k]),
    decreases s.len() - i,
{
    if i < s.len() && is_digit(s[i]) {
        lemma_digits_plain(s, i + 1);
    }
}

/// A number holds no structural byte.
proof fn lemma_number_plain(s: Seq<u8>, p: int)
    requires
        0 <= p < s.len(),
        number_end(s, p) is Some,
    ensures
        forall|k: int| p <= k < number_end(s, p)->0 ==> !is_structural(#[trigger] s[k]),
{
    lemma_number_phases(s, p);
    let first = number_sign_end(s, p);
    let whole = skip_digits_from(s, first);
    let frac = number_fraction_end(s, whole);
    lemma_digits_plain(s, first);
    if whole < s.len() {
        lemma_digits_plain(s, whole + 1);
    }
    if frac < s.len() {
        lemma_digits_plain(s, frac + 1);
        lemma_skip_digits_bounds(s, frac + 1);
        if frac + 1 < s.len() {
            lemma_digits_plain(s, frac + 2);
            lemma_skip_digits_bounds(s, frac + 2);
        }
    }
}

proof fn lemma_literal_plain(s: Seq<u8>, p: int, word: Seq<u8>, n: int)
    requires
        0 <= p,
        0 <= n <= word.len(),
        literal_match(s, p, word, n) == word.len(),
        forall|k: int| 0 <= k < word.len() ==> !is_structural(#[trigger] word[k]),
        p + n <= s.len(),
    ensures
        p + word.len() <= s.len(),
        forall|k: int| p + n <= k < p + word.len() ==> !is_structural(#[trigger] s[k]),
    decreases word.len() - n,
{
    if n < word.len() && byte_at(s, p + n) == Some(word[n]) {
        lemma_literal_plain(s, p, word, n + 1);
    }
}

proof fn lemma_plain_covers(s: Seq<u8>, i: int, e: int)
    requires
        0 <= i <= e <= s.len(),
        forall|k: int| i <= k < e ==> !is_structural(#[trigger] s[k]),
    ensures
        e <= plain_end(s, i) <= s.len(),
        run_over(s, e) ==> plain_end(s, i) == e,
    decreases e - i,
{
    lemma_plain_end(s, i);
    if i < e {
        lemma_plain_covers(s, i + 1, e);
    }
}

// --- parsing the prettified text ------------------------------------

/// The same entries under the same names, wherever they stand.
pub open spec fn same_outline(a: ScanState, b: ScanState) -> bool {
    &&& a.paths.len() == b.paths.len()
    &&& forall|i: int|
        0 <= i < a.paths.len() ==> (#[trigger] a.paths[i]).parent == b.paths[i].parent && a.paths[i].segment
            == b.paths[i].segment
    &&& a.names == b.names
}

/// Skipping each backslash with the byte behind it finds the end of every
/// string value. It does unless a `\u` escape is cut short by a quote or
/// a backslash.
pub open spec fn strings_regular(s: Seq<u8>, styles: Seq<StyleSpan>) -> bool {
    forall|k: int|
        0 <= k < styles.len() && (#[trigger] styles[k]).kind == StyleKind::String ==> string_stop(
            s,
            styles[k].start + 1,
        ) == styles[k].end
}

/// What follows a member: the end of the input, a comma or a closing
/// bracket.
spec fn member_ends(s: Seq<u8>, e: int) -> bool {
    let n = skip_ws_from(s, e);
    n == s.len() || (0 <= n < s.len() && (s[n] == COMMA || s[n] == RBRACE || s[n] == RBRACKET))
}

/// The two texts are at the same place, and what was parsed of them has
/// the same outline.
spec fn in_step(t: Seq<u8>, b: ScanState, s: Seq<u8>, a: ScanState, depth: nat) -> bool {
    follows(t, b.pos, s, a.pos, depth) && same_outline(a, b)
}

proof fn lemma_outline_closed(a: ScanState, b: ScanState, i: int, end_a: int, end_b: int)
    requires
        same_outline(a, b),
        0 <= i < a.paths.len(),
    ensures
        same_outline(a.closed_at(i, end_a), b.closed_at(i, end_b)),
{
    let x = a.closed_at(i, end_a);
    let y = b.closed_at(i, end_b);
    assert forall|k: int| 0 <= k < x.paths.len() implies (#[trigger] x.paths[k]).parent == y.paths[k].parent
        && x.paths[k].segment == y.paths[k].segment by {
        assert(a.paths[k].parent == b.paths[k].parent);
    }
}

/// Behind a run that a member ends with, the prettified text has no more
/// of it.
proof fn lemma_run_over(t: Seq<u8>, k: int, s: Seq<u8>, e: int, depth: nat)
    requires
        0 <= e <= s.len(),
        0 <= k <= t.len(),
        t.skip(k) == json_pretty(s, e, depth),
        member_ends(s, e),
    ensures
        run_over(s, e),
        run_over(t, k),
{
    lemma_skip_ws_bounds(s, e);
    lemma_pretty_skip_ws(s, e, depth);
    let n = skip_ws_from(s, e);
    let p = json_pretty(s, n, depth);
    if n == s.len() {
        assert(t.skip(k).len() == 0);
    } else {
        let outer = if depth == 0 {
            0
        } else {
            (depth - 1) as nat
        };
        if s[n] == COMMA {
            assert(p[0] == COMMA);
        } else {
            assert(p[0] == line_indent(outer)[0]);
        }
        assert(t.skip(k).len() == p.len());
        assert(t.skip(k)[0] == t[k]);
    }
}

/// A number or a literal of the document, in the prettified text.
proof fn lemma_scalar(t: Seq<u8>, j: int, s: Seq<u8>, i: int, depth: nat, e: int)
    requires
        follows(t, j, s, i, depth),
        ({
            let q = skip_ws_from(s, i);
            &&& q < e <= s.len()
            &&& s[q] != QUOTE
            &&& forall|n: int| q <= n < e ==> !is_structural(#[trigger] s[n])
        }),
        member_ends(s, e),
    ensures
        ({
            let q = skip_ws_from(s, i);
            let k = skip_ws_from(t, j);
            &&& j <= k
            &&& run_moved(s, t, q, k, e)
            &&& follows(t, k + (e - q), s, e, depth)
        }),
{
    lemma_follows_skip(t, j, s, i, depth);
    let q = skip_ws_from(s, i);
    let k = skip_ws_from(t, j);
    lemma_skip_ws_bounds(s, e);
    assert(run_over(s, e)) by {
        let n = skip_ws_from(s, e);
        if n > e {
            assert(is_ws(s[e]));
        }
    }
    assert(!is_structural(s[q]));
    lemma_plain_covers(s, q, e);
    lemma_step_run(t, j, s, i, depth, e);
    let p = json_pretty(s, q, depth);
    assert(p == s.subrange(q, e) + json_pretty(s, e, depth));
    assert(p[0] == s.subrange(q, e)[0]);
    assert(skip_ws_from(p, 0) == 0);
    assert(t.skip(k) =~= p);
    assert(t.skip(k + (e - q)) =~= p.skip(e - q));
    assert(p.skip(e - q) =~= json_pretty(s, e, depth));
    lemma_run_over(t, k + (e - q), s, e, depth);
    lemma_copied(s, t, q, k, e);
}

proof fn lemma_words_plain()
    ensures
        forall|k: int| 0 <= k < word_true().len() ==> !is_structural(#[trigger] word_true()[k]),
        forall|k: int| 0 <= k < word_false().len() ==> !is_structural(#[trigger] word_false()[k]),
        forall|k: int| 0 <= k < word_null().len() ==> !is_structural(#[trigger] word_null()[k]),
{
}

proof fn lemma_re_literal(t: Seq<u8>, j: int, s: Seq<u8>, i: int, depth: nat, word: Seq<u8>)
    requires
        follows(t, j, s, i, depth),
        word.len() > 0,
        word[0] != QUOTE,
        forall|k: int| 0 <= k < word.len() ==> !is_structural(#[trigger] word[k]),
        skip_ws_from(s, i) < s.len(),
        literal_match(s, skip_ws_from(s, i), word, 0) == word.len(),
        member_ends(s, skip_ws_from(s, i) + word.len()),
    ensures
        ({
            let k = skip_ws_from(t, j);
            &&& k < t.len() && t[k] == word[0]
            &&& literal_match(t, k, word, 0) == word.len()
            &&& follows(t, k + word.len(), s, skip_ws_from(s, i) + word.len(), depth)
        }),
{
    lemma_skip_ws_bounds(s, i);
    let q = skip_ws_from(s, i);
    let k = skip_ws_from(t, j);
    let e = q + word.len();
    lemma_literal_plain(s, q, word, 0);
    assert(s[q] == word[0]);
    lemma_scalar(t, j, s, i, depth, e);
    lemma_literal_moved(s, t, q, k, word, 0);
    assert(s[q] == t[q - q + k]);
}

proof fn lemma_re_value(
    s: Seq<u8>,
    t: Seq<u8>,
    a: ScanState,
    b: ScanState,
    this: u32,
    depth: nat,
)
    requires
        s.len() < u32::MAX,
        in_step(t, b, s, a, depth),
        json_value(s, a, this).err is None,
        strings_regular(s, json_value(s, a, this).st.styles),
        ({
            let q = skip_ws_from(s, a.pos);
            member_ends(s, json_value(s, a, this).st.pos) || s[q] == LBRACE || s[q] == LBRACKET || s[q] == QUOTE
        }),
    ensures
        json_value(t, b, this).err is None,
        in_step(t, json_value(t, b, this).st, s, json_value(s, a, this).st, depth),
    decreases s.len() - a.pos, 1int,
{
    lemma_follows_skip(t, b.pos, s, a.pos, depth);
    lemma_value_forward(s, a, this);
    let q = skip_ws_from(s, a.pos);
    let k = skip_ws_from(t, b.pos);
    let v = json_value(s, a, this);
    let a1 = a.at(q);
    let b1 = b.at(k);
    if s[q] == LBRACE {
        lemma_re_object(s, t, a1, b1, this, depth);
    } else if s[q] == LBRACKET {
        lemma_re_array(s, t, a1, b1, this, depth);
    } else if s[q] == QUOTE {
        lemma_string_close(s, q + 1);
        let c = string_close(s, q + 1)->0;
        let span = v.st.styles[a.styles.len() as int];
        assert(span == (StyleSpan { start: q as u32, end: (c + 1) as u32, kind: StyleKind::String }));
        assert(string_stop(s, span.start + 1) == span.end);
        lemma_step_run(t, b.pos, s, a.pos, depth, c + 1);
        lemma_copied(s, t, q, k, c + 1);
        lemma_string_moved(s, t, q, k, q + 1, c);
        assert(s[q] == t[q - q + k]);
    } else if s[q] == LOWER_T {
        lemma_words_plain();
        lemma_re_literal(t, b.pos, s, a.pos, depth, word_true());
    } else if s[q] == LOWER_F {
        lemma_words_plain();
        lemma_re_literal(t, b.pos, s, a.pos, depth, word_false());
    } else if s[q] == LOWER_N {
        lemma_words_plain();
        lemma_re_literal(t, b.pos, s, a.pos, depth, word_null());
    } else {
        lemma_number_phases(s, q);
        lemma_number_plain(s, q);
        let e = number_end(s, q)->0;
        lemma_scalar(t, b.pos, s, a.pos, depth, e);
        lemma_number_moved(s, t, q, k, e);
        assert(s[q] == t[q - q + k]);
    }
}

proof fn lemma_re_object(
    s: Seq<u8>,
    t: Seq<u8>,
    a: ScanState,
    b: ScanState,
    this: u32,
    depth: nat,
)
    requires
        s.len() < u32::MAX,
        in_step(t, b, s, a, depth),
        a.pos < s.len(),
        s[a.pos] == LBRACE,
        b.pos == skip_ws_from(t, b.pos),
        json_object(s, a, this).err is None,
        strings_regular(s, json_object(s, a, this).st.styles),
    ensures
        b.pos < t.len(),
        t[b.pos] == LBRACE,
        json_object(t, b, this).err is None,
        in_step(t, json_object(t, b, this).st, s, json_object(s, a, this).st, depth),
    decreases s.len() - a.pos, 0int,
{
    assert(skip_ws_from(s, a.pos) == a.pos);
    lemma_skip_ws_bounds(s, a.pos + 1);
    let p = skip_ws_from(s, a.pos + 1);
    if byte_at(s, p) == Some(RBRACE) {
        lemma_step_empty(t, b.pos, s, a.pos, depth);
        assert(skip_ws_from(t, b.pos + 1) == b.pos + 1);
    } else {
        lemma_step_open(t, b.pos, s, a.pos, depth);
        lemma_follows_skip(t, b.pos + 1, s, a.pos + 1, depth + 1);
        lemma_re_fields(s, t, a.at(p), b.at(skip_ws_from(t, b.pos + 1)), this, depth + 1);
    }
}

proof fn lemma_re_fields(
    s: Seq<u8>,
    t: Seq<u8>,
    a: ScanState,
    b: ScanState,
    this: u32,
    depth: nat,
)
    requires
        s.len() < u32::MAX,
        depth > 0,
        in_step(t, b, s, a, depth),
        json_fields(s, a, this).err is None,
        strings_regular(s, json_fields(s, a, this).st.styles),
    ensures
        byte_at(t, skip_ws_from(t, b.pos)) == Some(QUOTE),
        json_fields(t, b, this).err is None,
        in_step(t, json_fields(t, b, this).st, s, json_fields(s, a, this).st, (depth - 1) as nat),
    decreases s.len() - a.pos, 2int,
{
    lemma_json_fields_positions(s, a.pos);
    let p = skip_ws_from(s, a.pos);
    let q = string_close(s, p + 1)->0;
    let name = decode_escapes(s.subrange(p + 1, q), 0)->Ok_0;
    let c = skip_ws_from(s, q + 1);
    let index = a.paths.len() as int;
    let segment = PathSegment::Key(intern_id(a.names, name) as u32);
    let opened = a.styled(p, q + 1, StyleKind::Key).at(q + 1).with_name(name).opened(p, this, segment).at(c);
    let inside = opened.at(c + 1);
    lemma_value_forward(s, inside, index as u32);
    let v = json_value(s, inside, index as u32);
    let closed = v.st.closed_at(index, v.st.pos);
    lemma_after_field_forward(s, closed, this);
    let done = json_after_field(s, closed, this);
    // The key and the colon in the prettified text.
    assert(string_stop(s, p + 1) == q + 1) by {
        lemma_key_stop(s, p, q);
    }
    lemma_step_run(t, b.pos, s, a.pos, depth, q + 1);
    let k = skip_ws_from(t, b.pos);
    let r = k + (q - p);
    lemma_copied(s, t, p, k, q + 1);
    lemma_string_moved(s, t, p, k, p + 1, q);
    assert(s[p] == t[p - p + k]);
    assert(t.subrange(k + 1, r) =~= t.subrange(k, k + (q + 1 - p)).subrange(1, q - p));
    assert(s.subrange(p + 1, q) =~= s.subrange(p, q + 1).subrange(1, q - p));
    lemma_step_mark(t, r + 1, s, q + 1, depth);
    let c2 = skip_ws_from(t, r + 1);
    // The value.
    let opened2 = b.styled(k, r + 1, StyleKind::Key).at(r + 1).with_name(name).opened(k, this, segment).at(c2);
    let inside2 = opened2.at(c2 + 1);
    assert(same_outline(inside, inside2));
    assert(strings_regular(s, v.st.styles)) by {
        assert forall|n: int| 0 <= n < v.st.styles.len() && (#[trigger] v.st.styles[n]).kind
            == StyleKind::String implies string_stop(s, v.st.styles[n].start + 1) == v.st.styles[n].end by {
            assert(done.st.styles[n] == v.st.styles[n]);
        }
    }
    lemma_skip_ws_bounds(s, closed.pos);
    assert(member_ends(s, v.st.pos));
    lemma_re_value(s, t, inside, inside2, index as u32, depth);
    let v2 = json_value(t, inside2, index as u32);
    lemma_value_forward(t, inside2, index as u32);
    let closed2 = v2.st.closed_at(index, v2.st.pos);
    lemma_outline_closed(v.st, v2.st, index, v.st.pos, v2.st.pos);
    lemma_re_after_field(s, t, closed, closed2, this, depth);
}

proof fn lemma_re_after_field(
    s: Seq<u8>,
    t: Seq<u8>,
    a: ScanState,
    b: ScanState,
    this: u32,
    depth: nat,
)
    requires
        s.len() < u32::MAX,
        depth > 0,
        in_step(t, b, s, a, depth),
        json_after_field(s, a, this).err is None,
        strings_regular(s, json_after_field(s, a, this).st.styles),
    ensures
        json_after_field(t, b, this).err is None,
        in_step(t, json_after_field(t, b, this).st, s, json_after_field(s, a, this).st, (depth - 1) as nat),
    decreases s.len() - a.pos, 0int,
{
    lemma_skip_ws_bounds(s, a.pos);
    let p = skip_ws_from(s, a.pos);
    if s[p] == COMMA {
        lemma_step_mark(t, b.pos, s, a.pos, depth);
        lemma_re_fields(s, t, a.at(p + 1), b.at(skip_ws_from(t, b.pos) + 1), this, depth);
    } else {
        lemma_step_close(t, b.pos, s, a.pos, depth);
    }
}

proof fn lemma_re_array(
    s: Seq<u8>,
    t: Seq<u8>,
    a: ScanState,
    b: ScanState,
    this: u32,
    depth: nat,
)
    requires
        s.len() < u32::MAX,
        in_step(t, b, s, a, depth),
        a.pos < s.len(),
        s[a.pos] == LBRACKET,
        b.pos == skip_ws_from(t, b.pos),
        json_array(s, a, this).err is None,
        strings_regular(s, json_array(s, a, this).st.styles),
    ensures
        b.pos < t.len(),
        t[b.pos] == LBRACKET,
        json_array(t, b, this).err is None,
        in_step(t, json_array(t, b, this).st, s, json_array(s, a, this).st, depth),
    decreases s.len() - a.pos, 0int,
{
    assert(skip_ws_from(s, a.pos) == a.pos);
    lemma_skip_ws_bounds(s, a.pos + 1);
    let p = skip_ws_from(s, a.pos + 1);
    if byte_at(s, p) == Some(RBRACKET) {
        lemma_step_empty(t, b.pos, s, a.pos, depth);
        assert(skip_ws_from(t, b.pos + 1) == b.pos + 1);
    } else {
        lemma_step_open(t, b.pos, s, a.pos, depth);
        lemma_follows_skip(t, b.pos + 1, s, a.pos + 1, depth + 1);
        lemma_re_elements(s, t, a.at(p), b.at(skip_ws_from(t, b.pos + 1)), this, depth + 1, 0);
    }
}

proof fn lemma_re_elements(
    s: Seq<u8>,
    t: Seq<u8>,
    a: ScanState,
    b: ScanState,
    this: u32,
    depth: nat,
    index: int,
)
    requires
        s.len() < u32::MAX,
        depth > 0,
        in_step(t, b, s, a, depth),
        json_elements(s, a, this, index).err is None,
        strings_regular(s, json_elements(s, a, this, index).st.styles),
    ensures
        byte_at(t, skip_ws_from(t, b.pos)) != Some(RBRACKET),
        json_elements(t, b, this, index).err is None,
        in_step(t, json_elements(t, b, this, index).st, s, json_elements(s, a, this, index).st, (depth - 1) as nat),
    decreases s.len() - a.pos, 2int,
{
    lemma_follows_skip(t, b.pos, s, a.pos, depth);
    let p = skip_ws_from(s, a.pos);
    let k = skip_ws_from(t, b.pos);
    let entry = a.paths.len() as int;
    let opened = a.at(p).opened(p, this, PathSegment::Index(index as u32));
    let opened2 = b.at(k).opened(k, this, PathSegment::Index(index as u32));
    lemma_value_forward(s, opened, entry as u32);
    let v = json_value(s, opened, entry as u32);
    let closed = v.st.closed_at(entry, v.st.pos);
    lemma_after_element_forward(s, closed, this, index);
    let done = json_after_element(s, closed, this, index);
    assert(strings_regular(s, v.st.styles)) by {
        assert forall|n: int| 0 <= n < v.st.styles.len() && (#[trigger] v.st.styles[n]).kind
            == StyleKind::String implies string_stop(s, v.st.styles[n].start + 1) == v.st.styles[n].end by {
            assert(done.st.styles[n] == v.st.styles[n]);
        }
    }
    lemma_skip_ws_bounds(s, closed.pos);
    assert(member_ends(s, v.st.pos));
    assert(same_outline(opened, opened2));
    lemma_re_value(s, t, opened, opened2, entry as u32, depth);
    let v2 = json_value(t, opened2, entry as u32);
    lemma_value_forward(t, opened2, entry as u32);
    let closed2 = v2.st.closed_at(entry, v2.st.pos);
    lemma_outline_closed(v.st, v2.st, entry, v.st.pos, v2.st.pos);
    lemma_re_after_element(s, t, closed, closed2, this, depth, index);
}

proof fn lemma_re_after_element(
    s: Seq<u8>,
    t: Seq<u8>,
    a: ScanState,
    b: ScanState,
    this: u32,
    depth: nat,
    index: int,
)
    requires
        s.len() < u32::MAX,
        depth > 0,
        in_step(t, b, s, a, depth),
        json_after_element(s, a, this, index).err is None,
        strings_regular(s, json_after_element(s, a, this, index).st.styles),
    ensures
        json_after_element(t, b, this, index).err is None,
        in_step(
            t,
            json_after_element(t, b, this, index).st,
            s,
            json_after_element(s, a, this, index).st,
            (depth - 1) as nat,
        ),
    decreases s.len() - a.pos, 0int,
{
    lemma_skip_ws_bounds(s, a.pos);
    let p = skip_ws_from(s, a.pos);
    if s[p] == COMMA {
        lemma_step_mark(t, b.pos, s, a.pos, depth);
        lemma_re_elements(s, t, a.at(p + 1), b.at(skip_ws_from(t, b.pos) + 1), this, depth, index + 1);
    } else {
        lemma_step_close(t, b.pos, s, a.pos, depth);
    }
}

/// A number or literal as the whole document still parses, whatever comes
/// after it.
proof fn lemma_root_scalar(s: Seq<u8>, t: Seq<u8>, st: ScanState)
    requires
        follows(t, 0, s, 0, 0),
        st.pos == 0,
        json_value(s, st, 0).err is None,
        ({
            let q = skip_ws_from(s, 0);
            s[q] != LBRACE && s[q] != LBRACKET && s[q] != QUOTE
        }),
    ensures
        json_value(t, st, 0).err is None,
        json_value(s, st, 0).st.paths == st.paths,
        json_value(s, st, 0).st.names == st.names,
        json_value(t, st, 0).st.paths == st.paths,
        json_value(t, st, 0).st.names == st.names,
{
    lemma_follows_skip(t, 0, s, 0, 0);
    lemma_value_forward(s, st, 0);
    let q = skip_ws_from(s, 0);
    let k = skip_ws_from(t, 0);
    let e = json_value(s, st, 0).st.pos;
    lemma_words_plain();
    if s[q] == LOWER_T {
        lemma_literal_plain(s, q, word_true(), 0);
    } else if s[q] == LOWER_F {
        lemma_literal_plain(s, q, word_false(), 0);
    } else if s[q] == LOWER_N {
        lemma_literal_plain(s, q, word_null(), 0);
    } else {
        lemma_number_phases(s, q);
        lemma_number_plain(s, q);
    }
    assert(!is_structural(s[q]));
    lemma_plain_covers(s, q, e);
    let run = plain_end(s, q);
    lemma_step_run(t, 0, s, 0, 0, run);
    lemma_copied(s, t, q, k, run);
    assert(s[q] == t[q - q + k]);
    assert(copied(s, t, q, k, e));
    if s[q] == LOWER_T {
        lemma_literal_moved(s, t, q, k, word_true(), 0);
    } else if s[q] == LOWER_F {
        lemma_literal_moved(s, t, q, k, word_false(), 0);
    } else if s[q] == LOWER_N {
        lemma_literal_moved(s, t, q, k, word_null(), 0);
    } else {
        let first = number_sign_end(s, q);
        assert(s[first] == t[first - q + k]);
        assert(is_digit(s[first]));
        assert(number_sign_end(t, k) == first - q + k);
        lemma_skip_digits_bounds(t, first - q + k + 1);
        assert(number_end(t, k) is Some);
    }
}

/// Every string value is well formed: its escapes decode.
pub open spec fn strings_decode(s: Seq<u8>, styles: Seq<StyleSpan>) -> bool {
    forall|k: int|
        0 <= k < styles.len() && (#[trigger] styles[k]).kind == StyleKind::String ==> decode_escapes(
            s.subrange(styles[k].start + 1, styles[k].end - 1),
            0,
        ) is Ok
}

/// Well-formed strings are regular, so the law below covers every
/// well-formed document.
pub proof fn law_json_strings_regular(s: Seq<u8>)
    requires
        s.len() < u32::MAX,
        strings_decode(s, json_document(s).st.styles),
    ensures
        strings_regular(s, json_document(s).st.styles),
{
    let rooted = ScanState::empty().opened(0, ROOT_PARENT, PathSegment::Root);
    reveal(strings_spanned);
    lemma_value_forward(s, rooted, 0);
    let styles = json_document(s).st.styles;
    assert(styles == json_value(s, rooted, 0).st.styles);
    assert(strings_spanned(s, rooted.styles));
    assert forall|k: int| 0 <= k < styles.len() && (#[trigger] styles[k]).kind == StyleKind::String implies string_stop(
        s,
        styles[k].start + 1,
    ) == styles[k].end by {
        lemma_key_stop(s, styles[k].start as int, styles[k].end - 1);
    }
}

/// The prettified form of a document that parses does so too, and with
/// the same entries under the same names, so that every path still leads
/// to the same value. Left out are documents with a string value in which
/// a quote or a backslash cuts a `\u` escape short: the prettifier takes
/// that quote for the end of the string.
pub proof fn law_json_prettify_reparses(s: Seq<u8>)
    requires
        s.len() < u32::MAX,
        json_document(s).err is None,
        strings_regular(s, json_document(s).st.styles),
    ensures
        json_document(json_pretty(s, 0, 0)).err is None,
        same_outline(json_document(s).st, json_document(json_pretty(s, 0, 0)).st),
{
    let t = json_pretty(s, 0, 0);
    let rooted = ScanState::empty().opened(0, ROOT_PARENT, PathSegment::Root);
    assert(t.skip(0) =~= Seq::<u8>::empty() + t);
    lemma_follows(t, 0, Seq::empty(), s, 0, 0);
    lemma_value_forward(s, rooted, 0);
    let q = skip_ws_from(s, 0);
    let v = json_value(s, rooted, 0);
    if s[q] == LBRACE || s[q] == LBRACKET || s[q] == QUOTE {
        lemma_re_value(s, t, rooted, rooted, 0, 0);
    } else {
        lemma_root_scalar(s, t, rooted);
    }
    let v2 = json_value(t, rooted, 0);
    lemma_outline_closed(v.st, v2.st, 0, s.len() as int, t.len() as int);
}

} // verus!
