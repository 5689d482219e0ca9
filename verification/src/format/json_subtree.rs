//! Laws of JSON sub-trees: what is copied for an entry is a JSON value
//! of its own, and a field's name is its decoded key.

use vstd::prelude::*;

use crate::ascii::{
    BACKSLASH, COLON, COMMA, DOT, LBRACE, LBRACKET, LOWER_E, LOWER_F, LOWER_N, LOWER_T, LOWER_U, MINUS, PLUS, QUOTE,
    RBRACE, RBRACKET, UPPER_E,
};
use crate::bytes::{
    is_ascii_space, is_digit, is_ws, lemma_skip_digits_bounds, lemma_skip_ws_bounds, skip_digits_from, skip_ws_from,
    trim_end_from, trim_start_from,
};
use crate::format::cursor::byte_at;
use crate::format::json_laws::{law_json_indexes, lemma_sized_at};
use crate::format::nesting::{descendants, lemma_descendants_all};
use crate::format::json::{
    decode_escapes, decode_item, field_value_start, hex4_at, hex_number, hex_value, json_after_element,
    json_after_field, json_array, json_document, json_elements, json_fields, json_object, json_value, json_value_bytes,
    lemma_json_fields_positions, lemma_string_close, lemma_string_stop, literal_match, number_end, number_exponent_end,
    number_fraction_end, number_sign_end, string_close, string_stop, word_false, word_null, word_true,
};
use crate::format::{
    entry_text, intern_id, interned, PathEntry, PathSegment, ScanState, Step, StyleKind, StyleSpan, ROOT_PARENT,
};

verus! {

/// `t` is the part `s[a..b]`.
pub open spec fn part_of(t: Seq<u8>, s: Seq<u8>, a: int, b: int) -> bool {
    0 <= a <= b <= s.len() && t == s.subrange(a, b)
}

/// Parsing from `st2` in the part stops at the same place as from `st` in
/// the whole, with as many new entries.
spec fn same_stop(whole: Step, part: Step, a: int, st: ScanState, st2: ScanState) -> bool {
    &&& part.err is None
    &&& part.st.pos == whole.st.pos - a
    &&& part.st.paths.len() - st2.paths.len() == whole.st.paths.len() - st.paths.len()
}

// --- scanning in a part ---------------------------------------------

proof fn lemma_part_ws(s: Seq<u8>, t: Seq<u8>, a: int, b: int, i: int)
    requires
        part_of(t, s, a, b),
        a <= i <= b,
        skip_ws_from(s, i) <= b,
    ensures
        skip_ws_from(t, i - a) == skip_ws_from(s, i) - a,
    decreases b - i,
{
    lemma_skip_ws_bounds(s, i);
    if i < b {
        assert(t[i - a] == s[i]);
        if is_ws(s[i]) {
            lemma_part_ws(s, t, a, b, i + 1);
        }
    }
}

proof fn lemma_part_digits(s: Seq<u8>, t: Seq<u8>, a: int, b: int, i: int)
    requires
        part_of(t, s, a, b),
        a <= i <= b,
        skip_digits_from(s, i) <= b,
    ensures
        skip_digits_from(t, i - a) == skip_digits_from(s, i) - a,
    decreases b - i,
{
    lemma_skip_digits_bounds(s, i);
    if i < b {
        assert(t[i - a] == s[i]);
        if is_digit(s[i]) {
            lemma_part_digits(s, t, a, b, i + 1);
        }
    }
}

pub proof fn lemma_part_string(s: Seq<u8>, t: Seq<u8>, a: int, b: int, i: int)
    requires
        part_of(t, s, a, b),
        a <= i,
        string_close(s, i) matches Some(q) && q < b,
    ensures
        string_close(t, i - a) == Some(string_close(s, i)->0 - a),
    decreases (if i < s.len() { s.len() - i } else { 0 }),
{
    lemma_string_close(s, i);
    assert(t[i - a] == s[i]);
    if s[i] != QUOTE {
        if s[i] == BACKSLASH {
            if i + 1 < s.len() && s[i + 1] == LOWER_U {
                lemma_string_close(s, i + 6);
                assert(t[i + 1 - a] == s[i + 1]);
                lemma_part_string(s, t, a, b, i + 6);
            } else {
                lemma_string_close(s, i + 2);
                assert(t[i + 1 - a] == s[i + 1]);
                lemma_part_string(s, t, a, b, i + 2);
            }
        } else {
            lemma_part_string(s, t, a, b, i + 1);
        }
    }
}

proof fn lemma_part_literal(s: Seq<u8>, t: Seq<u8>, a: int, b: int, i: int, word: Seq<u8>, k: int)
    requires
        part_of(t, s, a, b),
        a <= i,
        0 <= k <= word.len(),
        literal_match(s, i, word, k) == word.len(),
        i + word.len() <= b,
    ensures
        literal_match(t, i - a, word, k) == word.len(),
    decreases word.len() - k,
{
    if k < word.len() {
        if byte_at(s, i + k) == Some(word[k]) {
            assert(t[i + k - a] == s[i + k]);
            lemma_part_literal(s, t, a, b, i, word, k + 1);
        }
    }
}

/// The phases of a number end in order.
pub proof fn lemma_number_phases(s: Seq<u8>, i: int)
    requires
        0 <= i < s.len(),
        number_end(s, i) is Some,
    ensures
        ({
            let first = number_sign_end(s, i);
            let whole = skip_digits_from(s, first);
            let frac = number_fraction_end(s, whole);
            let end = number_exponent_end(s, frac);
            &&& i <= first < whole <= frac <= end <= s.len()
            &&& number_end(s, i) == Some(end)
        }),
{
    let first = number_sign_end(s, i);
    lemma_skip_digits_bounds(s, first);
    let whole = skip_digits_from(s, first);
    if whole < s.len() {
        lemma_skip_digits_bounds(s, whole + 1);
    }
    let frac = number_fraction_end(s, whole);
    if frac < s.len() {
        lemma_skip_digits_bounds(s, frac + 1);
        if frac + 1 < s.len() {
            lemma_skip_digits_bounds(s, frac + 2);
        }
    }
}

proof fn lemma_part_number(s: Seq<u8>, t: Seq<u8>, a: int, b: int, i: int)
    requires
        part_of(t, s, a, b),
        a <= i < s.len(),
        number_end(s, i) matches Some(e) && e <= b,
    ensures
        number_end(t, i - a) == Some(number_end(s, i)->0 - a),
{
    lemma_number_phases(s, i);
    let first = number_sign_end(s, i);
    let whole = skip_digits_from(s, first);
    let frac = number_fraction_end(s, whole);
    let end = number_exponent_end(s, frac);
    assert(t[i - a] == s[i]);
    assert(number_sign_end(t, i - a) == first - a);
    lemma_part_digits(s, t, a, b, first);
    if whole < b {
        assert(t[whole - a] == s[whole]);
    }
    if byte_at(s, whole) == Some(DOT) {
        lemma_skip_digits_bounds(s, whole + 1);
        lemma_part_digits(s, t, a, b, whole + 1);
    }
    assert(number_fraction_end(t, whole - a) == frac - a);
    if frac < b {
        assert(t[frac - a] == s[frac]);
    }
    if byte_at(s, frac) == Some(LOWER_E) || byte_at(s, frac) == Some(UPPER_E) {
        lemma_skip_digits_bounds(s, frac + 1);
        if frac + 1 < b {
            assert(t[frac + 1 - a] == s[frac + 1]);
        }
        if byte_at(s, frac + 1) == Some(PLUS) || byte_at(s, frac + 1) == Some(MINUS) {
            lemma_skip_digits_bounds(s, frac + 2);
            lemma_part_digits(s, t, a, b, frac + 2);
        } else {
            lemma_part_digits(s, t, a, b, frac + 1);
        }
    }
}

// --- positions ------------------------------------------------------

/// A step never goes back, a successful one goes forward, no entry is
/// lost, and the styles so far stay.
pub open spec fn forward(s: Seq<u8>, before: ScanState, step: Step) -> bool {
    &&& before.pos <= step.st.pos <= s.len()
    &&& step.err is None ==> before.pos < step.st.pos
    &&& before.paths.len() <= step.st.paths.len()
    &&& before.styles.len() <= step.st.styles.len()
    &&& forall|k: int| 0 <= k < before.styles.len() ==> #[trigger] step.st.styles[k] == before.styles[k]
    &&& s.len() < u32::MAX && strings_spanned(s, before.styles) ==> strings_spanned(s, step.st.styles)
}

/// Every string value is styled from quote to quote.
#[verifier::opaque]
pub open spec fn strings_spanned(s: Seq<u8>, styles: Seq<StyleSpan>) -> bool {
    forall|k: int|
        0 <= k < styles.len() && (#[trigger] styles[k]).kind == StyleKind::String ==> string_close(
            s,
            styles[k].start + 1,
        ) == Some(styles[k].end - 1)
}

proof fn lemma_spanned_push(s: Seq<u8>, st: ScanState, start: int, end: int, kind: StyleKind)
    requires
        0 <= start < end <= s.len(),
        kind == StyleKind::String ==> string_close(s, start + 1) == Some(end - 1),
    ensures
        s.len() < u32::MAX && strings_spanned(s, st.styles) ==> strings_spanned(s, st.styled(start, end, kind).styles),
{
    reveal(strings_spanned);
    let after = st.styled(start, end, kind).styles;
    if s.len() < u32::MAX && strings_spanned(s, st.styles) {
        assert forall|k: int| 0 <= k < after.len() && (#[trigger] after[k]).kind == StyleKind::String implies string_close(
            s,
            after[k].start + 1,
        ) == Some(after[k].end - 1) by {
            if k < st.styles.len() {
                assert(after[k] == st.styles[k]);
            }
        }
    }
}

proof fn lemma_literal_bounds(s: Seq<u8>, i: int, word: Seq<u8>, k: int)
    requires
        0 <= i,
        0 <= k <= word.len(),
        i + k <= s.len(),
    ensures
        k <= literal_match(s, i, word, k) <= word.len(),
        i + literal_match(s, i, word, k) <= s.len(),
    decreases word.len() - k,
{
    if k < word.len() && byte_at(s, i + k) == Some(word[k]) {
        lemma_literal_bounds(s, i, word, k + 1);
    }
}

pub proof fn lemma_value_forward(s: Seq<u8>, st: ScanState, this: u32)
    requires
        0 <= st.pos <= s.len(),
    ensures
        forward(s, st, json_value(s, st, this)),
        skip_ws_from(s, st.pos) <= json_value(s, st, this).st.pos,
        json_value(s, st, this).err is None ==> skip_ws_from(s, st.pos) < json_value(s, st, this).st.pos,
    decreases s.len() - st.pos, 1int,
{
    lemma_skip_ws_bounds(s, st.pos);
    let p = skip_ws_from(s, st.pos);
    let st1 = st.at(p);
    if p < s.len() {
        if s[p] == LBRACE {
            lemma_object_forward(s, st1, this);
        } else if s[p] == LBRACKET {
            lemma_array_forward(s, st1, this);
        } else if s[p] == QUOTE {
            lemma_string_close(s, p + 1);
            if let Some(q) = string_close(s, p + 1) {
                lemma_spanned_push(s, st1, p, q + 1, StyleKind::String);
            }
        } else {
            lemma_literal_bounds(s, p, word_true(), 0);
            lemma_literal_bounds(s, p, word_false(), 0);
            lemma_literal_bounds(s, p, word_null(), 0);
            if p + 4 <= s.len() {
                lemma_spanned_push(s, st1, p, p + 4, StyleKind::Bool);
                lemma_spanned_push(s, st1, p, p + 4, StyleKind::Null);
            }
            if p + 5 <= s.len() {
                lemma_spanned_push(s, st1, p, p + 5, StyleKind::Bool);
            }
            if number_end(s, p) is Some {
                lemma_number_phases(s, p);
                lemma_spanned_push(s, st1, p, number_end(s, p)->0, StyleKind::Number);
            }
        }
    }
}

pub proof fn lemma_object_forward(s: Seq<u8>, st: ScanState, this: u32)
    requires
        0 <= st.pos < s.len(),
    ensures
        forward(s, st, json_object(s, st, this)),
    decreases s.len() - st.pos, 0int,
{
    lemma_skip_ws_bounds(s, st.pos + 1);
    let p = skip_ws_from(s, st.pos + 1);
    if byte_at(s, p) != Some(RBRACE) {
        lemma_fields_forward(s, st.at(p), this);
    }
}

pub proof fn lemma_fields_forward(s: Seq<u8>, st: ScanState, this: u32)
    requires
        0 <= st.pos <= s.len(),
    ensures
        forward(s, st, json_fields(s, st, this)),
    decreases s.len() - st.pos, 2int,
{
    lemma_json_fields_positions(s, st.pos);
    let p = skip_ws_from(s, st.pos);
    if byte_at(s, p) == Some(QUOTE) {
        if let Some(q) = string_close(s, p + 1) {
            lemma_spanned_push(s, st, p, q + 1, StyleKind::Key);
            if let Ok(name) = decode_escapes(s.subrange(p + 1, q), 0) {
                let c = skip_ws_from(s, q + 1);
                let index = st.paths.len() as int;
                let opened = st.styled(p, q + 1, StyleKind::Key).at(q + 1).with_name(name).opened(
                    p,
                    this,
                    PathSegment::Key(intern_id(st.names, name) as u32),
                ).at(c);
                if byte_at(s, c) == Some(COLON) {
                    lemma_value_forward(s, opened.at(c + 1), index as u32);
                    let v = json_value(s, opened.at(c + 1), index as u32);
                    if v.err is None {
                        lemma_after_field_forward(s, v.st.closed_at(index, v.st.pos), this);
                    }
                }
            }
        }
    }
}

pub proof fn lemma_after_field_forward(s: Seq<u8>, st: ScanState, this: u32)
    requires
        0 <= st.pos <= s.len(),
    ensures
        forward(s, st, json_after_field(s, st, this)),
    decreases s.len() - st.pos, 0int,
{
    lemma_skip_ws_bounds(s, st.pos);
    let p = skip_ws_from(s, st.pos);
    if p < s.len() && s[p] == COMMA {
        lemma_fields_forward(s, st.at(p + 1), this);
    }
}

pub proof fn lemma_array_forward(s: Seq<u8>, st: ScanState, this: u32)
    requires
        0 <= st.pos < s.len(),
    ensures
        forward(s, st, json_array(s, st, this)),
    decreases s.len() - st.pos, 0int,
{
    lemma_skip_ws_bounds(s, st.pos + 1);
    let p = skip_ws_from(s, st.pos + 1);
    if byte_at(s, p) != Some(RBRACKET) {
        lemma_elements_forward(s, st.at(p), this, 0);
    }
}

pub proof fn lemma_elements_forward(s: Seq<u8>, st: ScanState, this: u32, index: int)
    requires
        0 <= st.pos <= s.len(),
    ensures
        forward(s, st, json_elements(s, st, this, index)),
    decreases s.len() - st.pos, 2int,
{
    lemma_skip_ws_bounds(s, st.pos);
    let p = skip_ws_from(s, st.pos);
    let entry = st.paths.len() as int;
    let opened = st.at(p).opened(p, this, PathSegment::Index(index as u32));
    lemma_value_forward(s, opened, entry as u32);
    let v = json_value(s, opened, entry as u32);
    if v.err is None {
        lemma_after_element_forward(s, v.st.closed_at(entry, v.st.pos), this, index);
    }
}

pub proof fn lemma_after_element_forward(s: Seq<u8>, st: ScanState, this: u32, index: int)
    requires
        0 <= st.pos <= s.len(),
    ensures
        forward(s, st, json_after_element(s, st, this, index)),
    decreases s.len() - st.pos, 0int,
{
    lemma_skip_ws_bounds(s, st.pos);
    let p = skip_ws_from(s, st.pos);
    if p < s.len() && s[p] == COMMA {
        lemma_elements_forward(s, st.at(p + 1), this, index + 1);
    }
}

// --- parsing in a part ----------------------------------------------

/// A value that lies in a part of the input parses in that part as it
/// does in the whole, whatever was parsed before.
proof fn lemma_part_value(
    s: Seq<u8>,
    t: Seq<u8>,
    a: int,
    b: int,
    st: ScanState,
    st2: ScanState,
    this: u32,
    this2: u32,
)
    requires
        part_of(t, s, a, b),
        a <= st.pos,
        st2.pos == st.pos - a,
        json_value(s, st, this).err is None,
        json_value(s, st, this).st.pos <= b,
    ensures
        same_stop(json_value(s, st, this), json_value(t, st2, this2), a, st, st2),
    decreases s.len() - st.pos, 1int,
{
    if st.pos <= s.len() {
        lemma_value_forward(s, st, this);
        lemma_skip_ws_bounds(s, st.pos);
        let p = skip_ws_from(s, st.pos);
        lemma_part_ws(s, t, a, b, st.pos);
        assert(p < b);
        assert(t[p - a] == s[p]);
        let st1 = st.at(p);
        let st3 = st2.at(p - a);
        if s[p] == LBRACE {
            lemma_part_object(s, t, a, b, st1, st3, this, this2);
        } else if s[p] == LBRACKET {
            lemma_part_array(s, t, a, b, st1, st3, this, this2);
        } else if s[p] == QUOTE {
            lemma_string_close(s, p + 1);
            lemma_part_string(s, t, a, b, p + 1);
        } else if s[p] == LOWER_T {
            lemma_part_literal(s, t, a, b, p, word_true(), 0);
        } else if s[p] == LOWER_F {
            lemma_part_literal(s, t, a, b, p, word_false(), 0);
        } else if s[p] == LOWER_N {
            lemma_part_literal(s, t, a, b, p, word_null(), 0);
        } else {
            lemma_part_number(s, t, a, b, p);
        }
    }
}

proof fn lemma_part_object(
    s: Seq<u8>,
    t: Seq<u8>,
    a: int,
    b: int,
    st: ScanState,
    st2: ScanState,
    this: u32,
    this2: u32,
)
    requires
        part_of(t, s, a, b),
        a <= st.pos < s.len(),
        st2.pos == st.pos - a,
        json_object(s, st, this).err is None,
        json_object(s, st, this).st.pos <= b,
    ensures
        same_stop(json_object(s, st, this), json_object(t, st2, this2), a, st, st2),
    decreases s.len() - st.pos, 0int,
{
    lemma_skip_ws_bounds(s, st.pos + 1);
    let p = skip_ws_from(s, st.pos + 1);
    if byte_at(s, p) == Some(RBRACE) {
        lemma_part_ws(s, t, a, b, st.pos + 1);
        assert(t[p - a] == s[p]);
    } else {
        lemma_fields_forward(s, st.at(p), this);
        lemma_part_ws(s, t, a, b, st.pos + 1);
        if p < b {
            assert(t[p - a] == s[p]);
        }
        lemma_part_fields(s, t, a, b, st.at(p), st2.at(p - a), this, this2);
    }
}

proof fn lemma_part_fields(
    s: Seq<u8>,
    t: Seq<u8>,
    a: int,
    b: int,
    st: ScanState,
    st2: ScanState,
    this: u32,
    this2: u32,
)
    requires
        part_of(t, s, a, b),
        a <= st.pos <= s.len(),
        st2.pos == st.pos - a,
        json_fields(s, st, this).err is None,
        json_fields(s, st, this).st.pos <= b,
    ensures
        same_stop(json_fields(s, st, this), json_fields(t, st2, this2), a, st, st2),
    decreases s.len() - st.pos, 2int,
{
    lemma_json_fields_positions(s, st.pos);
    let p = skip_ws_from(s, st.pos);
    let q = string_close(s, p + 1)->0;
    let name = decode_escapes(s.subrange(p + 1, q), 0)->Ok_0;
    let c = skip_ws_from(s, q + 1);
    let index = st.paths.len() as int;
    let opened = st.styled(p, q + 1, StyleKind::Key).at(q + 1).with_name(name).opened(
        p,
        this,
        PathSegment::Key(intern_id(st.names, name) as u32),
    ).at(c);
    let inside = opened.at(c + 1);
    lemma_value_forward(s, inside, index as u32);
    let v = json_value(s, inside, index as u32);
    let closed = v.st.closed_at(index, v.st.pos);
    lemma_after_field_forward(s, closed, this);
    // The same in the part.
    lemma_part_ws(s, t, a, b, st.pos);
    assert(t[p - a] == s[p]);
    lemma_part_string(s, t, a, b, p + 1);
    assert(t.subrange(p + 1 - a, q - a) =~= s.subrange(p + 1, q));
    lemma_part_ws(s, t, a, b, q + 1);
    assert(t[c - a] == s[c]);
    let index2 = st2.paths.len() as int;
    let opened2 = st2.styled(p - a, q - a + 1, StyleKind::Key).at(q - a + 1).with_name(name).opened(
        p - a,
        this2,
        PathSegment::Key(intern_id(st2.names, name) as u32),
    ).at(c - a);
    let inside2 = opened2.at(c - a + 1);
    lemma_part_value(s, t, a, b, inside, inside2, index as u32, index2 as u32);
    let v2 = json_value(t, inside2, index2 as u32);
    let closed2 = v2.st.closed_at(index2, v2.st.pos);
    lemma_part_after_field(s, t, a, b, closed, closed2, this, this2);
}

proof fn lemma_part_after_field(
    s: Seq<u8>,
    t: Seq<u8>,
    a: int,
    b: int,
    st: ScanState,
    st2: ScanState,
    this: u32,
    this2: u32,
)
    requires
        part_of(t, s, a, b),
        a <= st.pos <= s.len(),
        st2.pos == st.pos - a,
        json_after_field(s, st, this).err is None,
        json_after_field(s, st, this).st.pos <= b,
    ensures
        same_stop(json_after_field(s, st, this), json_after_field(t, st2, this2), a, st, st2),
    decreases s.len() - st.pos, 0int,
{
    lemma_skip_ws_bounds(s, st.pos);
    let p = skip_ws_from(s, st.pos);
    if s[p] == COMMA {
        lemma_fields_forward(s, st.at(p + 1), this);
    }
    lemma_part_ws(s, t, a, b, st.pos);
    assert(t[p - a] == s[p]);
    if s[p] == COMMA {
        lemma_part_fields(s, t, a, b, st.at(p + 1), st2.at(p - a + 1), this, this2);
    }
}

proof fn lemma_part_array(
    s: Seq<u8>,
    t: Seq<u8>,
    a: int,
    b: int,
    st: ScanState,
    st2: ScanState,
    this: u32,
    this2: u32,
)
    requires
        part_of(t, s, a, b),
        a <= st.pos < s.len(),
        st2.pos == st.pos - a,
        json_array(s, st, this).err is None,
        json_array(s, st, this).st.pos <= b,
    ensures
        same_stop(json_array(s, st, this), json_array(t, st2, this2), a, st, st2),
    decreases s.len() - st.pos, 0int,
{
    lemma_skip_ws_bounds(s, st.pos + 1);
    let p = skip_ws_from(s, st.pos + 1);
    if byte_at(s, p) == Some(RBRACKET) {
        lemma_part_ws(s, t, a, b, st.pos + 1);
        assert(t[p - a] == s[p]);
    } else {
        lemma_elements_forward(s, st.at(p), this, 0);
        lemma_part_ws(s, t, a, b, st.pos + 1);
        if p < b {
            assert(t[p - a] == s[p]);
        }
        lemma_part_elements(s, t, a, b, st.at(p), st2.at(p - a), this, this2, 0);
    }
}

proof fn lemma_part_elements(
    s: Seq<u8>,
    t: Seq<u8>,
    a: int,
    b: int,
    st: ScanState,
    st2: ScanState,
    this: u32,
    this2: u32,
    index: int,
)
    requires
        part_of(t, s, a, b),
        a <= st.pos <= s.len(),
        st2.pos == st.pos - a,
        json_elements(s, st, this, index).err is None,
        json_elements(s, st, this, index).st.pos <= b,
    ensures
        same_stop(json_elements(s, st, this, index), json_elements(t, st2, this2, index), a, st, st2),
    decreases s.len() - st.pos, 2int,
{
    lemma_skip_ws_bounds(s, st.pos);
    let p = skip_ws_from(s, st.pos);
    let entry = st.paths.len() as int;
    let opened = st.at(p).opened(p, this, PathSegment::Index(index as u32));
    lemma_value_forward(s, opened, entry as u32);
    let v = json_value(s, opened, entry as u32);
    let closed = v.st.closed_at(entry, v.st.pos);
    lemma_after_element_forward(s, closed, this, index);
    lemma_part_ws(s, t, a, b, st.pos);
    let entry2 = st2.paths.len() as int;
    let opened2 = st2.at(p - a).opened(p - a, this2, PathSegment::Index(index as u32));
    lemma_part_value(s, t, a, b, opened, opened2, entry as u32, entry2 as u32);
    let v2 = json_value(t, opened2, entry2 as u32);
    let closed2 = v2.st.closed_at(entry2, v2.st.pos);
    lemma_part_after_element(s, t, a, b, closed, closed2, this, this2, index);
}

proof fn lemma_part_after_element(
    s: Seq<u8>,
    t: Seq<u8>,
    a: int,
    b: int,
    st: ScanState,
    st2: ScanState,
    this: u32,
    this2: u32,
    index: int,
)
    requires
        part_of(t, s, a, b),
        a <= st.pos <= s.len(),
        st2.pos == st.pos - a,
        json_after_element(s, st, this, index).err is None,
        json_after_element(s, st, this, index).st.pos <= b,
    ensures
        same_stop(json_after_element(s, st, this, index), json_after_element(t, st2, this2, index), a, st, st2),
    decreases s.len() - st.pos, 0int,
{
    lemma_skip_ws_bounds(s, st.pos);
    let p = skip_ws_from(s, st.pos);
    if s[p] == COMMA {
        lemma_elements_forward(s, st.at(p + 1), this, index + 1);
    }
    lemma_part_ws(s, t, a, b, st.pos);
    assert(t[p - a] == s[p]);
    if s[p] == COMMA {
        lemma_part_elements(s, t, a, b, st.at(p + 1), st2.at(p - a + 1), this, this2, index + 1);
    }
}

// --- what an entry covers -------------------------------------------

/// A value that starts at `from`, after optional whitespace, ends at
/// `end`.
pub open spec fn value_spans(s: Seq<u8>, from: int, end: int) -> bool {
    let v = json_value(s, ScanState::empty().at(from), 0);
    v.err is None && v.st.pos == end
}

/// Number of entries inside the value that starts at `from`.
pub open spec fn value_entries(s: Seq<u8>, from: int) -> nat {
    json_value(s, ScanState::empty().at(from), 0).st.paths.len()
}

/// Where the value of an entry starts: behind the colon of a field, else
/// where the entry does.
pub open spec fn value_from(s: Seq<u8>, e: PathEntry) -> int {
    if e.segment is Key {
        colon_of(s, e.start as int) + 1
    } else {
        e.start as int
    }
}

/// A key at `start` whose text decodes to `name`.
pub open spec fn key_spans(s: Seq<u8>, start: int, name: Seq<u8>) -> bool {
    &&& byte_at(s, start) == Some(QUOTE)
    &&& string_close(s, start + 1) is Some
    &&& decode_escapes(s.subrange(start + 1, string_close(s, start + 1)->0), 0) == Ok::<Seq<u8>, int>(name)
}

/// Position of the colon after the key at `start`.
pub open spec fn colon_of(s: Seq<u8>, start: int) -> int {
    skip_ws_from(s, string_close(s, start + 1)->0 + 1)
}

/// The entry lies where the grammar has a key or a value: the root over
/// the whole input, a field from its key to the end of its value, an
/// element from the start of its value to its end. An end of zero stands for a value that is not
/// complete.
pub open spec fn backed(s: Seq<u8>, names: Seq<Seq<u8>>, e: PathEntry) -> bool {
    match e.segment {
        PathSegment::Root => {
            &&& e.start == 0
            &&& e.end > 0 ==> e.end == s.len() && json_value(s, ScanState::empty(), 0).err is None
        },
        PathSegment::Key(id) => {
            &&& id < names.len()
            &&& key_spans(s, e.start as int, names[id as int])
            &&& e.end > 0 ==> byte_at(s, colon_of(s, e.start as int)) == Some(COLON) && value_spans(
                s,
                colon_of(s, e.start as int) + 1,
                e.end as int,
            )
        },
        PathSegment::Index(_) => {
            &&& skip_ws_from(s, e.start as int) == e.start
            &&& e.end > 0 ==> value_spans(s, e.start as int, e.end as int)
        },
        _ => false,
    }
}

/// Every entry lies where the grammar has its key or value.
#[verifier::opaque]
pub open spec fn all_backed(s: Seq<u8>, paths: Seq<PathEntry>, names: Seq<Seq<u8>>) -> bool {
    forall|i: int| 0 <= i < paths.len() ==> backed(s, names, #[trigger] paths[i])
}

pub proof fn lemma_backed_at(s: Seq<u8>, paths: Seq<PathEntry>, names: Seq<Seq<u8>>, i: int)
    requires
        all_backed(s, paths, names),
        0 <= i < paths.len(),
    ensures
        backed(s, names, paths[i]),
{
    reveal(all_backed);
}

pub proof fn lemma_backed_named(s: Seq<u8>, paths: Seq<PathEntry>, names: Seq<Seq<u8>>, name: Seq<u8>)
    requires
        all_backed(s, paths, names),
    ensures
        all_backed(s, paths, interned(names, name)),
        interned(names, name)[intern_id(names, name)] == name,
{
    reveal(all_backed);
    let after = interned(names, name);
    if names.contains(name) {
        assert(names[names.index_of(name)] == name);
    }
    assert forall|i: int| 0 <= i < paths.len() implies backed(s, after, #[trigger] paths[i]) by {
        assert(backed(s, names, paths[i]));
        if let PathSegment::Key(id) = paths[i].segment {
            assert(after[id as int] == names[id as int]);
        }
    }
}

pub proof fn lemma_backed_pushed(s: Seq<u8>, paths: Seq<PathEntry>, names: Seq<Seq<u8>>, e: PathEntry)
    requires
        all_backed(s, paths, names),
        backed(s, names, e),
    ensures
        all_backed(s, paths.push(e), names),
{
    reveal(all_backed);
    let after = paths.push(e);
    assert forall|i: int| 0 <= i < after.len() implies backed(s, names, #[trigger] after[i]) by {
        if i < paths.len() {
            assert(after[i] == paths[i]);
        }
    }
}

pub proof fn lemma_backed_updated(s: Seq<u8>, paths: Seq<PathEntry>, names: Seq<Seq<u8>>, i: int, e: PathEntry)
    requires
        all_backed(s, paths, names),
        0 <= i < paths.len(),
        backed(s, names, e),
    ensures
        all_backed(s, paths.update(i, e), names),
{
    reveal(all_backed);
    let after = paths.update(i, e);
    assert forall|k: int| 0 <= k < after.len() implies backed(s, names, #[trigger] after[k]) by {
        if k != i {
            assert(after[k] == paths[k]);
        }
    }
}

/// Where a value ends does not depend on what was parsed before it.
pub proof fn lemma_value_spans(s: Seq<u8>, st: ScanState, this: u32)
    requires
        0 <= st.pos <= s.len(),
        json_value(s, st, this).err is None,
    ensures
        value_spans(s, st.pos, json_value(s, st, this).st.pos),
        json_value(s, st, this).st.paths.len() == st.paths.len() + value_entries(s, st.pos),
{
    lemma_value_forward(s, st, this);
    assert(s.subrange(0, s.len() as int) =~= s);
    lemma_part_value(s, s, 0, s.len() as int, st, ScanState::empty().at(st.pos), this, 0);
}

/// Whitespace before a value is no part of it.
proof fn lemma_spans_trimmed(s: Seq<u8>, from: int, end: int)
    requires
        0 <= from <= s.len(),
        value_spans(s, from, end),
    ensures
        value_spans(s, skip_ws_from(s, from), end),
        value_entries(s, skip_ws_from(s, from)) == value_entries(s, from),
        from <= skip_ws_from(s, from) < end <= s.len(),
        !is_ws(s[skip_ws_from(s, from)]),
{
    let st = ScanState::empty().at(from);
    lemma_value_forward(s, st, 0);
    lemma_skip_ws_bounds(s, from);
    let p = skip_ws_from(s, from);
    assert(skip_ws_from(s, p) == p);
    assert(st.at(p) == ScanState::empty().at(p).at(p));
}

/// The text of a value is a value by itself.
proof fn lemma_standalone(s: Seq<u8>, from: int, end: int, hi: int)
    requires
        0 <= from < end <= hi <= s.len(),
        value_spans(s, from, end),
    ensures
        value_spans(s.subrange(from, hi), 0, end - from),
        json_document(s.subrange(from, hi)).err is None,
        json_document(s.subrange(from, hi)).st.paths.len() == 1 + value_entries(s, from),
{
    let t = s.subrange(from, hi);
    let st = ScanState::empty().at(from);
    lemma_part_value(s, t, from, hi, st, ScanState::empty().at(0), 0, 0);
    let rooted = ScanState::empty().opened(0, ROOT_PARENT, PathSegment::Root);
    lemma_part_value(s, t, from, hi, st, rooted, 0, 0);
}

proof fn lemma_hex4(s: Seq<u8>, i: int)
    requires
        hex4_at(s, i) is Some,
    ensures
        0 <= i && i + 4 <= s.len(),
        hex_value(s[i]) is Some,
        hex_value(s[i + 1]) is Some,
        hex_value(s[i + 2]) is Some,
        hex_value(s[i + 3]) is Some,
{
    let d4 = s.subrange(i, i + 4);
    let d3 = d4.drop_last();
    let d2 = d3.drop_last();
    let d1 = d2.drop_last();
    assert(hex_number(d4) is Some);
    assert(hex_number(d3) is Some);
    assert(hex_number(d2) is Some);
    assert(hex_number(d1) is Some);
    assert(d4.last() == s[i + 3]);
    assert(d3.last() == s[i + 2]);
    assert(d2.last() == s[i + 1]);
    assert(d1.last() == s[i]);
}

/// In a string whose escapes are well formed, skipping each backslash
/// with the byte behind it finds the closing quote.
pub proof fn lemma_stop_at_close(t: Seq<u8>, i: int, q: int)
    requires
        1 <= i,
        string_close(t, i) == Some(q),
        decode_escapes(t.subrange(1, q), i - 1) is Ok,
    ensures
        string_stop(t, i) == q + 1,
    decreases q - i,
{
    lemma_string_close(t, i);
    let body = t.subrange(1, q);
    if t[i] != QUOTE {
        if t[i] == BACKSLASH {
            let unicode = i + 1 < t.len() && t[i + 1] == LOWER_U;
            lemma_string_close(t, if unicode { i + 6 } else { i + 2 });
            assert(body[i - 1] == t[i]);
            assert(body[i] == t[i + 1]);
            assert(decode_item(body, i - 1) is Ok);
            if unicode {
                lemma_hex4(body, i + 1);
                assert(body[i + 1] == t[i + 2] && body[i + 2] == t[i + 3] && body[i + 3] == t[i + 4] && body[i + 4]
                    == t[i + 5]);
                if decode_item(body, i - 1)->Ok_0.1 == 12 {
                    assert(decode_item(body, i + 5) is Ok);
                    assert(decode_item(body, i + 5)->Ok_0.1 == 6);
                    assert(decode_escapes(body, i + 11) is Ok);
                }
                assert(decode_escapes(body, i + 5) is Ok);
                lemma_stop_at_close(t, i + 6, q);
                assert(string_stop(t, i + 5) == string_stop(t, i + 6));
                assert(string_stop(t, i + 4) == string_stop(t, i + 5));
                assert(string_stop(t, i + 3) == string_stop(t, i + 4));
                assert(string_stop(t, i + 2) == string_stop(t, i + 3));
            } else {
                lemma_stop_at_close(t, i + 2, q);
            }
        } else {
            lemma_string_close(t, i + 1);
            assert(body[i - 1] == t[i]);
            lemma_stop_at_close(t, i + 1, q);
        }
    }
}

/// The key between the quotes at `p` and `q` ends where skipping escapes
/// ends it.
pub proof fn lemma_key_stop(s: Seq<u8>, p: int, q: int)
    requires
        0 <= p,
        string_close(s, p + 1) == Some(q),
        decode_escapes(s.subrange(p + 1, q), 0) is Ok,
    ensures
        string_stop(s, p + 1) == q + 1,
{
    lemma_string_close(s, p + 1);
    let t = s.skip(p);
    assert(t == s.subrange(p, s.len() as int));
    lemma_part_string(s, t, p, s.len() as int, p + 1);
    assert(t.subrange(1, q - p) =~= s.subrange(p + 1, q));
    lemma_stop_at_close(t, 1, q - p);
    lemma_string_stop_part(s, p, p + 1);
}

/// String scanning looks only at what follows.
proof fn lemma_string_stop_part(s: Seq<u8>, from: int, i: int)
    requires
        0 <= from <= i,
    ensures
        i <= s.len() ==> string_stop(s.skip(from), i - from) == string_stop(s, i) - from,
    decreases (if i < s.len() { s.len() - i } else { 0 }),
{
    if i < s.len() {
        assert(s.skip(from)[i - from] == s[i]);
        if s[i] == BACKSLASH && i + 1 < s.len() {
            lemma_string_stop_part(s, from, i + 2);
        } else if s[i] != QUOTE {
            lemma_string_stop_part(s, from, i + 1);
        }
    }
}

proof fn lemma_digits_last(s: Seq<u8>, i: int)
    requires
        0 <= i <= s.len(),
    ensures
        skip_digits_from(s, i) > i ==> is_digit(s[skip_digits_from(s, i) - 1]),
    decreases s.len() - i,
{
    if i < s.len() && is_digit(s[i]) {
        lemma_digits_last(s, i + 1);
    }
}

/// A value does not end in whitespace.
proof fn lemma_value_last(s: Seq<u8>, st: ScanState, this: u32)
    requires
        0 <= st.pos <= s.len(),
        json_value(s, st, this).err is None,
    ensures
        !is_ascii_space(s[json_value(s, st, this).st.pos - 1]),
{
    lemma_value_forward(s, st, this);
    lemma_skip_ws_bounds(s, st.pos);
    let p = skip_ws_from(s, st.pos);
    let st1 = st.at(p);
    if s[p] == LBRACE {
        lemma_skip_ws_bounds(s, p + 1);
        let k = skip_ws_from(s, p + 1);
        if byte_at(s, k) != Some(RBRACE) {
            lemma_fields_last(s, st1.at(k), this);
        }
    } else if s[p] == LBRACKET {
        lemma_skip_ws_bounds(s, p + 1);
        let k = skip_ws_from(s, p + 1);
        if byte_at(s, k) != Some(RBRACKET) {
            lemma_elements_last(s, st1.at(k), this, 0);
        }
    } else if s[p] == QUOTE {
        lemma_string_close(s, p + 1);
    } else if s[p] == LOWER_T {
        lemma_literal_last(s, p, word_true(), 0);
    } else if s[p] == LOWER_F {
        lemma_literal_last(s, p, word_false(), 0);
    } else if s[p] == LOWER_N {
        lemma_literal_last(s, p, word_null(), 0);
    } else {
        lemma_number_phases(s, p);
        let first = number_sign_end(s, p);
        let whole = skip_digits_from(s, first);
        let frac = number_fraction_end(s, whole);
        lemma_digits_last(s, first);
        if whole < s.len() {
            lemma_digits_last(s, whole + 1);
        }
        if frac < s.len() {
            lemma_digits_last(s, frac + 1);
            lemma_skip_digits_bounds(s, frac + 1);
            if frac + 1 < s.len() {
                lemma_digits_last(s, frac + 2);
                lemma_skip_digits_bounds(s, frac + 2);
            }
        }
    }
}

proof fn lemma_literal_last(s: Seq<u8>, i: int, word: Seq<u8>, k: int)
    requires
        0 <= i,
        0 <= k <= word.len(),
        literal_match(s, i, word, k) == word.len(),
    ensures
        forall|j: int| k <= j < word.len() ==> #[trigger] word[j] == s[i + j],
    decreases word.len() - k,
{
    if k < word.len() && byte_at(s, i + k) == Some(word[k]) {
        lemma_literal_last(s, i, word, k + 1);
    }
}

proof fn lemma_fields_last(s: Seq<u8>, st: ScanState, this: u32)
    requires
        0 <= st.pos <= s.len(),
        json_fields(s, st, this).err is None,
    ensures
        ({
            let end = json_fields(s, st, this).st.pos;
            0 < end <= s.len() && s[end - 1] == RBRACE
        }),
    decreases s.len() - st.pos,
{
    lemma_json_fields_positions(s, st.pos);
    let p = skip_ws_from(s, st.pos);
    let q = string_close(s, p + 1)->0;
    let name = decode_escapes(s.subrange(p + 1, q), 0)->Ok_0;
    let c = skip_ws_from(s, q + 1);
    let index = st.paths.len() as int;
    let inside = st.styled(p, q + 1, StyleKind::Key).at(q + 1).with_name(name).opened(
        p,
        this,
        PathSegment::Key(intern_id(st.names, name) as u32),
    ).at(c).at(c + 1);
    lemma_value_forward(s, inside, index as u32);
    let v = json_value(s, inside, index as u32);
    let closed = v.st.closed_at(index, v.st.pos);
    lemma_skip_ws_bounds(s, closed.pos);
    let n = skip_ws_from(s, closed.pos);
    if s[n] == COMMA {
        lemma_fields_last(s, closed.at(n + 1), this);
    }
}

proof fn lemma_elements_last(s: Seq<u8>, st: ScanState, this: u32, index: int)
    requires
        0 <= st.pos <= s.len(),
        json_elements(s, st, this, index).err is None,
    ensures
        ({
            let end = json_elements(s, st, this, index).st.pos;
            0 < end <= s.len() && s[end - 1] == RBRACKET
        }),
    decreases s.len() - st.pos,
{
    lemma_skip_ws_bounds(s, st.pos);
    let p = skip_ws_from(s, st.pos);
    let entry = st.paths.len() as int;
    let opened = st.at(p).opened(p, this, PathSegment::Index(index as u32));
    lemma_value_forward(s, opened, entry as u32);
    let v = json_value(s, opened, entry as u32);
    let closed = v.st.closed_at(entry, v.st.pos);
    lemma_skip_ws_bounds(s, closed.pos);
    let n = skip_ws_from(s, closed.pos);
    if s[n] == COMMA {
        lemma_elements_last(s, closed.at(n + 1), this, index + 1);
    }
}

proof fn lemma_trim_start(s: Seq<u8>, i: int)
    requires
        0 <= i <= s.len(),
        ({
            let p = skip_ws_from(s, i);
            p < s.len() && !is_ascii_space(s[p])
        }),
    ensures
        trim_start_from(s, i) == skip_ws_from(s, i),
    decreases s.len() - i,
{
    if i < s.len() && is_ws(s[i]) {
        lemma_trim_start(s, i + 1);
    }
}

proof fn lemma_trim_end(s: Seq<u8>, lo: int, end: int, hi: int)
    requires
        0 <= lo < end <= hi <= s.len(),
        !is_ascii_space(s[end - 1]),
    ensures
        end <= trim_end_from(s, lo, hi) <= hi,
    decreases hi,
{
    if is_ascii_space(s[hi - 1]) {
        lemma_trim_end(s, lo, end, hi - 1);
    }
}

/// What is copied for an entry with `n` descendants: a JSON value, with
/// no whitespace around it and as many entries inside.
pub open spec fn standalone(v: Seq<u8>, n: nat) -> bool {
    &&& json_document(v).err is None
    &&& json_document(v).st.paths.len() == 1 + n
    &&& v.len() > 0
    &&& !is_ws(v[0])
    &&& !is_ws(v.last())
}

proof fn lemma_root_standalone(s: Seq<u8>, names: Seq<Seq<u8>>, e: PathEntry)
    requires
        backed(s, names, e),
        e.segment is Root,
        e.end > 0,
    ensures
        standalone(json_value_bytes(s, e), value_entries(s, 0)),
{
    let st = ScanState::empty();
    let v = json_value(s, st, 0);
    assert(st.at(0) == st);
    lemma_value_forward(s, st, 0);
    lemma_spans_trimmed(s, 0, v.st.pos);
    lemma_value_last(s, st, 0);
    let p = skip_ws_from(s, 0);
    lemma_trim_start(s, 0);
    lemma_trim_end(s, p, v.st.pos, s.len() as int);
    lemma_standalone(s, p, v.st.pos, trim_end_from(s, p, s.len() as int));
    lemma_trimmed_last(s, p, s.len() as int);
    assert(entry_text(s, e) =~= s);
}

proof fn lemma_trimmed_last(s: Seq<u8>, lo: int, hi: int)
    requires
        0 <= lo <= hi <= s.len(),
    ensures
        lo < trim_end_from(s, lo, hi) ==> !is_ascii_space(s[trim_end_from(s, lo, hi) - 1]),
    decreases hi,
{
    if lo < hi && is_ascii_space(s[hi - 1]) {
        lemma_trimmed_last(s, lo, hi - 1);
    }
}

proof fn lemma_field_standalone(s: Seq<u8>, names: Seq<Seq<u8>>, e: PathEntry)
    requires
        backed(s, names, e),
        e.segment is Key,
        e.end > 0,
    ensures
        ({
            let v = json_value_bytes(s, e);
            standalone(v, value_entries(s, value_from(s, e))) && value_spans(v, 0, v.len() as int)
        }),
{
    let start = e.start as int;
    let end = e.end as int;
    let q = string_close(s, start + 1)->0;
    let c = colon_of(s, start);
    lemma_string_close(s, start + 1);
    lemma_skip_ws_bounds(s, q + 1);
    lemma_spans_trimmed(s, c + 1, end);
    let from = skip_ws_from(s, c + 1);
    lemma_standalone(s, from, end, end);
    lemma_value_last(s, ScanState::empty().at(from), 0);
    let text = s.subrange(start, end);
    assert(entry_text(s, e) == text);
    assert(field_value_start(text) == from - start) by {
        assert(text[0] == s[start]);
        assert(skip_ws_from(text, 0) == 0);
        lemma_part_string(s, text, start, end, start + 1);
        assert(text.subrange(1, q - start) =~= s.subrange(start + 1, q));
        lemma_stop_at_close(text, 1, q - start);
        lemma_part_ws(s, text, start, end, q + 1);
        assert(text[c - start] == s[c]);
        lemma_part_ws(s, text, start, end, c + 1);
    }
    assert(text.subrange(from - start, text.len() as int) =~= s.subrange(from, end));
}

proof fn lemma_element_standalone(s: Seq<u8>, names: Seq<Seq<u8>>, e: PathEntry)
    requires
        backed(s, names, e),
        e.segment is Index,
        e.start <= s.len(),
        e.end > 0,
    ensures
        ({
            let v = json_value_bytes(s, e);
            standalone(v, value_entries(s, value_from(s, e))) && value_spans(v, 0, v.len() as int)
        }),
{
    lemma_value_forward(s, ScanState::empty().at(e.start as int), 0);
    lemma_spans_trimmed(s, e.start as int, e.end as int);
    lemma_value_last(s, ScanState::empty().at(e.start as int), 0);
    lemma_standalone(s, e.start as int, e.end as int, e.end as int);
}

/// What is copied for a complete entry is a part of the entry's text and
/// a JSON value of its own: it parses, no whitespace surrounds it, and it
/// has an entry for itself and for each descendant. For a field or an
/// element the whole of it is one value; what is copied for the root of a
/// document that parses may hold trailing garbage.
pub proof fn law_json_value_standalone(s: Seq<u8>, i: int)
    requires
        s.len() < u32::MAX,
        0 <= i < json_document(s).st.paths.len(),
        json_document(s).st.paths[i].end > 0,
    ensures
        ({
            let paths = json_document(s).st.paths;
            let e = paths[i];
            let v = json_value_bytes(s, e);
            &&& standalone(v, descendants(paths, i, paths.len() as int))
            &&& !(e.segment is Root) ==> value_spans(v, 0, v.len() as int)
            &&& exists|a: int, b: int| e.start <= a <= b <= e.end && v == s.subrange(a, b)
        }),
{
    law_json_indexes(s);
    let st = json_document(s).st;
    let e = st.paths[i];
    lemma_backed_at(s, st.paths, st.names, i);
    lemma_value_part(s, st.names, e);
    if e.segment is Root {
        lemma_root_standalone(s, st.names, e);
        lemma_root_sized(s, i);
    } else {
        lemma_sized_at(s, st.paths, i);
        if e.segment is Key {
            lemma_field_standalone(s, st.names, e);
        } else {
            lemma_element_standalone(s, st.names, e);
        }
    }
}

proof fn lemma_root_sized(s: Seq<u8>, i: int)
    requires
        s.len() < u32::MAX,
        0 <= i < json_document(s).st.paths.len(),
        json_document(s).st.paths[i].segment is Root,
        json_document(s).st.paths[i].end > 0,
    ensures
        ({
            let paths = json_document(s).st.paths;
            descendants(paths, i, paths.len() as int) == value_entries(s, 0)
        }),
{
    law_json_indexes(s);
    let st = json_document(s).st;
    let rooted = ScanState::empty().opened(0, ROOT_PARENT, PathSegment::Root);
    lemma_backed_at(s, st.paths, st.names, i);
    lemma_descendants_all(st.paths, 0);
    lemma_root_parses(s);
    lemma_value_spans(s, rooted, 0);
}

/// A value parses at the start whatever was parsed before it.
proof fn lemma_root_parses(s: Seq<u8>)
    requires
        json_value(s, ScanState::empty(), 0).err is None,
    ensures
        json_value(s, ScanState::empty().opened(0, ROOT_PARENT, PathSegment::Root), 0).err is None,
{
    let empty = ScanState::empty();
    let rooted = empty.opened(0, ROOT_PARENT, PathSegment::Root);
    lemma_value_forward(s, empty, 0);
    assert(s.subrange(0, s.len() as int) =~= s);
    lemma_part_value(s, s, 0, s.len() as int, empty, rooted, 0, 0);
}

proof fn lemma_value_part(s: Seq<u8>, names: Seq<Seq<u8>>, e: PathEntry)
    requires
        backed(s, names, e),
        e.end > 0,
        e.start <= s.len(),
    ensures
        exists|a: int, b: int| e.start <= a <= b <= e.end && json_value_bytes(s, e) == s.subrange(a, b),
{
    let v = json_value_bytes(s, e);
    if e.segment is Root {
        let lo = trim_start_from(s, 0);
        assert(entry_text(s, e) =~= s);
        lemma_trim_bounds(s);
        assert(v == s.subrange(lo, trim_end_from(s, lo, s.len() as int)));
    } else if e.segment is Key {
        lemma_field_part(s, names, e);
        let k = field_value_start(entry_text(s, e));
        assert(v =~= s.subrange(e.start + k, e.end as int));
    } else {
        lemma_value_forward(s, ScanState::empty().at(e.start as int), 0);
        assert(v == s.subrange(e.start as int, e.end as int));
    }
}

proof fn lemma_trim_bounds(s: Seq<u8>)
    ensures
        ({
            let lo = trim_start_from(s, 0);
            0 <= lo <= trim_end_from(s, lo, s.len() as int) <= s.len()
        }),
{
    lemma_trim_start_bounds(s, 0);
    lemma_trim_end_bounds(s, trim_start_from(s, 0), s.len() as int);
}

proof fn lemma_trim_start_bounds(s: Seq<u8>, i: int)
    requires
        0 <= i <= s.len(),
    ensures
        i <= trim_start_from(s, i) <= s.len(),
    decreases s.len() - i,
{
    if i < s.len() && is_ascii_space(s[i]) {
        lemma_trim_start_bounds(s, i + 1);
    }
}

proof fn lemma_trim_end_bounds(s: Seq<u8>, lo: int, hi: int)
    requires
        0 <= lo <= hi <= s.len(),
    ensures
        lo <= trim_end_from(s, lo, hi) <= hi,
    decreases hi,
{
    if lo < hi && is_ascii_space(s[hi - 1]) {
        lemma_trim_end_bounds(s, lo, hi - 1);
    }
}

proof fn lemma_field_part(s: Seq<u8>, names: Seq<Seq<u8>>, e: PathEntry)
    requires
        backed(s, names, e),
        e.segment is Key,
        e.end > 0,
    ensures
        e.start < e.end <= s.len(),
        entry_text(s, e) == s.subrange(e.start as int, e.end as int),
        0 <= field_value_start(entry_text(s, e)) <= e.end - e.start,
{
    let start = e.start as int;
    let q = string_close(s, start + 1)->0;
    lemma_string_close(s, start + 1);
    lemma_skip_ws_bounds(s, q + 1);
    lemma_spans_trimmed(s, colon_of(s, start) + 1, e.end as int);
    let text = entry_text(s, e);
    lemma_skip_ws_bounds(text, 0);
    let k = skip_ws_from(text, 0);
    if byte_at(text, k) == Some(QUOTE) {
        lemma_string_stop(text, k + 1);
        let c = skip_ws_from(text, string_stop(text, k + 1));
        lemma_skip_ws_bounds(text, string_stop(text, k + 1));
        if byte_at(text, c) == Some(COLON) {
            lemma_skip_ws_bounds(text, c + 1);
        }
    }
}

/// In a document that parses every entry is complete, so each of them
/// can be copied.
pub proof fn law_json_entries_complete(s: Seq<u8>, i: int)
    requires
        s.len() < u32::MAX,
        json_document(s).err is None,
        0 <= i < json_document(s).st.paths.len(),
    ensures
        json_document(s).st.paths[i].start <= json_document(s).st.paths[i].end <= s.len(),
        0 < json_document(s).st.paths[i].end,
{
    law_json_indexes(s);
    let st = json_document(s).st;
    let e = st.paths[i];
    lemma_backed_at(s, st.paths, st.names, i);
    let rooted = ScanState::empty().opened(0, ROOT_PARENT, PathSegment::Root);
    lemma_value_forward(s, rooted, 0);
    if e.segment is Key {
        lemma_string_close(s, e.start + 1);
        lemma_skip_ws_bounds(s, string_close(s, e.start + 1)->0 + 1);
        lemma_spans_trimmed(s, colon_of(s, e.start as int) + 1, e.end as int);
    } else if e.segment is Index {
        lemma_spans_trimmed(s, e.start as int, e.end as int);
    }
}

/// A field's entry starts at the opening quote of its key, and its name
/// is the decoded text of the key.
pub proof fn law_json_key_name(s: Seq<u8>, i: int)
    requires
        s.len() < u32::MAX,
        0 <= i < json_document(s).st.paths.len(),
        json_document(s).st.paths[i].segment is Key,
    ensures
        ({
            let st = json_document(s).st;
            let e = st.paths[i];
            e.segment->Key_0 < st.names.len() && key_spans(s, e.start as int, st.names[e.segment->Key_0 as int])
        }),
{
    law_json_indexes(s);
    lemma_backed_at(s, json_document(s).st.paths, json_document(s).st.names, i);
}

} // verus!
