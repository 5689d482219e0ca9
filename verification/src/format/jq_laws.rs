//! Law of jq expressions: a reader of jq paths gets the path back.

use vstd::prelude::*;
use vstd::utf8::{decode_utf8, valid_utf8};

use crate::format::json::{
    is_ident, is_ident_char, is_ident_start, jq_char, jq_chars, jq_key, jq_path, jq_segment, jq_segments,
};
use crate::format::PathSegment;
use crate::text::{decimal, hex_digits};
use crate::text_laws::{
    is_decimal_digit, law_decimal_reads_back, law_hex_reads_back, number_in, pow16,
};

verus! {

// --- a reader of jq paths -------------------------------------------

/// A step of a jq path.
pub enum JqStep {
    Field(Seq<char>),
    Element(int),
}

/// Whether `c` may stand in an unquoted field name, `first` or later.
pub open spec fn in_jq_name(c: char, first: bool) -> bool {
    let n = c as u32;
    0x61 <= n <= 0x7a || 0x41 <= n <= 0x5a || n == 0x5f || (!first && 0x30 <= n <= 0x39)
}

/// Number of leading characters of `t` that make up an unquoted name.
pub open spec fn jq_name_len(t: Seq<char>, n: int) -> int
    decreases t.len() - n,
{
    if 0 <= n < t.len() && in_jq_name(t[n], n == 0) {
        jq_name_len(t, n + 1)
    } else {
        n
    }
}

/// Number of leading decimal digits of `t`.
pub open spec fn digits_len(t: Seq<char>, n: int) -> int
    decreases t.len() - n,
{
    if 0 <= n < t.len() && is_decimal_digit(t[n]) {
        digits_len(t, n + 1)
    } else {
        n
    }
}

/// Reads the rest of a string up to its closing quote: the characters it
/// stands for, and what follows the quote.
pub open spec fn read_jq_string(t: Seq<char>) -> Option<(Seq<char>, Seq<char>)>
    decreases t.len(),
{
    if t.len() == 0 {
        None
    } else if t[0] as u32 == 0x22 {
        Some((Seq::empty(), t.skip(1)))
    } else if t[0] as u32 == 0x5c {
        if t.len() >= 6 && t[1] as u32 == 0x75 {
            match read_jq_string(t.skip(6)) {
                Some((more, rest)) => Some((seq![number_in(t.subrange(2, 6), 16) as u8 as char] + more, rest)),
                None => None,
            }
        } else if t.len() >= 2 {
            match read_jq_string(t.skip(2)) {
                Some((more, rest)) => Some((seq![t[1]] + more, rest)),
                None => None,
            }
        } else {
            None
        }
    } else {
        match read_jq_string(t.skip(1)) {
            Some((more, rest)) => Some((seq![t[0]] + more, rest)),
            None => None,
        }
    }
}

/// Reads one step: `.name`, `["name"]` or `[number]`, the brackets with
/// or without a dot in front; also what follows it.
pub open spec fn read_jq_step(t: Seq<char>) -> Option<(JqStep, Seq<char>)> {
    let dotted = t.len() > 0 && t[0] as u32 == 0x2e;
    let u = if dotted {
        t.skip(1)
    } else {
        t
    };
    if u.len() > 0 && u[0] as u32 == 0x5b {
        let v = u.skip(1);
        if v.len() > 0 && v[0] as u32 == 0x22 {
            match read_jq_string(v.skip(1)) {
                Some((name, rest)) => if rest.len() > 0 && rest[0] as u32 == 0x5d {
                    Some((JqStep::Field(name), rest.skip(1)))
                } else {
                    None
                },
                None => None,
            }
        } else {
            let n = digits_len(v, 0);
            if n > 0 && n < v.len() && v[n] as u32 == 0x5d {
                Some((JqStep::Element(number_in(v.take(n), 10)), v.skip(n + 1)))
            } else {
                None
            }
        }
    } else if dotted && jq_name_len(u, 0) > 0 {
        let n = jq_name_len(u, 0);
        Some((JqStep::Field(u.take(n)), u.skip(n)))
    } else {
        None
    }
}

/// Reads steps up to the end of the text.
pub open spec fn read_jq_steps(t: Seq<char>) -> Option<Seq<JqStep>>
    decreases t.len(),
{
    if t.len() == 0 {
        Some(Seq::empty())
    } else {
        match read_jq_step(t) {
            Some((step, rest)) => if rest.len() < t.len() {
                match read_jq_steps(rest) {
                    Some(more) => Some(seq![step] + more),
                    None => None,
                }
            } else {
                None
            },
            None => None,
        }
    }
}

/// Reads a jq path; a dot alone is the path without steps.
pub open spec fn read_jq(t: Seq<char>) -> Option<Seq<JqStep>> {
    if t.len() == 1 && t[0] as u32 == 0x2e {
        Some(Seq::empty())
    } else {
        read_jq_steps(t)
    }
}

/// The steps of a path, keys as text; one replacement character stands
/// for a key that is not UTF-8.
pub open spec fn jq_steps_of(segments: Seq<PathSegment>, names: Seq<Seq<u8>>) -> Seq<JqStep> {
    Seq::new(
        segments.len(),
        |i: int|
            match segments[i] {
                PathSegment::Key(id) => JqStep::Field(
                    if valid_utf8(names[id as int]) {
                        decode_utf8(names[id as int])
                    } else {
                        seq!['\u{fffd}']
                    },
                ),
                PathSegment::Index(k) => JqStep::Element(k as int),
                _ => JqStep::Element(-1),
            },
    )
}

// --- reading what is written ----------------------------------------

/// Nothing follows, or another step.
spec fn at_step(rest: Seq<char>) -> bool {
    rest.len() > 0 ==> rest[0] as u32 == 0x2e || rest[0] as u32 == 0x5b
}

proof fn lemma_name_len(t: Seq<char>, rest: Seq<char>, n: int)
    requires
        0 <= n <= t.len(),
        forall|i: int| 0 <= i < t.len() ==> in_jq_name(#[trigger] t[i], i == 0),
        at_step(rest),
    ensures
        jq_name_len(t + rest, n) == t.len(),
    decreases t.len() - n,
{
    let u = t + rest;
    if n < t.len() {
        assert(u[n] == t[n]);
        lemma_name_len(t, rest, n + 1);
    } else if rest.len() > 0 {
        assert(u[n] == rest[0]);
    }
}

proof fn lemma_digits_len(t: Seq<char>, rest: Seq<char>, n: int)
    requires
        0 <= n <= t.len(),
        forall|i: int| 0 <= i < t.len() ==> is_decimal_digit(#[trigger] t[i]),
        rest.len() > 0 ==> !is_decimal_digit(rest[0]),
    ensures
        digits_len(t + rest, n) == t.len(),
    decreases t.len() - n,
{
    let u = t + rest;
    if n < t.len() {
        assert(u[n] == t[n]);
        lemma_digits_len(t, rest, n + 1);
    } else if rest.len() > 0 {
        assert(u[n] == rest[0]);
    }
}

proof fn lemma_jq_chars_front(t: Seq<char>)
    requires
        t.len() > 0,
    ensures
        jq_chars(t) == jq_char(t[0]) + jq_chars(t.skip(1)),
    decreases t.len(),
{
    if t.len() == 1 {
        assert(t.drop_last() =~= Seq::empty());
        assert(t.skip(1) =~= Seq::empty());
        assert(Seq::<char>::empty() + jq_char(t[0]) =~= jq_char(t[0]) + Seq::<char>::empty());
    } else {
        lemma_jq_chars_front(t.drop_last());
        assert(t.drop_last().skip(1) =~= t.skip(1).drop_last());
        let mid = jq_chars(t.skip(1).drop_last());
        assert((jq_char(t[0]) + mid) + jq_char(t.last()) =~= jq_char(t[0]) + (mid + jq_char(t.last())));
    }
}

/// A quoted character is read back.
proof fn lemma_quoted_char(c: char, rest: Seq<char>)
    ensures
        read_jq_string(jq_char(c) + rest) == match read_jq_string(rest) {
            Some((more, behind)) => Some((seq![c] + more, behind)),
            None => None,
        },
        jq_char(c).len() > 0,
{
    let t = jq_char(c) + rest;
    let n = c as u32;
    if n == 0x22 || n == 0x5c {
        assert(c == '"' || c == '\\');
        assert(t[0] == '\\');
        assert(t[1] == c);
        assert(t.skip(2) =~= rest);
    } else if n < 0x20 {
        let h = hex_digits(n as nat, 4);
        law_hex_reads_back(n as nat, 4);
        assert(pow16(4) == 65536) by {
            reveal_with_fuel(pow16, 5);
        }
        assert(t[0] == '\\');
        assert(t[1] == 'u');
        assert(t.subrange(2, 6) =~= h);
        assert(t.skip(6) =~= rest);
        assert(n as u8 as char == c);
    } else {
        assert(c != '"' && c != '\\');
        assert(t[0] == c);
        assert(t.skip(1) =~= rest);
    }
}

proof fn lemma_quoted_name(t: Seq<char>, rest: Seq<char>)
    ensures
        read_jq_string(jq_chars(t) + (seq!['"'] + rest)) == Some((t, rest)),
    decreases t.len(),
{
    let tail = seq!['"'] + rest;
    if t.len() == 0 {
        let u = jq_chars(t) + tail;
        assert(u =~= tail);
        assert(u[0] == '"');
        assert(u.skip(1) =~= rest);
        assert(t =~= Seq::empty());
    } else {
        lemma_jq_chars_front(t);
        let more = jq_chars(t.skip(1)) + tail;
        assert(jq_chars(t) + tail =~= jq_char(t[0]) + more);
        lemma_quoted_name(t.skip(1), rest);
        lemma_quoted_char(t[0], more);
        assert(seq![t[0]] + t.skip(1) =~= t);
    }
}

proof fn lemma_read_key(name: Seq<char>, rest: Seq<char>)
    requires
        at_step(rest),
    ensures
        read_jq_step(jq_key(name) + rest) == Some((JqStep::Field(name), rest)),
        jq_key(name).len() > 0,
        jq_key(name)[0] == '.',
{
    let t = jq_key(name) + rest;
    assert(t[0] == jq_key(name)[0]);
    if is_ident(name) {
        assert forall|i: int| 0 <= i < name.len() implies in_jq_name(#[trigger] name[i], i == 0) by {}
        assert(t.skip(1) =~= name + rest);
        lemma_name_len(name, rest, 0);
        assert((name + rest).take(name.len() as int) =~= name);
        assert((name + rest).skip(name.len() as int) =~= rest);
        assert((name + rest)[0] == name[0]);
    } else {
        let behind = seq![']'] + rest;
        let quoted = jq_chars(name) + (seq!['"'] + behind);
        assert(t.skip(1)[0] == '[');
        assert(t.skip(1).skip(1)[0] == '"');
        assert(t.skip(1).skip(1).skip(1) =~= quoted);
        lemma_quoted_name(name, behind);
        assert(behind[0] == ']');
        assert(behind.skip(1) =~= rest);
    }
}

proof fn lemma_read_index(k: nat, rest: Seq<char>, dot: bool)
    ensures
        ({
            let t = seq!['['] + decimal(k) + seq![']'];
            read_jq_step(if dot { seq!['.'] + t + rest } else { t + rest }) == Some((JqStep::Element(k as int), rest))
        }),
{
    let x = seq!['['] + decimal(k) + seq![']'];
    let u = x + rest;
    let t = if dot {
        seq!['.'] + x + rest
    } else {
        u
    };
    let behind = seq![']'] + rest;
    law_decimal_reads_back(k);
    if dot {
        assert(t[0] == '.');
        assert(t.skip(1) =~= u);
    } else {
        assert(t[0] == '[');
    }
    assert(u[0] == '[');
    let v = u.skip(1);
    assert(v =~= decimal(k) + behind);
    assert(v[0] == decimal(k)[0]);
    assert(behind[0] == ']');
    lemma_digits_len(decimal(k), behind, 0);
    let n = decimal(k).len() as int;
    assert(v[n] == ']');
    assert(v.take(n) =~= decimal(k));
    assert(v.skip(n + 1) =~= rest);
}

spec fn jq_segments_from(segments: Seq<PathSegment>, names: Seq<Seq<u8>>) -> Seq<char>
    decreases segments.len(),
{
    if segments.len() == 0 {
        Seq::empty()
    } else {
        jq_segment(segments[0], names) + jq_segments_from(segments.skip(1), names)
    }
}

proof fn lemma_segments_from(segments: Seq<PathSegment>, names: Seq<Seq<u8>>)
    ensures
        jq_segments(segments, names) == jq_segments_from(segments, names),
    decreases segments.len(),
{
    if segments.len() == 1 {
        assert(segments.drop_last() =~= Seq::empty());
        assert(segments.skip(1) =~= Seq::empty());
        let x = jq_segment(segments[0], names);
        assert(jq_segments(segments.drop_last(), names) == Seq::<char>::empty());
        assert(jq_segments_from(segments.skip(1), names) == Seq::<char>::empty());
        assert(Seq::<char>::empty() + x =~= x + Seq::<char>::empty());
    } else if segments.len() > 1 {
        let rest = segments.skip(1);
        lemma_segments_from(segments.drop_last(), names);
        lemma_segments_from(rest, names);
        lemma_segments_from(rest.drop_last(), names);
        assert(segments.drop_last().skip(1) =~= rest.drop_last());
        let a = jq_segment(segments[0], names);
        let b = jq_segments(rest.drop_last(), names);
        let c = jq_segment(segments.last(), names);
        assert((a + b) + c =~= a + (b + c));
    }
}

/// Keys and indices only, as JSON paths have them.
pub open spec fn is_json_path(segments: Seq<PathSegment>) -> bool {
    forall|i: int| 0 <= i < segments.len() ==> (#[trigger] segments[i]) is Key || segments[i] is Index
}

proof fn lemma_read_steps(segments: Seq<PathSegment>, names: Seq<Seq<u8>>)
    requires
        is_json_path(segments),
    ensures
        read_jq_steps(jq_segments_from(segments, names)) == Some(jq_steps_of(segments, names)),
        at_step(jq_segments_from(segments, names)),
        segments.len() > 0 ==> jq_segments_from(segments, names).len() > 1,
    decreases segments.len(),
{
    if segments.len() == 0 {
        assert(jq_steps_of(segments, names) =~= Seq::empty());
    } else {
        let rest = segments.skip(1);
        assert forall|i: int| 0 <= i < rest.len() implies (#[trigger] rest[i]) is Key || rest[i] is Index by {
            assert(rest[i] == segments[i + 1]);
        }
        lemma_read_steps(rest, names);
        let tail = jq_segments_from(rest, names);
        let x = jq_segment(segments[0], names);
        let steps = jq_steps_of(segments, names);
        assert(steps =~= seq![steps[0]] + jq_steps_of(rest, names));
        assert((x + tail)[0] == x[0]);
        match segments[0] {
            PathSegment::Key(id) => {
                let name = crate::text::text_or_replacement(names[id as int]);
                lemma_read_key(name, tail);
                if !is_ident(name) {
                    assert(x.len() >= 5);
                }
            },
            PathSegment::Index(k) => {
                lemma_read_index(k as nat, tail, false);
            },
            _ => {},
        }
    }
}

/// A path that starts with an index gets a dot in front.
proof fn lemma_read_dotted(segments: Seq<PathSegment>, names: Seq<Seq<u8>>)
    requires
        is_json_path(segments),
        segments.len() > 0,
        segments[0] is Index,
    ensures
        read_jq_steps(seq!['.'] + jq_segments_from(segments, names)) == Some(jq_steps_of(segments, names)),
{
    let rest = segments.skip(1);
    let tail = jq_segments_from(rest, names);
    let x = jq_segment(segments[0], names);
    assert forall|i: int| 0 <= i < rest.len() implies (#[trigger] rest[i]) is Key || rest[i] is Index by {
        assert(rest[i] == segments[i + 1]);
    }
    lemma_read_steps(rest, names);
    if let PathSegment::Index(k) = segments[0] {
        lemma_read_index(k as nat, tail, true);
        let steps = jq_steps_of(segments, names);
        assert(steps[0] == JqStep::Element(k as int));
        assert(steps =~= seq![steps[0]] + jq_steps_of(rest, names));
        let t = seq!['.'] + x + tail;
        assert(seq!['.'] + (x + tail) =~= t);
        assert(read_jq_step(t) == Some((JqStep::Element(k as int), tail)));
        assert(tail.len() < t.len());
    }
}

proof fn lemma_first_char(segments: Seq<PathSegment>, names: Seq<Seq<u8>>)
    requires
        is_json_path(segments),
        segments.len() > 0,
    ensures
        jq_segments_from(segments, names).len() > 1,
        jq_segments_from(segments, names)[0] == '[' <==> segments[0] is Index,
        jq_segments_from(segments, names)[0] == '.' <==> segments[0] is Key,
{
    lemma_read_steps(segments, names);
    let x = jq_segment(segments[0], names);
    assert(segments[0] is Key || segments[0] is Index);
    if let PathSegment::Key(id) = segments[0] {
        lemma_read_key(crate::text::text_or_replacement(names[id as int]), Seq::empty());
    }
    assert(x.len() > 0);
    assert(jq_segments_from(segments, names)[0] == x[0]);
}

/// A reader of jq paths, which takes a name without quotes only where it
/// is letters, digits and underscores, reads `path_expression` back as
/// the keys and indices of the path.
pub proof fn law_jq_reads_back(segments: Seq<PathSegment>, names: Seq<Seq<u8>>)
    requires
        is_json_path(segments),
    ensures
        read_jq(jq_path(segments, names)) == Some(jq_steps_of(segments, names)),
{
    lemma_segments_from(segments, names);
    if segments.len() == 0 {
        assert(jq_steps_of(segments, names) =~= Seq::empty());
    } else {
        lemma_first_char(segments, names);
        lemma_read_steps(segments, names);
        if segments[0] is Index {
            lemma_read_dotted(segments, names);
        }
    }
}

/// The text of a path before another step is added: nothing for the path
/// without steps.
pub open spec fn jq_base(segments: Seq<PathSegment>, names: Seq<Seq<u8>>) -> Seq<char> {
    if segments.len() == 0 {
        Seq::empty()
    } else {
        jq_path(segments, names)
    }
}

/// Letters, digits and underscores, no digit first.
pub open spec fn is_plain_name(name: Seq<char>) -> bool {
    name.len() > 0 && forall|i: int| 0 <= i < name.len() ==> in_jq_name(#[trigger] name[i], i == 0)
}

proof fn lemma_name_char(c: char)
    ensures
        is_ident_char(c) == in_jq_name(c, false),
        is_ident_start(c) == in_jq_name(c, true),
{
    if c as u32 == 0x5f {
        assert(c == '_');
    }
}

pub proof fn lemma_plain_name(name: Seq<char>)
    ensures
        is_ident(name) == is_plain_name(name),
{
    if is_ident(name) {
        assert forall|i: int| 0 <= i < name.len() implies in_jq_name(#[trigger] name[i], i == 0) by {}
    }
    if is_plain_name(name) {
        assert(in_jq_name(name[0], 0int == 0));
        lemma_name_char(name[0]);
        assert forall|i: int| 1 <= i < name.len() implies is_ident_char(#[trigger] name[i]) by {
            assert(in_jq_name(name[i], i == 0));
            lemma_name_char(name[i]);
        }
    }
}

proof fn lemma_jq_pushed(segments: Seq<PathSegment>, names: Seq<Seq<u8>>, step: PathSegment)
    requires
        is_json_path(segments),
        step is Key || step is Index,
    ensures
        jq_path(segments.push(step), names) == if segments.len() == 0 && step is Index {
            seq!['.'] + jq_segment(step, names)
        } else {
            jq_base(segments, names) + jq_segment(step, names)
        },
{
    let more = segments.push(step);
    assert(more.drop_last() =~= segments);
    let text = jq_segments(segments, names);
    let x = jq_segment(step, names);
    lemma_segments_from(segments, names);
    lemma_read_steps(segments, names);
    if let PathSegment::Key(id) = step {
        lemma_read_key(crate::text::text_or_replacement(names[id as int]), Seq::empty());
    }
    if segments.len() == 0 {
        assert(text =~= Seq::empty());
        assert(text + x =~= x);
        assert(jq_base(segments, names) + x =~= x);
    } else {
        assert((text + x)[0] == text[0]);
        assert(seq!['.'] + (text + x) =~= (seq!['.'] + text) + x);
    }
}

/// Each step adds its own text at the end: `.name` where the key is
/// letters, digits and underscores and no digit comes first, `.["..."]`
/// for any other key, and `[number]`, at the beginning with a dot.
pub proof fn law_jq_steps_add_up(segments: Seq<PathSegment>, names: Seq<Seq<u8>>, step: PathSegment)
    requires
        is_json_path(segments),
        step is Key || step is Index,
    ensures
        ({
            let base = jq_base(segments, names);
            let text = jq_path(segments.push(step), names);
            match jq_steps_of(seq![step], names)[0] {
                JqStep::Field(name) => if is_plain_name(name) {
                    text == base + seq!['.'] + name
                } else {
                    &&& text.len() >= base.len() + 5
                    &&& text.take(base.len() as int + 3) == base + seq!['.', '[', '"']
                    &&& text.skip(text.len() - 2) == seq!['"', ']']
                },
                JqStep::Element(k) => text == (if segments.len() == 0 {
                    seq!['.', '[']
                } else {
                    base + seq!['[']
                }) + decimal(k as nat) + seq![']'],
            }
        }),
{
    lemma_jq_pushed(segments, names, step);
    let base = jq_base(segments, names);
    let text = jq_path(segments.push(step), names);
    assert(seq![step][0] == step);
    match step {
        PathSegment::Key(id) => {
            let name = crate::text::text_or_replacement(names[id as int]);
            lemma_plain_name(name);
            if is_ident(name) {
                assert(text =~= base + seq!['.'] + name);
            } else {
                let inner = jq_chars(name);
                assert(text =~= base + seq!['.', '[', '"'] + inner + seq!['"', ']']);
                assert(text.take(base.len() as int + 3) =~= base + seq!['.', '[', '"']);
                assert(text.skip(text.len() - 2) =~= seq!['"', ']']);
            }
        },
        PathSegment::Index(k) => {
            if segments.len() == 0 {
                assert(text =~= seq!['.', '['] + decimal(k as nat) + seq![']']);
            } else {
                assert(text =~= base + seq!['['] + decimal(k as nat) + seq![']']);
            }
        },
        _ => {},
    }
}

} // verus!
