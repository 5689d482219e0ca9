//! Law of XPath expressions: each names one element only.

use vstd::prelude::*;
use vstd::utf8::{
    decode_first_scalar, decode_utf8, length_of_first_scalar, pop_first_scalar, take_first_scalar, valid_utf8,
};

use crate::format::xml::{is_name_char, name_end, xml_document, xpath, xpath_segment, xpath_segments};
use crate::format::xml_laws::{law_xml_indexes, law_xml_names, law_xml_parents, law_xml_paths_distinct};
use crate::format::{path_to, PathSegment};
use crate::text::{decimal, digit_char};

verus! {

// --- text -----------------------------------------------------------

/// A text decoded from bytes without the ASCII byte `x` has no such
/// character.
proof fn lemma_decoded_lacks(bytes: Seq<u8>, x: char)
    requires
        valid_utf8(bytes),
        (x as u32) < 0x80,
        forall|k: int| 0 <= k < bytes.len() ==> #[trigger] bytes[k] != x as u8,
    ensures
        !decode_utf8(bytes).contains(x),
    decreases bytes.len(),
{
    if bytes.len() > 0 {
        let rest = pop_first_scalar(bytes);
        let n = length_of_first_scalar(bytes);
        assert forall|k: int| 0 <= k < rest.len() implies #[trigger] rest[k] != x as u8 by {
            assert(rest[k] == bytes[n + k]);
        }
        lemma_decoded_lacks(rest, x);
        let first = decode_first_scalar(bytes);
        vstd::utf8::decode_utf8_first_scalar(bytes);
        let u = x as u32;
        assert(u < 0x80 ==> (u & 0x7f) as u8 == u as u8) by (bit_vector);
        assert(bytes[0] != x as u8);
        assert(take_first_scalar(bytes)[0] == bytes[0]);
        assert(first as char != x);
        let t = decode_utf8(bytes);
        assert(t == seq![first as char] + decode_utf8(rest));
        if t.contains(x) {
            let k = choose|k: int| 0 <= k < t.len() && t[k] == x;
            if k > 0 {
                assert(decode_utf8(rest)[k - 1] == x);
            }
        }
    }
}

/// A text that ends in a slash and a part without one splits there.
proof fn lemma_split_slash(a: Seq<char>, x: Seq<char>, b: Seq<char>, y: Seq<char>)
    requires
        a + (seq!['/'] + x) == b + (seq!['/'] + y),
        !x.contains('/'),
        !y.contains('/'),
    ensures
        a == b,
        x == y,
{
    let t = a + (seq!['/'] + x);
    let u = b + (seq!['/'] + y);
    assert(t.len() == a.len() + 1 + x.len());
    assert(u.len() == b.len() + 1 + y.len());
    assert(t[a.len() as int] == '/');
    assert(u[b.len() as int] == '/');
    if x.len() < y.len() {
        let k = a.len() - b.len() - 1;
        assert(u[a.len() as int] == y[k]);
        assert(y.contains('/'));
    }
    if y.len() < x.len() {
        let k = b.len() - a.len() - 1;
        assert(t[b.len() as int] == x[k]);
        assert(x.contains('/'));
    }
    assert(t.take(a.len() as int) =~= a);
    assert(u.take(b.len() as int) =~= b);
    assert(t.skip(a.len() as int + 1) =~= x);
    assert(u.skip(b.len() as int + 1) =~= y);
}

/// A text of a part without a bracket, and then nothing or a bracketed
/// part, splits there.
proof fn lemma_split_bracket(a: Seq<char>, x: Seq<char>, b: Seq<char>, y: Seq<char>)
    requires
        a + x == b + y,
        !a.contains('['),
        !b.contains('['),
        x.len() > 0 ==> x[0] == '[',
        y.len() > 0 ==> y[0] == '[',
    ensures
        a == b,
        x == y,
{
    let t = a + x;
    let u = b + y;
    if a.len() < b.len() {
        assert(t[a.len() as int] == x[0]);
        assert(u[a.len() as int] == b[a.len() as int]);
        assert(b.contains('['));
    }
    if b.len() < a.len() {
        assert(u[b.len() as int] == y[0]);
        assert(t[b.len() as int] == a[b.len() as int]);
        assert(a.contains('['));
    }
    assert(t.take(a.len() as int) =~= a);
    assert(u.take(b.len() as int) =~= b);
    assert(t.skip(a.len() as int) =~= x);
    assert(u.skip(b.len() as int) =~= y);
}

proof fn lemma_digit_char(d: int, e: int)
    requires
        0 <= d < 10,
        0 <= e < 10,
    ensures
        digit_char(d) != '/',
        digit_char(d) == digit_char(e) ==> d == e,
{
    assert(digit_char(d) as u32 == 0x30 + d);
    assert(digit_char(e) as u32 == 0x30 + e);
}

proof fn lemma_decimal_plain(n: nat)
    ensures
        !decimal(n).contains('/'),
        decimal(n).len() > 0,
        decimal(n).len() == 1 <==> n < 10,
    decreases n,
{
    lemma_digit_char((n % 10) as int, 0);
    if n >= 10 {
        lemma_decimal_plain(n / 10);
        let t = decimal(n);
        if t.contains('/') {
            let k = choose|k: int| 0 <= k < t.len() && t[k] == '/';
            assert(decimal(n / 10)[k] == '/');
        }
    } else {
        lemma_digit_char(n as int, 0);
    }
}

/// Different numbers are written differently.
proof fn lemma_decimal_distinct(m: nat, n: nat)
    requires
        decimal(m) == decimal(n),
    ensures
        m == n,
    decreases m,
{
    lemma_decimal_plain(m);
    lemma_decimal_plain(n);
    if m < 10 {
        assert(n < 10);
        lemma_digit_char(m as int, n as int);
        assert(decimal(m)[0] == digit_char(m as int));
        assert(decimal(n)[0] == digit_char(n as int));
    } else {
        let a = decimal(m / 10);
        let b = decimal(n / 10);
        assert(decimal(m).drop_last() =~= a);
        assert(decimal(n).drop_last() =~= b);
        assert(decimal(m).last() == digit_char((m % 10) as int));
        assert(decimal(n).last() == digit_char((n % 10) as int));
        lemma_digit_char((m % 10) as int, (n % 10) as int);
        lemma_decimal_distinct(m / 10, n / 10);
        assert(m == 10 * (m / 10) + m % 10 && n == 10 * (n / 10) + n % 10);
    }
}

// --- paths ----------------------------------------------------------

/// Names that can be told from the rest of an expression.
spec fn plain_name(name: Seq<u8>) -> bool {
    valid_utf8(name) && forall|k: int| 0 <= k < name.len() ==> is_name_char(#[trigger] name[k])
}

/// Segments of elements with plain names.
spec fn element_path(segments: Seq<PathSegment>, names: Seq<Seq<u8>>) -> bool {
    forall|k: int|
        0 <= k < segments.len() ==> ((#[trigger] segments[k]) matches PathSegment::Element { name, .. } && name
            < names.len() && plain_name(names[name as int]))
}

spec fn predicate(index: u32) -> Seq<char> {
    if index > 0 {
        seq!['['] + decimal(index as nat) + seq![']']
    } else {
        Seq::empty()
    }
}

proof fn lemma_name_plain(name: Seq<u8>)
    requires
        plain_name(name),
    ensures
        !decode_utf8(name).contains('/'),
        !decode_utf8(name).contains('['),
{
    assert('/' as u8 == 0x2f && '[' as u8 == 0x5b);
    assert forall|k: int| 0 <= k < name.len() implies #[trigger] name[k] != '/' as u8 by {
        assert(is_name_char(name[k]));
    }
    assert forall|k: int| 0 <= k < name.len() implies #[trigger] name[k] != '[' as u8 by {
        assert(is_name_char(name[k]));
    }
    lemma_decoded_lacks(name, '/');
    lemma_decoded_lacks(name, '[');
}

proof fn lemma_predicate(index: u32)
    ensures
        !predicate(index).contains('/'),
        predicate(index).len() > 0 ==> predicate(index)[0] == '[',
        predicate(index).len() > 0 <==> index > 0,
{
    lemma_decimal_plain(index as nat);
    if index > 0 {
        let d = decimal(index as nat);
        let t = predicate(index);
        if t.contains('/') {
            let k = choose|k: int| 0 <= k < t.len() && t[k] == '/';
            assert(d[k - 1] == '/');
        }
    }
}

/// Segments that are written alike are alike.
proof fn lemma_step_distinct(n1: Seq<u8>, i1: u32, n2: Seq<u8>, i2: u32)
    requires
        plain_name(n1),
        plain_name(n2),
        decode_utf8(n1) + predicate(i1) == decode_utf8(n2) + predicate(i2),
    ensures
        n1 == n2,
        i1 == i2,
{
    lemma_name_plain(n1);
    lemma_name_plain(n2);
    lemma_predicate(i1);
    lemma_predicate(i2);
    lemma_split_bracket(decode_utf8(n1), predicate(i1), decode_utf8(n2), predicate(i2));
    vstd::utf8::decode_utf8_encode_utf8(n1);
    vstd::utf8::decode_utf8_encode_utf8(n2);
    if i1 > 0 {
        let p = predicate(i1);
        assert(p.subrange(1, p.len() - 1) =~= decimal(i1 as nat));
        assert(predicate(i2).subrange(1, p.len() - 1) =~= decimal(i2 as nat));
        lemma_decimal_distinct(i1 as nat, i2 as nat);
    }
}

proof fn lemma_step_lacks_slash(name: Seq<u8>, index: u32)
    requires
        plain_name(name),
    ensures
        !(decode_utf8(name) + predicate(index)).contains('/'),
{
    lemma_name_plain(name);
    lemma_predicate(index);
    let t = decode_utf8(name) + predicate(index);
    if t.contains('/') {
        let k = choose|k: int| 0 <= k < t.len() && t[k] == '/';
        if k < decode_utf8(name).len() {
            assert(decode_utf8(name)[k] == '/');
        } else {
            assert(predicate(index)[k - decode_utf8(name).len()] == '/');
        }
    }
}

/// What an element adds to an expression.
proof fn lemma_segment_text(segment: PathSegment, names: Seq<Seq<u8>>)
    requires
        segment matches PathSegment::Element { name, .. } && name < names.len() && plain_name(names[name as int]),
    ensures
        segment matches PathSegment::Element { name, sibling_index } && xpath_segment(segment, names) == seq!['/'] + (
        decode_utf8(names[name as int]) + predicate(sibling_index)),
{
    if let PathSegment::Element { name, sibling_index } = segment {
        let t = decode_utf8(names[name as int]);
        assert(seq!['/'] + t + predicate(sibling_index) =~= seq!['/'] + (t + predicate(sibling_index)));
    }
}

proof fn lemma_segments_distinct(a: Seq<PathSegment>, b: Seq<PathSegment>, names: Seq<Seq<u8>>)
    requires
        names.no_duplicates(),
        element_path(a, names),
        element_path(b, names),
        xpath_segments(a, names) == xpath_segments(b, names),
    ensures
        a == b,
    decreases a.len(),
{
    if a.len() > 0 {
        let sa = a.last();
        assert(a[a.len() - 1] == sa);
        lemma_segment_text(sa, names);
    }
    if b.len() > 0 {
        let sb = b.last();
        assert(b[b.len() - 1] == sb);
        lemma_segment_text(sb, names);
    }
    if a.len() > 0 && b.len() > 0 {
        if let PathSegment::Element { name: n1, sibling_index: i1 } = a.last() {
            if let PathSegment::Element { name: n2, sibling_index: i2 } = b.last() {
                let x = decode_utf8(names[n1 as int]) + predicate(i1);
                let y = decode_utf8(names[n2 as int]) + predicate(i2);
                lemma_step_lacks_slash(names[n1 as int], i1);
                lemma_step_lacks_slash(names[n2 as int], i2);
                let ra = xpath_segments(a.drop_last(), names);
                let rb = xpath_segments(b.drop_last(), names);
                lemma_split_slash(ra, x, rb, y);
                lemma_step_distinct(names[n1 as int], i1, names[n2 as int], i2);
                assert(n1 == n2);
                assert(element_path(a.drop_last(), names)) by {
                    assert forall|k: int| 0 <= k < a.drop_last().len() implies ((
                    #[trigger] a.drop_last()[k]) matches PathSegment::Element { name, .. } && name < names.len()
                        && plain_name(names[name as int])) by {
                        assert(a.drop_last()[k] == a[k]);
                    }
                }
                assert(element_path(b.drop_last(), names)) by {
                    assert forall|k: int| 0 <= k < b.drop_last().len() implies ((
                    #[trigger] b.drop_last()[k]) matches PathSegment::Element { name, .. } && name < names.len()
                        && plain_name(names[name as int])) by {
                        assert(b.drop_last()[k] == b[k]);
                    }
                }
                lemma_segments_distinct(a.drop_last(), b.drop_last(), names);
                assert(a =~= a.drop_last().push(a.last()));
                assert(b =~= b.drop_last().push(b.last()));
            }
        }
    } else {
        assert(a =~= b);
    }
}

/// An element's name has name characters only.
proof fn lemma_name_bytes(s: Seq<u8>, i: int)
    requires
        0 <= i <= s.len(),
    ensures
        i <= name_end(s, i) <= s.len(),
        forall|k: int| i <= k < name_end(s, i) ==> is_name_char(#[trigger] s[k]),
    decreases s.len() - i,
{
    if i < s.len() && is_name_char(s[i]) {
        lemma_name_bytes(s, i + 1);
    }
}

proof fn lemma_path_elements(s: Seq<u8>, i: int)
    requires
        s.len() < u32::MAX,
        0 <= i < xml_document(s).st.paths.len(),
        i == 0 || xml_document(s).st.paths[i].segment is Element,
        forall|k: int| 0 <= k < xml_document(s).st.names.len() ==> valid_utf8(#[trigger] xml_document(s).st.names[k]),
    ensures
        element_path(path_to(xml_document(s).st.paths, i), xml_document(s).st.names),
        i > 0 ==> path_to(xml_document(s).st.paths, i).len() > 0,
    decreases i,
{
    let paths = xml_document(s).st.paths;
    let names = xml_document(s).st.names;
    law_xml_indexes(s);
    if i > 0 {
        law_xml_parents(s, i);
        let p = paths[i].parent as int;
        lemma_path_elements(s, p);
        law_xml_names(s, i);
        if let PathSegment::Element { name, .. } = paths[i].segment {
            let start = paths[i].start as int;
            lemma_name_bytes(s, start + 1);
            let bytes = names[name as int];
            assert(valid_utf8(bytes));
            assert forall|k: int| 0 <= k < bytes.len() implies is_name_char(#[trigger] bytes[k]) by {
                assert(bytes[k] == s[start + 1 + k]);
            }
            assert(plain_name(bytes));
        }
        let up = path_to(paths, p);
        let here = path_to(paths, i);
        assert(here == up.push(paths[i].segment));
        assert forall|k: int| 0 <= k < here.len() implies ((#[trigger] here[k]) matches PathSegment::Element {
            name,
            ..
        } && name < names.len() && plain_name(names[name as int])) by {
            if k < up.len() {
                assert(here[k] == up[k]);
            }
        }
    }
}

/// An XPath names one element only: where all names are valid UTF-8, two
/// different elements never have the same expression.
pub proof fn law_xpath_distinct(s: Seq<u8>, i: int, j: int)
    requires
        s.len() < u32::MAX,
        forall|k: int| 0 <= k < xml_document(s).st.names.len() ==> valid_utf8(#[trigger] xml_document(s).st.names[k]),
        0 <= i < xml_document(s).st.paths.len(),
        0 <= j < xml_document(s).st.paths.len(),
        xml_document(s).st.paths[i].segment is Element,
        xml_document(s).st.paths[j].segment is Element,
        xpath(path_to(xml_document(s).st.paths, i), xml_document(s).st.names) == xpath(
            path_to(xml_document(s).st.paths, j),
            xml_document(s).st.names,
        ),
    ensures
        i == j,
{
    let paths = xml_document(s).st.paths;
    law_xml_indexes(s);
    lemma_path_elements(s, i);
    lemma_path_elements(s, j);
    lemma_segments_distinct(path_to(paths, i), path_to(paths, j), xml_document(s).st.names);
    law_xml_paths_distinct(s, i, j);
}

/// A name as text; one replacement character where it is not UTF-8.
pub open spec fn name_text(name: Seq<u8>) -> Seq<char> {
    if valid_utf8(name) {
        decode_utf8(name)
    } else {
        seq!['\u{fffd}']
    }
}

/// Each step adds its own text at the end of an XPath: a slash and the
/// element's name, with its number in brackets where it has one, or a
/// slash, an at sign and the attribute's name.
pub proof fn law_xpath_steps_add_up(segments: Seq<PathSegment>, names: Seq<Seq<u8>>, step: PathSegment)
    ensures
        ({
            let base = if segments.len() == 0 {
                Seq::empty()
            } else {
                xpath(segments, names)
            };
            let text = xpath(segments.push(step), names);
            match step {
                PathSegment::Element { name, sibling_index } => if sibling_index == 0 {
                    text == base + seq!['/'] + name_text(names[name as int])
                } else {
                    text == base + seq!['/'] + name_text(names[name as int]) + seq!['['] + decimal(
                        sibling_index as nat,
                    ) + seq![']']
                },
                PathSegment::Attribute(id) => text == base + seq!['/', '@'] + name_text(names[id as int]),
                _ => true,
            }
        }),
        xpath(Seq::empty(), names) == seq!['/'],
{
    let more = segments.push(step);
    assert(more.drop_last() =~= segments);
    let base = if segments.len() == 0 {
        Seq::empty()
    } else {
        xpath(segments, names)
    };
    let text = xpath(more, names);
    let x = xpath_segment(step, names);
    assert(more.last() == step);
    assert(xpath_segments(segments, names) =~= base);
    assert(text == base + x);
    match step {
        PathSegment::Element { name, sibling_index } => {
            let n = name_text(names[name as int]);
            if sibling_index == 0 {
                assert(text =~= base + seq!['/'] + n);
            } else {
                assert(text =~= base + seq!['/'] + n + seq!['['] + decimal(sibling_index as nat) + seq![']']);
            }
        },
        PathSegment::Attribute(id) => {
            assert(text =~= base + seq!['/', '@'] + name_text(names[id as int]));
        },
        _ => {},
    }
}

} // verus!
