//! Source view: the raw markdown with its headings and code colored.

use vstd::prelude::*;

use crate::columns::{chars_of_line, lemma_line_chars, line_chars, span_ranges, utf16_spans};
use crate::markdown_core::{ParseOutput, StyleKind};

verus! {

/// The ranges of `v` that are not empty.
pub open spec fn nonempty_ranges(v: Seq<(usize, usize, StyleKind)>) -> Seq<(usize, usize, StyleKind)>
    decreases v.len(),
{
    if v.len() == 0 {
        Seq::empty()
    } else {
        let before = nonempty_ranges(v.drop_last());
        if v.last().0 < v.last().1 {
            before.push(v.last())
        } else {
            before
        }
    }
}

/// UTF-16 ranges to color in the text of the document, by style. A
/// document that is not valid UTF-8 shows no text and no colors.
pub fn source_spans(bytes: &[u8], parse: &ParseOutput) -> (r: Vec<(usize, usize, StyleKind)>)
    requires
        2 * bytes@.len() <= usize::MAX,
    ensures
        r@ == nonempty_ranges(span_ranges(line_chars(bytes@), 0, parse.styles@, 0, 0)),
{
    let chars = chars_of_line(bytes);
    proof {
        lemma_line_chars(bytes@);
    }
    let all = utf16_spans(chars.as_slice(), 0, parse.styles.as_slice());
    let mut out: Vec<(usize, usize, StyleKind)> = Vec::new();
    let mut i: usize = 0;
    proof {
        assert(all@.take(0) =~= Seq::<(usize, usize, StyleKind)>::empty());
    }
    while i < all.len()
        invariant
            i <= all@.len(),
            out@ == nonempty_ranges(all@.take(i as int)),
        decreases all@.len() - i,
    {
        proof {
            assert(all@.take(i + 1).drop_last() =~= all@.take(i as int));
        }
        let (a, b, kind) = all[i];
        if a < b {
            out.push((a, b, kind));
        }
        i += 1;
    }
    proof {
        assert(all@.take(all@.len() as int) =~= all@);
    }
    out
}

} // verus!
