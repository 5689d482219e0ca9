//! Law of format detection.

use vstd::prelude::*;

use crate::bytes::{bom_len, lemma_skip_ws_bounds, skip_ws_from};
use crate::format::json_text::is_gap;
use crate::format::{format_of, Format};

verus! {

/// A document is XML exactly where its first byte, behind a byte order
/// mark and whitespace, is `<`; a document without such a byte is JSON.
pub proof fn law_detect(mark: bool, gap: Seq<u8>, rest: Seq<u8>)
    requires
        is_gap(gap),
        rest.len() > 0 ==> rest[0] != 0x20 && rest[0] != 0x09 && rest[0] != 0x0a && rest[0] != 0x0d,
        !mark && gap.len() == 0 && rest.len() >= 3 ==> !(rest[0] == 0xef && rest[1] == 0xbb && rest[2] == 0xbf),
    ensures
        format_of(
            (if mark {
                seq![0xefu8, 0xbbu8, 0xbfu8]
            } else {
                Seq::empty()
            }) + gap + rest,
        ) == if rest.len() > 0 && rest[0] == 0x3c {
            Format::Xml
        } else {
            Format::Json
        },
{
    let front = if mark {
        seq![0xefu8, 0xbbu8, 0xbfu8]
    } else {
        Seq::empty()
    };
    let s = front + gap + rest;
    let n = front.len() as int;
    if mark {
        assert(s[0] == 0xef && s[1] == 0xbb && s[2] == 0xbf);
    } else if s.len() >= 3 {
        if gap.len() > 0 {
            assert(s[0] == gap[0]);
        } else {
            assert(s =~= rest);
        }
    }
    assert(bom_len(s) == n);
    lemma_skip_ws_bounds(s, n);
    let k = skip_ws_from(s, n);
    let e = n + gap.len();
    if k < e {
        assert(s[k] == gap[k - n]);
    } else if k > e {
        assert(s[e] == rest[0]);
    }
    assert(k == e);
    if rest.len() > 0 {
        assert(s[e] == rest[0]);
    }
}

} // verus!
