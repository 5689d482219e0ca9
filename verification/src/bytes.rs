//! Byte-sequence helpers shared by the parsers and the views.

use vstd::prelude::*;
use vstd::slice::slice_subrange;

use crate::ascii::{CR, FF, LF, NINE, SPACE, TAB, ZERO};

verus! {

/// JSON / XML / CSV whitespace: space, tab, line feed, carriage return.
pub open spec fn is_ws(b: u8) -> bool {
    b == SPACE || b == TAB || b == LF || b == CR
}

pub fn is_ws_byte(b: u8) -> (r: bool)
    ensures
        r == is_ws(b),
{
    b == SPACE || b == TAB || b == LF || b == CR
}

pub open spec fn is_digit(b: u8) -> bool {
    ZERO <= b <= NINE
}

pub fn is_digit_byte(b: u8) -> (r: bool)
    ensures
        r == is_digit(b),
{
    ZERO <= b && b <= NINE
}

/// The first position at or after `i` whose byte is not whitespace, or
/// the length of `s`.
pub open spec fn skip_ws_from(s: Seq<u8>, i: int) -> int
    decreases s.len() - i,
{
    if 0 <= i < s.len() && is_ws(s[i]) {
        skip_ws_from(s, i + 1)
    } else {
        i
    }
}

/// The first position at or after `i` whose byte is not a digit, or the
/// length of `s`.
pub open spec fn skip_digits_from(s: Seq<u8>, i: int) -> int
    decreases s.len() - i,
{
    if 0 <= i < s.len() && is_digit(s[i]) {
        skip_digits_from(s, i + 1)
    } else {
        i
    }
}

pub proof fn lemma_skip_ws_bounds(s: Seq<u8>, i: int)
    requires
        0 <= i <= s.len(),
    ensures
        i <= skip_ws_from(s, i) <= s.len(),
        forall|k: int| i <= k < skip_ws_from(s, i) ==> is_ws(#[trigger] s[k]),
        skip_ws_from(s, i) < s.len() ==> !is_ws(s[skip_ws_from(s, i)]),
    decreases s.len() - i,
{
    if i < s.len() && is_ws(s[i]) {
        lemma_skip_ws_bounds(s, i + 1);
    }
}

pub proof fn lemma_skip_digits_bounds(s: Seq<u8>, i: int)
    requires
        0 <= i <= s.len(),
    ensures
        i <= skip_digits_from(s, i) <= s.len(),
        forall|k: int| i <= k < skip_digits_from(s, i) ==> is_digit(#[trigger] s[k]),
        skip_digits_from(s, i) < s.len() ==> !is_digit(s[skip_digits_from(s, i)]),
    decreases s.len() - i,
{
    if i < s.len() && is_digit(s[i]) {
        lemma_skip_digits_bounds(s, i + 1);
    }
}

/// Index of the first non-whitespace byte at or after `i`.
pub fn skip_ws_at(s: &[u8], i: usize) -> (r: usize)
    requires
        i <= s@.len(),
    ensures
        r == skip_ws_from(s@, i as int),
        i <= r <= s@.len(),
{
    proof {
        lemma_skip_ws_bounds(s@, i as int);
    }
    let mut j: usize = i;
    while j < s.len() && is_ws_byte(s[j])
        invariant
            i <= j <= s@.len(),
            skip_ws_from(s@, j as int) == skip_ws_from(s@, i as int),
        decreases s@.len() - j,
    {
        j += 1;
    }
    j
}

/// Appends `s` to `out`.
pub fn push_bytes(out: &mut Vec<u8>, s: &[u8])
    ensures
        final(out)@ == old(out)@ + s@,
{
    let ghost before = out@;
    out.extend_from_slice(s);
    assert(out@ =~= before + s@);
}

/// Whether two byte strings are the same.
pub fn same_bytes(a: &[u8], b: &[u8]) -> (r: bool)
    ensures
        r == (a@ == b@),
{
    if a.len() != b.len() {
        return false;
    }
    let mut i: usize = 0;
    while i < a.len()
        invariant
            i <= a@.len(),
            a@.len() == b@.len(),
            forall|k: int| 0 <= k < i ==> a@[k] == b@[k],
        decreases a@.len() - i,
    {
        if a[i] != b[i] {
            return false;
        }
        i += 1;
    }
    assert(a@ =~= b@);
    true
}

/// `pat` occurs in `s` at position `i`.
pub open spec fn occurs_at(s: Seq<u8>, i: int, pat: Seq<u8>) -> bool {
    0 <= i && i + pat.len() <= s.len() && s.subrange(i, i + pat.len()) == pat
}

/// Whether `pat` occurs in `s` at position `i`.
pub fn has_prefix_at(s: &[u8], i: usize, pat: &[u8]) -> (r: bool)
    requires
        i <= s@.len(),
    ensures
        r == occurs_at(s@, i as int, pat@),
{
    if pat.len() > s.len() - i {
        return false;
    }
    same_bytes(slice_subrange(s, i, i + pat.len()), pat)
}

/// First position at or after `i` that holds `b`, or the length of `s`.
pub open spec fn index_from(s: Seq<u8>, i: int, b: u8) -> int
    decreases s.len() - i,
{
    if 0 <= i < s.len() && s[i] != b {
        index_from(s, i + 1, b)
    } else {
        i
    }
}

pub proof fn lemma_index_from(s: Seq<u8>, i: int, b: u8)
    requires
        0 <= i <= s.len(),
    ensures
        i <= index_from(s, i, b) <= s.len(),
        forall|k: int| i <= k < index_from(s, i, b) ==> #[trigger] s[k] != b,
        index_from(s, i, b) < s.len() ==> s[index_from(s, i, b)] == b,
    decreases s.len() - i,
{
    if i < s.len() && s[i] != b {
        lemma_index_from(s, i + 1, b);
    }
}

pub fn find_byte(s: &[u8], i: usize, b: u8) -> (r: usize)
    requires
        i <= s@.len(),
    ensures
        r == index_from(s@, i as int, b),
        i <= r <= s@.len(),
        r < s@.len() ==> s@[r as int] == b,
{
    proof {
        lemma_index_from(s@, i as int, b);
    }
    let mut j: usize = i;
    while j < s.len() && s[j] != b
        invariant
            i <= j <= s@.len(),
            index_from(s@, j as int, b) == index_from(s@, i as int, b),
        decreases s@.len() - j,
    {
        j += 1;
    }
    j
}

/// One past the next `b` at or after `i`, or the end of the input.
pub open spec fn past_byte(s: Seq<u8>, i: int, b: u8) -> int {
    let k = index_from(s, i, b);
    if k < s.len() {
        k + 1
    } else {
        k
    }
}

pub fn find_past_byte(s: &[u8], i: usize, b: u8) -> (r: usize)
    requires
        i <= s@.len(),
    ensures
        r == past_byte(s@, i as int, b),
        i <= r <= s@.len(),
{
    let k = find_byte(s, i, b);
    if k < s.len() {
        k + 1
    } else {
        k
    }
}

/// First position at or after `i` at which `pat` occurs.
pub open spec fn find_from(s: Seq<u8>, i: int, pat: Seq<u8>) -> Option<int>
    decreases s.len() - i,
{
    if i < 0 || i >= s.len() {
        None
    } else if occurs_at(s, i, pat) {
        Some(i)
    } else {
        find_from(s, i + 1, pat)
    }
}

pub proof fn lemma_find_from(s: Seq<u8>, i: int, pat: Seq<u8>)
    requires
        0 <= i,
    ensures
        find_from(s, i, pat) matches Some(k) ==> i <= k && occurs_at(s, k, pat) && (forall|j: int|
            i <= j < k ==> !#[trigger] occurs_at(s, j, pat)),
        find_from(s, i, pat) is None ==> forall|j: int| i <= j < s.len() ==> !#[trigger] occurs_at(s, j, pat),
    decreases s.len() - i,
{
    if i < s.len() && !occurs_at(s, i, pat) {
        lemma_find_from(s, i + 1, pat);
    }
}

pub fn find_bytes(s: &[u8], i: usize, pat: &[u8]) -> (r: Option<usize>)
    requires
        i <= s@.len(),
    ensures
        r matches Some(k) ==> find_from(s@, i as int, pat@) == Some(k as int) && i <= k && k + pat@.len() <= s@.len(),
        r is None ==> find_from(s@, i as int, pat@) is None,
{
    proof {
        lemma_find_from(s@, i as int, pat@);
    }
    let mut j: usize = i;
    while j < s.len()
        invariant
            i <= j <= s@.len(),
            find_from(s@, j as int, pat@) == find_from(s@, i as int, pat@),
            match find_from(s@, i as int, pat@) {
                Some(k) => i <= k && k + pat@.len() <= s@.len(),
                None => true,
            },
        decreases s@.len() - j,
    {
        if has_prefix_at(s, j, pat) {
            return Some(j);
        }
        j += 1;
    }
    None
}

/// Length of a UTF-8 byte order mark at the start of `s`.
pub open spec fn bom_len(s: Seq<u8>) -> int {
    if s.len() >= 3 && s[0] == 0xef && s[1] == 0xbb && s[2] == 0xbf {
        3
    } else {
        0
    }
}

/// ASCII whitespace as `[u8]::trim_ascii` sees it.
pub open spec fn is_ascii_space(b: u8) -> bool {
    b == SPACE || b == TAB || b == LF || b == CR || b == FF
}

pub open spec fn trim_start_from(s: Seq<u8>, i: int) -> int
    decreases s.len() - i,
{
    if 0 <= i < s.len() && is_ascii_space(s[i]) {
        trim_start_from(s, i + 1)
    } else {
        i
    }
}

pub open spec fn trim_end_from(s: Seq<u8>, lo: int, hi: int) -> int
    decreases hi,
{
    if lo < hi && 0 < hi <= s.len() && is_ascii_space(s[hi - 1]) {
        trim_end_from(s, lo, hi - 1)
    } else {
        hi
    }
}

/// `s` without its leading and trailing ASCII whitespace.
pub open spec fn trimmed(s: Seq<u8>) -> Seq<u8> {
    let lo = trim_start_from(s, 0);
    s.subrange(lo, trim_end_from(s, lo, s.len() as int))
}

fn is_ascii_space_byte(b: u8) -> (r: bool)
    ensures
        r == is_ascii_space(b),
{
    b == SPACE || b == TAB || b == LF || b == CR || b == FF
}

/// `s` without its leading and trailing ASCII whitespace.
pub fn trim_bytes(s: &[u8]) -> (r: &[u8])
    ensures
        r@ == trimmed(s@),
{
    let mut lo: usize = 0;
    while lo < s.len() && is_ascii_space_byte(s[lo])
        invariant
            lo <= s@.len(),
            trim_start_from(s@, lo as int) == trim_start_from(s@, 0),
        decreases s@.len() - lo,
    {
        lo += 1;
    }
    let mut hi: usize = s.len();
    while lo < hi && is_ascii_space_byte(s[hi - 1])
        invariant
            lo <= hi <= s@.len(),
            trim_end_from(s@, lo as int, hi as int) == trim_end_from(s@, lo as int, s@.len() as int),
        decreases hi,
    {
        hi -= 1;
    }
    slice_subrange(s, lo, hi)
}

/// Offsets at which lines start in the first `end` bytes of `s`: zero,
/// and one past every line feed.
pub open spec fn line_starts_in(s: Seq<u8>, end: int) -> Seq<u32>
    decreases end,
{
    if end <= 0 {
        seq![0u32]
    } else {
        let before = line_starts_in(s, end - 1);
        if s[end - 1] == LF {
            before.push(end as u32)
        } else {
            before
        }
    }
}

/// Line starts begin at zero, grow strictly, never pass `end`, and each
/// one but the first follows a line feed; every line feed starts a line.
pub proof fn lemma_line_starts(s: Seq<u8>, end: int)
    requires
        0 <= end <= s.len(),
        s.len() <= u32::MAX,
    ensures
        1 <= line_starts_in(s, end).len() <= end + 1,
        line_starts_in(s, end)[0] == 0,
        forall|i: int, j: int|
            0 <= i < j < line_starts_in(s, end).len() ==> line_starts_in(s, end)[i] < line_starts_in(s, end)[j],
        forall|i: int|
            1 <= i < line_starts_in(s, end).len() ==> 0 < #[trigger] line_starts_in(s, end)[i] <= end
                && s[line_starts_in(s, end)[i] - 1] == LF,
        forall|p: int|
            0 <= p < end && #[trigger] s[p] == LF ==> line_starts_in(s, end).contains((p + 1) as u32),
    decreases end,
{
    if end > 0 {
        lemma_line_starts(s, end - 1);
        let before = line_starts_in(s, end - 1);
        let now = line_starts_in(s, end);
        assert forall|p: int| 0 <= p < end && #[trigger] s[p] == LF implies now.contains((p + 1) as u32) by {
            if p < end - 1 {
                let k = choose|k: int| 0 <= k < before.len() && before[k] == (p + 1) as u32;
                assert(now[k] == (p + 1) as u32);
            } else {
                assert(now[now.len() - 1] == (p + 1) as u32);
            }
        }
    }
}

} // verus!
