//! Case-insensitive substring search over a document's bytes.

use vstd::prelude::*;

use crate::ascii::{UPPER_A, UPPER_Z};

verus! {

/// At most this many matches are collected.
pub const MAX_MATCHES: usize = 100_000;

/// ASCII lower case.
pub open spec fn lower(b: u8) -> u8 {
    if UPPER_A <= b <= UPPER_Z {
        (b + 32) as u8
    } else {
        b
    }
}

pub fn lower_byte(b: u8) -> (r: u8)
    ensures
        r == lower(b),
{
    if UPPER_A <= b && b <= UPPER_Z {
        b + 32
    } else {
        b
    }
}

/// `needle` occurs in `hay` at `i`, ASCII case aside.
pub open spec fn matches_at(hay: Seq<u8>, i: int, needle: Seq<u8>) -> bool {
    &&& 0 <= i
    &&& i + needle.len() <= hay.len()
    &&& forall|k: int| 0 <= k < needle.len() ==> lower(#[trigger] hay[i + k]) == lower(needle[k])
}

/// Starts of the occurrences of `needle` from `i` on, left to right and
/// without overlaps, at most `most` of them.
pub open spec fn occurrences(hay: Seq<u8>, needle: Seq<u8>, i: int, most: nat) -> Seq<u32>
    decreases hay.len() - i,
{
    if most == 0 || i < 0 || needle.len() == 0 || i + needle.len() > hay.len() {
        Seq::empty()
    } else if matches_at(hay, i, needle) {
        seq![i as u32] + occurrences(hay, needle, i + needle.len(), (most - 1) as nat)
    } else {
        occurrences(hay, needle, i + 1, most)
    }
}

fn matches_here(hay: &[u8], i: usize, needle: &[u8]) -> (r: bool)
    requires
        i + needle@.len() <= hay@.len(),
    ensures
        r == matches_at(hay@, i as int, needle@),
{
    let mut k: usize = 0;
    while k < needle.len()
        invariant
            k <= needle@.len(),
            i + needle@.len() <= hay.len(),
            forall|j: int| 0 <= j < k ==> lower(#[trigger] hay@[i + j]) == lower(needle@[j]),
        decreases needle@.len() - k,
    {
        if lower_byte(hay[i + k]) != lower_byte(needle[k]) {
            proof {
                assert(lower(hay@[i + k]) != lower(needle@[k as int]));
            }
            return false;
        }
        k += 1;
    }
    true
}

/// Starts of the occurrences of `needle` in `hay`, ASCII case aside, left
/// to right and without overlaps, at most `MAX_MATCHES` of them.
pub fn find_matches(hay: &[u8], needle: &[u8]) -> (r: Vec<u32>)
    requires
        hay@.len() <= u32::MAX,
    ensures
        r@ == occurrences(hay@, needle@, 0, MAX_MATCHES as nat),
{
    let mut out: Vec<u32> = Vec::new();
    let n: usize = needle.len();
    let ghost goal = occurrences(hay@, needle@, 0, MAX_MATCHES as nat);
    if n == 0 || n > hay.len() {
        assert(out@ =~= goal);
        return out;
    }
    let end: usize = hay.len() - n;
    let mut i: usize = 0;
    proof {
        assert(out@ + goal =~= goal);
    }
    while out.len() < MAX_MATCHES && i <= end
        invariant
            n == needle@.len(),
            0 < n <= hay@.len() <= u32::MAX,
            end == hay@.len() - n,
            i <= hay@.len(),
            out@.len() <= MAX_MATCHES,
            goal == out@ + occurrences(hay@, needle@, i as int, (MAX_MATCHES - out@.len()) as nat),
        decreases hay@.len() - i,
    {
        if matches_here(hay, i, needle) {
            let ghost before = out@;
            out.push(i as u32);
            proof {
                let rest = occurrences(hay@, needle@, i + n, (MAX_MATCHES - out@.len()) as nat);
                assert(before + (seq![i as u32] + rest) =~= out@ + rest);
            }
            i += n;
        } else {
            i += 1;
        }
    }
    proof {
        assert(out@ + Seq::<u32>::empty() =~= out@);
    }
    out
}

/// Search match state. Byte offsets into the current document.
#[derive(Debug)]
pub struct SearchState {
    /// Byte offset of each match start.
    pub matches: Vec<u32>,
    /// Length of the search query in bytes.
    pub match_len: u32,
    /// Index into `matches` of the focused match.
    pub current: usize,
}

impl Default for SearchState {
    fn default() -> (r: Self)
        ensures
            r.wf(),
            r.is_clear(),
    {
        SearchState { matches: Vec::new(), match_len: 0, current: 0 }
    }
}

impl SearchState {
    /// No query is active.
    pub open spec fn is_clear(&self) -> bool {
        self.matches@.len() == 0 && self.match_len == 0 && self.current == 0
    }

    /// Matches are apart from each other and end within `u32` offsets;
    /// the focused one exists if any does.
    pub open spec fn wf(&self) -> bool {
        &&& self.matches@.len() > 0 ==> self.current < self.matches@.len() && self.match_len > 0
        &&& self.matches@.len() <= MAX_MATCHES
        &&& forall|i: int|
            0 <= i < self.matches@.len() ==> (#[trigger] self.matches@[i]) + self.match_len <= u32::MAX
        &&& forall|i: int, j: int|
            0 <= i < j < self.matches@.len() ==> (#[trigger] self.matches@[i]) + self.match_len <= (
            #[trigger] self.matches@[j])
    }

    /// Forgets all matches.
    pub fn clear(&mut self)
        ensures
            final(self).wf(),
            final(self).is_clear(),
    {
        self.matches.clear();
        self.match_len = 0;
        self.current = 0;
    }

    /// Searches `hay` for `needle` and focuses the first match; returns
    /// the number of matches. An empty query clears the search.
    pub fn run(&mut self, hay: &[u8], needle: &[u8]) -> (n: usize)
        requires
            hay@.len() < u32::MAX,
            needle@.len() <= u32::MAX,
        ensures
            final(self).wf(),
            final(self).matches@ == occurrences(hay@, needle@, 0, MAX_MATCHES as nat),
            final(self).match_len == needle@.len(),
            final(self).current == 0,
            n == final(self).matches@.len(),
    {
        self.matches = find_matches(hay, needle);
        self.match_len = needle.len() as u32;
        self.current = 0;
        proof {
            law_matches_apart(hay@, needle@, 0, MAX_MATCHES as nat);
        }
        self.matches.len()
    }

    /// Focuses the next match, wrapping around.
    pub fn next(&mut self) -> (r: Option<u32>)
        requires
            old(self).wf(),
        ensures
            final(self).wf(),
            final(self).matches == old(self).matches,
            final(self).match_len == old(self).match_len,
            final(self).current == next_index(old(self).current as int, old(self).matches@.len() as int),
            r is Some <==> old(self).matches@.len() > 0,
            r matches Some(offset) ==> offset == final(self).matches@[final(self).current as int],
    {
        let n: usize = self.matches.len();
        if n == 0 {
            return None;
        }
        self.current = if self.current + 1 < n {
            self.current + 1
        } else {
            0
        };
        Some(self.matches[self.current])
    }

    /// Focuses the previous match, wrapping around.
    pub fn prev(&mut self) -> (r: Option<u32>)
        requires
            old(self).wf(),
        ensures
            final(self).wf(),
            final(self).matches == old(self).matches,
            final(self).match_len == old(self).match_len,
            final(self).current == prev_index(old(self).current as int, old(self).matches@.len() as int),
            r is Some <==> old(self).matches@.len() > 0,
            r matches Some(offset) ==> offset == final(self).matches@[final(self).current as int],
    {
        let n: usize = self.matches.len();
        if n == 0 {
            return None;
        }
        self.current = if self.current == 0 {
            n - 1
        } else {
            self.current - 1
        };
        Some(self.matches[self.current])
    }
}

/// The index after `i` among `n`, wrapping around; `i` when there are
/// none.
pub open spec fn next_index(i: int, n: int) -> int {
    if n <= 0 {
        i
    } else if i + 1 < n {
        i + 1
    } else {
        0
    }
}

/// The index before `i` among `n`, wrapping around; `i` when there are
/// none.
pub open spec fn prev_index(i: int, n: int) -> int {
    if n <= 0 {
        i
    } else if i == 0 {
        n - 1
    } else {
        i - 1
    }
}

/// Stepping forth and back, or back and forth, returns to the same match.
pub proof fn law_next_prev(i: int, n: int)
    requires
        0 <= i < n,
    ensures
        prev_index(next_index(i, n), n) == i,
        next_index(prev_index(i, n), n) == i,
        0 <= next_index(i, n) < n,
        0 <= prev_index(i, n) < n,
        next_index(i, n) == (i + 1) % n,
{
    if i + 1 == n {
        assert(n % n == 0) by (nonlinear_arith)
            requires
                n > 0,
        ;
    } else {
        assert((i + 1) % n == i + 1) by (nonlinear_arith)
            requires
                0 <= i + 1 < n,
        ;
    }
}

/// Every reported match is one, matches come in order and do not
/// overlap.
pub proof fn law_matches_apart(hay: Seq<u8>, needle: Seq<u8>, i: int, most: nat)
    requires
        0 <= i,
        hay.len() <= u32::MAX,
    ensures
        ({
            let m = occurrences(hay, needle, i, most);
            &&& m.len() <= most
            &&& m.len() > 0 ==> needle.len() > 0
            &&& forall|k: int|
                0 <= k < m.len() ==> i <= (#[trigger] m[k]) && m[k] + needle.len() <= hay.len() && matches_at(
                    hay,
                    m[k] as int,
                    needle,
                )
            &&& forall|k: int, l: int|
                0 <= k < l < m.len() ==> (#[trigger] m[k]) + needle.len() <= (#[trigger] m[l])
        }),
    decreases hay.len() - i,
{
    if most > 0 && needle.len() > 0 && i + needle.len() <= hay.len() {
        if matches_at(hay, i, needle) {
            law_matches_apart(hay, needle, i + needle.len(), (most - 1) as nat);
            let m = occurrences(hay, needle, i, most);
            let rest = occurrences(hay, needle, i + needle.len(), (most - 1) as nat);
            assert forall|k: int| 0 <= k < m.len() implies i <= (#[trigger] m[k]) && m[k] + needle.len() <= hay.len()
                && matches_at(hay, m[k] as int, needle) by {
                if k > 0 {
                    assert(m[k] == rest[k - 1]);
                }
            }
            assert forall|k: int, l: int| 0 <= k < l < m.len() implies (#[trigger] m[k]) + needle.len() <= (
            #[trigger] m[l]) by {
                assert(m[l] == rest[l - 1]);
                if k > 0 {
                    assert(m[k] == rest[k - 1]);
                }
            }
        } else {
            law_matches_apart(hay, needle, i + 1, most);
        }
    }
}

/// No occurrence is missed: unless the limit cut the list short, every
/// occurrence starts inside a reported match.
pub proof fn law_matches_complete(hay: Seq<u8>, needle: Seq<u8>, i: int, most: nat, j: int)
    requires
        0 <= i <= j,
        hay.len() <= u32::MAX,
        needle.len() > 0,
        matches_at(hay, j, needle),
        occurrences(hay, needle, i, most).len() < most,
    ensures
        exists|k: int|
            0 <= k < occurrences(hay, needle, i, most).len() && (#[trigger] occurrences(
                hay,
                needle,
                i,
                most,
            )[k]) <= j < occurrences(hay, needle, i, most)[k] + needle.len(),
    decreases hay.len() - i,
{
    let m = occurrences(hay, needle, i, most);
    if matches_at(hay, i, needle) {
        let rest = occurrences(hay, needle, i + needle.len(), (most - 1) as nat);
        if j < i + needle.len() {
            assert(m[0] == i);
        } else {
            law_matches_complete(hay, needle, i + needle.len(), (most - 1) as nat, j);
            let k = choose|k: int|
                0 <= k < rest.len() && (#[trigger] rest[k]) <= j < rest[k] + needle.len();
            assert(m[k + 1] == rest[k]);
        }
    } else {
        law_matches_complete(hay, needle, i + 1, most, j);
    }
}

/// `a` and `b` are the same byte, or the same ASCII letter in either case.
pub open spec fn same_letter(a: u8, b: u8) -> bool {
    ||| a == b
    ||| 0x41 <= a <= 0x5a && b == a + 0x20
    ||| 0x41 <= b <= 0x5a && a == b + 0x20
}

/// A place matches where the bytes are the query's, but for the case of
/// ASCII letters.
pub proof fn law_match_ignores_case(hay: Seq<u8>, i: int, needle: Seq<u8>)
    requires
        0 <= i,
    ensures
        matches_at(hay, i, needle) <==> i + needle.len() <= hay.len() && forall|k: int|
            0 <= k < needle.len() ==> same_letter(#[trigger] hay[i + k], needle[k]),
{
    assert forall|a: u8, b: u8| lower(a) == lower(b) <==> #[trigger] same_letter(a, b) by {}
    if i + needle.len() <= hay.len() {
        if matches_at(hay, i, needle) {
            assert forall|k: int| 0 <= k < needle.len() implies same_letter(#[trigger] hay[i + k], needle[k]) by {
                assert(lower(hay[i + k]) == lower(needle[k]));
            }
        }
        if forall|k: int| 0 <= k < needle.len() ==> same_letter(#[trigger] hay[i + k], needle[k]) {
            assert forall|k: int| 0 <= k < needle.len() implies lower(#[trigger] hay[i + k]) == lower(needle[k]) by {
                assert(same_letter(hay[i + k], needle[k]));
            }
        }
    }
}

} // verus!
