//! Searching sorted lists.

use vstd::prelude::*;

verus! {

/// Values never decrease.
pub open spec fn nondecreasing(s: Seq<u32>) -> bool {
    forall|i: int, j: int| 0 <= i <= j < s.len() ==> (#[trigger] s[i]) <= (#[trigger] s[j])
}

/// Number of leading values that are at most `x`.
pub open spec fn count_at_most(sorted: Seq<u32>, x: int) -> int
    decreases sorted.len(),
{
    if sorted.len() == 0 {
        0
    } else if sorted.last() <= x {
        sorted.len() as int
    } else {
        count_at_most(sorted.drop_last(), x)
    }
}

pub proof fn lemma_count_at_most(sorted: Seq<u32>, x: int, n: int)
    requires
        0 <= n <= sorted.len(),
        forall|k: int| 0 <= k < n ==> (#[trigger] sorted[k]) <= x,
        forall|k: int| n <= k < sorted.len() ==> (#[trigger] sorted[k]) > x,
    ensures
        count_at_most(sorted, x) == n,
    decreases sorted.len(),
{
    if sorted.len() > 0 && n < sorted.len() {
        assert(sorted[sorted.len() - 1] > x);
        lemma_count_at_most(sorted.drop_last(), x, n);
    } else if sorted.len() > 0 {
        assert(sorted[sorted.len() - 1] <= x);
    }
}

/// Number of leading values of a sorted list that are at most `x`.
pub fn count_le(sorted: &[u32], x: i64) -> (n: usize)
    requires
        nondecreasing(sorted@),
    ensures
        n == count_at_most(sorted@, x as int),
        n <= sorted@.len(),
        forall|k: int| 0 <= k < n ==> (#[trigger] sorted@[k]) <= x,
        forall|k: int| n <= k < sorted@.len() ==> (#[trigger] sorted@[k]) > x,
{
    let mut lo: usize = 0;
    let mut hi: usize = sorted.len();
    while lo < hi
        invariant
            lo <= hi <= sorted@.len(),
            nondecreasing(sorted@),
            forall|k: int| 0 <= k < lo ==> (#[trigger] sorted@[k]) <= x,
            forall|k: int| hi <= k < sorted@.len() ==> (#[trigger] sorted@[k]) > x,
        decreases hi - lo,
    {
        let mid: usize = lo + (hi - lo) / 2;
        if sorted[mid] as i64 <= x {
            lo = mid + 1;
        } else {
            hi = mid;
        }
    }
    proof {
        lemma_count_at_most(sorted@, x as int, lo as int);
    }
    lo
}

/// The line that contains `offset`: the last one that starts at or
/// before it; zero when there is none.
pub open spec fn line_of(starts: Seq<u32>, offset: int) -> int {
    let n = count_at_most(starts, offset);
    if n == 0 {
        0
    } else {
        n - 1
    }
}

/// The line that contains `offset`.
pub fn line_for_offset(offset: u32, starts: &[u32]) -> (r: usize)
    requires
        nondecreasing(starts@),
    ensures
        r == line_of(starts@, offset as int),
        starts@.len() > 0 ==> r < starts@.len(),
        starts@.len() > 0 && starts@[0] <= offset ==> starts@[r as int] <= offset,
{
    let n = count_le(starts, offset as i64);
    if n == 0 {
        0
    } else {
        n - 1
    }
}

/// The line found starts at or before the offset, and the next line, if
/// there is one, starts after it.
pub proof fn law_line_of(starts: Seq<u32>, offset: int)
    requires
        nondecreasing(starts),
        starts.len() > 0,
        starts[0] <= offset,
    ensures
        0 <= line_of(starts, offset) < starts.len(),
        starts[line_of(starts, offset)] <= offset,
        line_of(starts, offset) + 1 < starts.len() ==> starts[line_of(starts, offset) + 1] > offset,
{
    lemma_count_exists(starts, offset);
}

proof fn lemma_count_exists(s: Seq<u32>, x: int)
    requires
        nondecreasing(s),
    ensures
        0 <= count_at_most(s, x) <= s.len(),
        forall|k: int| 0 <= k < count_at_most(s, x) ==> (#[trigger] s[k]) <= x,
        forall|k: int| count_at_most(s, x) <= k < s.len() ==> (#[trigger] s[k]) > x,
    decreases s.len(),
{
    if s.len() > 0 {
        if s.last() <= x {
            assert forall|k: int| 0 <= k < s.len() implies (#[trigger] s[k]) <= x by {
                assert(s[k] <= s[s.len() - 1]);
            }
        } else {
            let rest = s.drop_last();
            assert(nondecreasing(rest)) by {
                assert forall|i: int, j: int| 0 <= i <= j < rest.len() implies (#[trigger] rest[i]) <= (
                #[trigger] rest[j]) by {
                    assert(s[i] <= s[j]);
                }
            }
            lemma_count_exists(rest, x);
            assert forall|k: int| 0 <= k < count_at_most(s, x) implies (#[trigger] s[k]) <= x by {
                assert(rest[k] == s[k]);
            }
            assert forall|k: int| count_at_most(s, x) <= k < s.len() implies (#[trigger] s[k]) > x by {
                if k < rest.len() {
                    assert(rest[k] == s[k]);
                }
            }
        }
    }
}

} // verus!
