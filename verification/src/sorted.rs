//! Order predicates and search over sorted tile-identifier sequences.

use vstd::prelude::*;

verus! {

/// Non-decreasing order over a sequence of tile identifiers.
pub open spec fn sorted(s: Seq<u16>) -> bool {
    forall|i: int, j: int| 0 <= i < j < s.len() ==> s[i] <= s[j]
}

/// Strictly increasing order: non-decreasing and free of duplicates.
pub open spec fn strictly_sorted(s: Seq<u16>) -> bool {
    forall|i: int, j: int| 0 <= i < j < s.len() ==> s[i] < s[j]
}

/// Membership in a sorted slice, decided by binary search.
pub fn sorted_contains(s: &[u16], x: u16) -> (found: bool)
    requires
        sorted(s@),
    ensures
        found == s@.contains(x),
{
    let mut lo: usize = 0;
    let mut hi: usize = s.len();
    while lo < hi
        invariant
            lo <= hi <= s@.len(),
            sorted(s@),
            forall|i: int| 0 <= i < lo ==> s@[i] < x,
            forall|i: int| hi <= i < s@.len() ==> x < s@[i],
        decreases hi - lo,
    {
        let mid: usize = lo + (hi - lo) / 2;
        let v: u16 = s[mid];
        if v == x {
            assert(s@.contains(x)) by {
                assert(s@[mid as int] == x);
            }
            return true;
        } else if v < x {
            lo = mid + 1;
        } else {
            hi = mid;
        }
    }
    proof {
        if s@.contains(x) {
            let i = choose|i: int| 0 <= i < s@.len() && s@[i] == x;
            assert(false);
        }
    }
    false
}

} // verus!
