//! Binary search for an insertion point.

use vstd::prelude::*;

verus! {

/// A sequence of `i32` sorted in non-decreasing order.
pub open spec fn sorted(s: Seq<i32>) -> bool {
    forall|i: int, j: int| 0 <= i <= j < s.len() ==> s[i] <= s[j]
}

/// Leftmost insertion point of `x` in the sorted slice `a`: every element
/// before the result is less than `x`, every element from it on is not.
pub fn bisect(a: &[i32], x: &i32) -> (r: usize)
    requires
        sorted(a@),
    ensures
        r <= a@.len(),
        forall|k: int| 0 <= k < r ==> a@[k] < *x,
        forall|k: int| r <= k < a@.len() ==> a@[k] >= *x,
{
    let mut lo: usize = 0;
    let mut hi: usize = a.len();
    while lo < hi
        invariant
            lo <= hi <= a@.len(),
            sorted(a@),
            forall|k: int| 0 <= k < lo ==> a@[k] < *x,
            forall|k: int| hi <= k < a@.len() ==> a@[k] >= *x,
        decreases hi - lo,
    {
        let mid: usize = lo + (hi - lo) / 2;
        if a[mid] < *x {
            lo = mid + 1;
        } else {
            hi = mid;
        }
    }
    lo
}

} // verus!
