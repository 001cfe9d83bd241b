//! Where a value lies between the points of a curve.

use vstd::prelude::*;

verus! {

/// The points before and behind a value: the last point that is not greater, and
/// the next. The points and the value are given by numbers that are ordered as
/// they are; the value lies at or behind the first point and before the last.
pub fn find_segment(points: &Vec<i64>, value: i64) -> (r: (usize, usize))
    requires
        points@.len() >= 2,
        forall|i: int, j: int|
            0 <= i < j < points@.len() ==> #[trigger] points@[i] <= #[trigger] points@[j],
        points@[0] <= value,
        value < points@[points@.len() - 1],
    ensures
        r.1 == r.0 + 1,
        r.1 < points@.len(),
        points@[r.0 as int] <= value < points@[r.1 as int],
{
    let mut lo: usize = 0;
    let mut hi: usize = points.len() - 1;
    while hi - lo > 1
        invariant
            lo < hi < points@.len(),
            points@[lo as int] <= value < points@[hi as int],
        decreases hi - lo,
    {
        let mid: usize = lo + (hi - lo) / 2;
        if points[mid] <= value {
            lo = mid;
        } else {
            hi = mid;
        }
    }
    (lo, hi)
}

} // verus!
