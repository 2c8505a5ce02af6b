//! Arithmetic on half-open integer ranges, used for clipping.
use std::ops::Range;
use vstd::prelude::*;

verus! {

/// Shifts both ends of `r` by `d`.
pub fn add(r: Range<i32>, d: i32) -> (out: Range<i32>)
    requires
        i32::MIN <= r.start + d <= i32::MAX,
        i32::MIN <= r.end + d <= i32::MAX,
    ensures
        out.start == r.start + d,
        out.end == r.end + d,
{
    (r.start + d)..(r.end + d)
}

/// The largest range contained in both `a` and `b` (empty when `out.start >= out.end`).
pub fn intersect(a: Range<i32>, b: Range<i32>) -> (out: Range<i32>)
    ensures
        out.start == if a.start >= b.start { a.start } else { b.start },
        out.end == if a.end <= b.end { a.end } else { b.end },
{
    let start = if a.start >= b.start { a.start } else { b.start };
    let end = if a.end <= b.end { a.end } else { b.end };
    start..end
}

} // verus!
