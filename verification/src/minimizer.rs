use vstd::prelude::*;
use crate::error::RangeError;
use crate::interval::Interval;

verus! {

/// `m` is one of `values` and none of them is smaller.
pub open spec fn is_minimum(values: Seq<u64>, m: u64) -> bool {
    &&& exists|i: int| 0 <= i < values.len() && values[i] == m
    &&& forall|i: int| 0 <= i < values.len() ==> m <= values[i]
}

/// `m` is the start of one of `intervals` and none of them starts lower.
pub open spec fn is_minimum_start(intervals: Seq<Interval>, m: u64) -> bool {
    &&& exists|i: int| 0 <= i < intervals.len() && (#[trigger] intervals[i]).start == m
    &&& forall|i: int| 0 <= i < intervals.len() ==> m <= (#[trigger] intervals[i]).start
}

/// The smallest of `values`; `EmptyDomain` when there is none.
pub fn minimum(values: &[u64]) -> (r: Result<u64, RangeError>)
    ensures
        match r {
            Ok(m) => is_minimum(values@, m),
            Err(e) => e == RangeError::EmptyDomain && values@.len() == 0,
        },
{
    let n: usize = values.len();
    if n == 0 {
        return Err(RangeError::EmptyDomain);
    }
    let mut best: u64 = values[0];
    let mut i: usize = 1;
    while i < n
        invariant
            n == values@.len(),
            1 <= i <= n,
            exists|j: int| 0 <= j < i && values@[j] == best,
            forall|j: int| 0 <= j < i ==> best <= values@[j],
        decreases n - i,
    {
        if values[i] < best {
            best = values[i];
        }
        i += 1;
    }
    Ok(best)
}

/// The smallest start among `intervals`; `EmptyDomain` when there is none.
pub fn minimum_start(intervals: &[Interval]) -> (r: Result<u64, RangeError>)
    ensures
        match r {
            Ok(m) => is_minimum_start(intervals@, m),
            Err(e) => e == RangeError::EmptyDomain && intervals@.len() == 0,
        },
{
    let n: usize = intervals.len();
    if n == 0 {
        return Err(RangeError::EmptyDomain);
    }
    let mut best: u64 = intervals[0].start;
    let mut i: usize = 1;
    while i < n
        invariant
            n == intervals@.len(),
            1 <= i <= n,
            exists|j: int| 0 <= j < i && (#[trigger] intervals@[j]).start == best,
            forall|j: int| 0 <= j < i ==> best <= (#[trigger] intervals@[j]).start,
        decreases n - i,
    {
        if intervals[i].start < best {
            best = intervals[i].start;
        }
        i += 1;
    }
    Ok(best)
}

} // verus!
