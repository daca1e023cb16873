use vstd::prelude::*;

verus! {

/// A half-open range `[start, end)` of numbers.
#[derive(Clone, Copy, Debug, PartialEq, Eq)]
pub struct Interval {
    pub start: u64,
    pub end: u64,
}

impl Interval {
    /// The bounds are in order.
    pub open spec fn wf(self) -> bool {
        self.start <= self.end
    }

    /// The number of points in the interval.
    pub open spec fn spec_len(self) -> int {
        self.end - self.start
    }

    /// `x` lies in the interval.
    pub open spec fn contains(self, x: int) -> bool {
        self.start <= x < self.end
    }

    /// The interval `[start, end)`, or `None` when the bounds are out of order.
    pub fn new(start: u64, end: u64) -> (r: Option<Interval>)
        ensures
            r == (if start <= end {
                Some(Interval { start, end })
            } else {
                None
            }),
    {
        if start <= end {
            Some(Interval { start, end })
        } else {
            None
        }
    }

    /// The number of points in the interval.
    pub fn len(&self) -> (n: u64)
        requires
            self.wf(),
        ensures
            n == self.spec_len(),
    {
        self.end - self.start
    }

    /// Whether the interval holds no point.
    pub fn is_empty(&self) -> (b: bool)
        ensures
            b == (self.start >= self.end),
    {
        self.start >= self.end
    }
}

/// The total number of points in a sequence of intervals, counted with
/// multiplicity.
pub open spec fn total_len(ivs: Seq<Interval>) -> int
    decreases ivs.len(),
{
    if ivs.len() == 0 {
        0
    } else {
        total_len(ivs.drop_last()) + ivs.last().spec_len()
    }
}

/// Every interval of the sequence has its bounds in order and holds a point.
pub open spec fn all_nonempty(ivs: Seq<Interval>) -> bool {
    forall|i: int| 0 <= i < ivs.len() ==> (#[trigger] ivs[i]).start < ivs[i].end
}

/// The total length of a concatenation is the sum of the total lengths.
pub proof fn lemma_total_len_concat(a: Seq<Interval>, b: Seq<Interval>)
    ensures
        total_len(a + b) == total_len(a) + total_len(b),
    decreases b.len(),
{
    if b.len() == 0 {
        assert(a + b =~= a);
    } else {
        lemma_total_len_concat(a, b.drop_last());
        assert((a + b).drop_last() =~= a + b.drop_last());
        assert((a + b).last() == b.last());
    }
}

/// The total length of a single interval is its length.
pub proof fn lemma_total_len_single(iv: Interval)
    ensures
        total_len(seq![iv]) == iv.spec_len(),
{
    assert(seq![iv].drop_last() =~= Seq::<Interval>::empty());
    assert(total_len(Seq::<Interval>::empty()) == 0);
}

/// Appending one interval adds its length to the total.
pub proof fn lemma_total_len_push(a: Seq<Interval>, iv: Interval)
    ensures
        total_len(a.push(iv)) == total_len(a) + iv.spec_len(),
{
    assert(a.push(iv).drop_last() =~= a);
    assert(a.push(iv).last() == iv);
}

} // verus!
