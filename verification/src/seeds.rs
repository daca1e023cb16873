use vstd::prelude::*;
use crate::error::RangeError;
use crate::interval::{Interval, total_len};
use crate::minimizer::minimum_start;
use crate::pipeline::{Pipeline, pipeline_lookup, pipeline_wf};
use crate::pipeline_laws::{lemma_pipeline_image, lemma_pipeline_preimage};
use crate::range_table::MapRange;

verus! {

/// The numbers to send through a chain: single numbers, or ranges given as
/// pairs of a start and a length.
#[derive(Debug, PartialEq, Eq)]
pub enum SeedSpec {
    Scalars(Vec<u64>),
    Ranges(Vec<(u64, u64)>),
}

/// `x` is one of `values`.
pub open spec fn in_scalars(values: Seq<u64>, x: int) -> bool {
    exists|i: int| 0 <= i < values.len() && #[trigger] values[i] == x
}

/// `x` lies in one of the ranges `pairs`.
pub open spec fn in_ranges(pairs: Seq<(u64, u64)>, x: int) -> bool {
    exists|i: int| 0 <= i < pairs.len() && (#[trigger] pairs[i]).0 <= x < pairs[i].0 + pairs[i].1
}

/// Every range of `pairs` ends at or below `u64::MAX`.
pub open spec fn ranges_representable(pairs: Seq<(u64, u64)>) -> bool {
    forall|i: int| 0 <= i < pairs.len() ==> (#[trigger] pairs[i]).0 + pairs[i].1 <= u64::MAX
}

impl SeedSpec {
    /// `x` is one of the numbers that the seeds stand for.
    pub open spec fn holds(self, x: int) -> bool {
        match self {
            SeedSpec::Scalars(values) => in_scalars(values@, x),
            SeedSpec::Ranges(pairs) => in_ranges(pairs@, x),
        }
    }

    /// Every range of the seeds ends at or below `u64::MAX`.
    pub open spec fn representable(self) -> bool {
        match self {
            SeedSpec::Scalars(_) => true,
            SeedSpec::Ranges(pairs) => ranges_representable(pairs@),
        }
    }
}

/// `m` is the image of one of `values` under the chain `p`, and none of them
/// has a lower image.
pub open spec fn is_lowest_of_scalars(p: Seq<Seq<MapRange>>, values: Seq<u64>, m: int) -> bool {
    &&& exists|x: int| in_scalars(values, x) && #[trigger] pipeline_lookup(p, x) == m
    &&& forall|x: int| in_scalars(values, x) ==> m <= #[trigger] pipeline_lookup(p, x)
}

/// `m` is the image of a number in `pairs` under the chain `p`, and no number
/// in `pairs` has a lower image.
pub open spec fn is_lowest_of_ranges(p: Seq<Seq<MapRange>>, pairs: Seq<(u64, u64)>, m: int) -> bool {
    &&& exists|x: int| in_ranges(pairs, x) && #[trigger] pipeline_lookup(p, x) == m
    &&& forall|x: int| in_ranges(pairs, x) ==> m <= #[trigger] pipeline_lookup(p, x)
}

/// `m` is the lowest image under the chain `p` of the numbers that `seeds`
/// stands for.
pub open spec fn is_lowest(p: Seq<Seq<MapRange>>, seeds: SeedSpec, m: int) -> bool {
    match seeds {
        SeedSpec::Scalars(values) => is_lowest_of_scalars(p, values@, m),
        SeedSpec::Ranges(pairs) => is_lowest_of_ranges(p, pairs@, m),
    }
}

/// One more value adds itself to the numbers held.
proof fn lemma_in_scalars_step(values: Seq<u64>, k: int, x: int)
    requires
        0 <= k < values.len(),
    ensures
        in_scalars(values.take(k + 1), x) <==> in_scalars(values.take(k), x) || values[k] == x,
{
    if in_scalars(values.take(k + 1), x) {
        let i = choose|i: int| 0 <= i < k + 1 && #[trigger] values.take(k + 1)[i] == x;
        if i < k {
            assert(values.take(k)[i] == x);
        }
    }
    if in_scalars(values.take(k), x) {
        let i = choose|i: int| 0 <= i < k && #[trigger] values.take(k)[i] == x;
        assert(values.take(k + 1)[i] == x);
    }
    if values[k] == x {
        assert(values.take(k + 1)[k] == x);
    }
}

/// One more range adds its numbers to the numbers held.
proof fn lemma_in_ranges_step(pairs: Seq<(u64, u64)>, k: int, x: int)
    requires
        0 <= k < pairs.len(),
    ensures
        in_ranges(pairs.take(k + 1), x) <==> in_ranges(pairs.take(k), x) || pairs[k].0 <= x
            < pairs[k].0 + pairs[k].1,
{
    let more = pairs.take(k + 1);
    let less = pairs.take(k);
    if in_ranges(more, x) {
        let i = choose|i: int| 0 <= i < more.len() && (#[trigger] more[i]).0 <= x < more[i].0 + more[i].1;
        if i < k {
            assert(less[i] == more[i]);
        }
    }
    if in_ranges(less, x) {
        let i = choose|i: int| 0 <= i < less.len() && (#[trigger] less[i]).0 <= x < less[i].0 + less[i].1;
        assert(more[i] == less[i]);
    }
    if pairs[k].0 <= x < pairs[k].0 + pairs[k].1 {
        assert(more[k] == pairs[k]);
    }
}

/// The lowest image under `pipeline` of the single numbers `values`;
/// `EmptyDomain` when there is none.
pub fn lowest_of_scalars(pipeline: &Pipeline, values: &Vec<u64>) -> (r: Result<u64, RangeError>)
    ensures
        match r {
            Ok(m) => is_lowest_of_scalars(pipeline@, values@, m as int),
            Err(e) => e == RangeError::EmptyDomain && values@.len() == 0,
        },
{
    let n: usize = values.len();
    if n == 0 {
        return Err(RangeError::EmptyDomain);
    }
    let mut best: u64 = pipeline.apply_scalar(values[0]);
    let mut k: usize = 1;
    proof {
        assert(values@.take(1)[0] == values@[0]);
        assert(in_scalars(values@.take(1), values@[0] as int));
        assert forall|x: int| in_scalars(values@.take(1), x) implies best <= #[trigger] pipeline_lookup(
            pipeline@,
            x,
        ) by {
            let i = choose|i: int| 0 <= i < 1 && #[trigger] values@.take(1)[i] == x;
        }
    }
    while k < n
        invariant
            n == values@.len(),
            1 <= k <= n,
            is_lowest_of_scalars(pipeline@, values@.take(k as int), best as int),
        decreases n - k,
    {
        let y: u64 = pipeline.apply_scalar(values[k]);
        let ghost old_best = best;
        if y < best {
            best = y;
        }
        proof {
            let p = pipeline@;
            let x0 = choose|x: int|
                in_scalars(values@.take(k as int), x) && #[trigger] pipeline_lookup(p, x) == old_best;
            lemma_in_scalars_step(values@, k as int, x0);
            lemma_in_scalars_step(values@, k as int, values@[k as int] as int);
            if y < old_best {
                assert(in_scalars(values@.take(k + 1), values@[k as int] as int) && pipeline_lookup(
                    p,
                    values@[k as int] as int,
                ) == best);
            } else {
                assert(in_scalars(values@.take(k + 1), x0) && pipeline_lookup(p, x0) == best);
            }
            assert forall|x: int| in_scalars(values@.take(k + 1), x) implies best
                <= #[trigger] pipeline_lookup(p, x) by {
                lemma_in_scalars_step(values@, k as int, x);
            }
        }
        k += 1;
    }
    proof {
        assert(values@.take(n as int) =~= values@);
    }
    Ok(best)
}

/// The lowest image under `pipeline` of all the numbers in the ranges
/// `pairs`, each a start and a length. No number is visited by itself: each
/// range goes through the chain as a whole.
///
/// Fails with `ArithmeticOverflow` when a range reaches beyond `u64::MAX`,
/// and otherwise with `EmptyDomain` when the ranges hold no number.
pub fn lowest_of_ranges(pipeline: &Pipeline, pairs: &Vec<(u64, u64)>) -> (r: Result<u64, RangeError>)
    ensures
        match r {
            Ok(m) => ranges_representable(pairs@) && is_lowest_of_ranges(pipeline@, pairs@, m as int),
            Err(RangeError::ArithmeticOverflow) => !ranges_representable(pairs@),
            Err(RangeError::EmptyDomain) => {
                &&& ranges_representable(pairs@)
                &&& forall|x: int| !in_ranges(pairs@, x)
            },
            Err(RangeError::MalformedTable) => false,
        },
{
    proof {
        use_type_invariant(pipeline);
    }
    let n: usize = pairs.len();
    let mut best: Option<u64> = None;
    let mut k: usize = 0;
    while k < n
        invariant
            n == pairs@.len(),
            k <= n,
            pipeline_wf(pipeline@),
            ranges_representable(pairs@.take(k as int)),
            match best {
                Some(m) => is_lowest_of_ranges(pipeline@, pairs@.take(k as int), m as int),
                None => forall|x: int| !in_ranges(pairs@.take(k as int), x),
            },
        decreases n - k,
    {
        let start: u64 = pairs[k].0;
        let length: u64 = pairs[k].1;
        if length > u64::MAX - start {
            proof {
                assert(pairs@[k as int].0 + pairs@[k as int].1 > u64::MAX);
            }
            return Err(RangeError::ArithmeticOverflow);
        }
        let ghost p = pipeline@;
        let ghost old_best = best;
        proof {
            assert forall|i: int| 0 <= i < k + 1 implies (#[trigger] pairs@.take(k + 1)[i]).0
                + pairs@.take(k + 1)[i].1 <= u64::MAX by {
                if i < k {
                    assert(pairs@.take(k as int)[i] == pairs@.take(k + 1)[i]);
                }
            }
        }
        if length > 0 {
            let iv = Interval { start, end: start + length };
            let out: Vec<Interval> = pipeline.apply(iv);
            proof {
                if out@.len() == 0 {
                    assert(total_len(out@) == 0);
                }
            }
            let here: u64 = match minimum_start(out.as_slice()) {
                Ok(m) => m,
                Err(e) => {
                    return Err(e);
                },
            };
            proof {
                let q = choose|q: int| 0 <= q < out@.len() && (#[trigger] out@[q]).start == here;
                assert(out@[q].contains(here as int));
                let w = lemma_pipeline_preimage(p, seq![iv], q, here as int);
                assert(iv.contains(w.1));
                assert forall|x: int| iv.contains(x) implies here <= #[trigger] pipeline_lookup(
                    p,
                    x,
                ) by {
                    let q2 = lemma_pipeline_image(p, seq![iv], 0, x);
                    assert(out@[q2].start <= pipeline_lookup(p, x));
                }
                lemma_in_ranges_step(pairs@, k as int, w.1);
            }
            let better: bool = match best {
                Some(m) => here < m,
                None => true,
            };
            if better {
                best = Some(here);
            }
            proof {
                let less = pairs@.take(k as int);
                let more = pairs@.take(k + 1);
                let m_new = best.unwrap();
                let w = choose|x: int| iv.contains(x) && #[trigger] pipeline_lookup(p, x) == here;
                lemma_in_ranges_step(pairs@, k as int, w);
                if better {
                    assert(in_ranges(more, w) && pipeline_lookup(p, w) == m_new);
                } else {
                    let x0 = choose|x: int|
                        in_ranges(less, x) && #[trigger] pipeline_lookup(p, x) == old_best.unwrap();
                    lemma_in_ranges_step(pairs@, k as int, x0);
                    assert(in_ranges(more, x0) && pipeline_lookup(p, x0) == m_new);
                }
                assert forall|x: int| in_ranges(more, x) implies m_new <= #[trigger] pipeline_lookup(
                    p,
                    x,
                ) by {
                    lemma_in_ranges_step(pairs@, k as int, x);
                }
            }
        } else {
            proof {
                let less = pairs@.take(k as int);
                let more = pairs@.take(k + 1);
                assert forall|x: int| in_ranges(more, x) == in_ranges(less, x) by {
                    lemma_in_ranges_step(pairs@, k as int, x);
                }
                match best {
                    Some(m) => {
                        let x0 = choose|x: int|
                            in_ranges(less, x) && #[trigger] pipeline_lookup(p, x) == m;
                        assert(in_ranges(more, x0) && pipeline_lookup(p, x0) == m);
                    },
                    None => {},
                }
            }
        }
        k += 1;
    }
    proof {
        assert(pairs@.take(n as int) =~= pairs@);
    }
    match best {
        Some(m) => Ok(m),
        None => Err(RangeError::EmptyDomain),
    }
}

/// The lowest number that the chain makes of the numbers `seeds` stands for:
/// of each single number its image, of each range all the images of its
/// numbers.
///
/// Fails with `ArithmeticOverflow` when a range reaches beyond `u64::MAX`,
/// and otherwise with `EmptyDomain` when `seeds` stands for no number.
pub fn evaluate(pipeline: &Pipeline, seeds: &SeedSpec) -> (r: Result<u64, RangeError>)
    ensures
        match r {
            Ok(m) => seeds.representable() && is_lowest(pipeline@, *seeds, m as int),
            Err(RangeError::ArithmeticOverflow) => !seeds.representable(),
            Err(RangeError::EmptyDomain) => {
                &&& seeds.representable()
                &&& forall|x: int| !seeds.holds(x)
            },
            Err(RangeError::MalformedTable) => false,
        },
{
    match seeds {
        SeedSpec::Scalars(values) => {
            let r = lowest_of_scalars(pipeline, values);
            proof {
                if values@.len() == 0 {
                    assert forall|x: int| !seeds.holds(x) by {}
                }
            }
            r
        },
        SeedSpec::Ranges(pairs) => lowest_of_ranges(pipeline, pairs),
    }
}

} // verus!
