//! What holds of every chain of well-formed tables, stated over
//! `pipeline_lookup` and `pipeline_split`.

use vstd::prelude::*;
use crate::interval::{Interval, total_len, all_nonempty, lemma_total_len_concat};
use crate::range_table::{MapRange, entries_well_formed, table_wf, lookup, table_split};
use crate::range_laws::{
    lemma_lookup_in_range, lemma_lookup_rearranged, lemma_singleton_agrees,
    lemma_table_split_image, lemma_table_split_len, lemma_table_split_preimage,
};
use crate::pipeline::{all_wf, pipeline_lookup, pipeline_split, pipeline_wf, stage_split};

verus! {

/// A chain without tables hands every interval and every number back as it
/// is.
pub proof fn lemma_identity_pipeline(iv: Interval, x: int)
    ensures
        pipeline_split(Seq::<Seq<MapRange>>::empty(), seq![iv]) == seq![iv],
        pipeline_lookup(Seq::<Seq<MapRange>>::empty(), x) == x,
{
}

/// The image of a number under a chain fits in a `u64`.
pub proof fn lemma_pipeline_lookup_in_range(p: Seq<Seq<MapRange>>, x: int)
    requires
        pipeline_wf(p),
        0 <= x <= u64::MAX,
    ensures
        0 <= pipeline_lookup(p, x) <= u64::MAX,
    decreases p.len(),
{
    if p.len() > 0 {
        lemma_pipeline_lookup_in_range(p.drop_last(), x);
        assert(table_wf(p.last()));
        lemma_lookup_in_range(p.last(), pipeline_lookup(p.drop_last(), x));
    }
}

/// One table keeps the total length of a sequence of intervals, and leaves no
/// empty piece.
pub proof fn lemma_stage_split_len(s: Seq<MapRange>, ivs: Seq<Interval>)
    requires
        table_wf(s),
        all_wf(ivs),
    ensures
        total_len(stage_split(s, ivs)) == total_len(ivs),
        all_nonempty(stage_split(s, ivs)),
    decreases ivs.len(),
{
    if ivs.len() > 0 {
        lemma_stage_split_len(s, ivs.drop_last());
        lemma_table_split_len(s, ivs.last());
        lemma_total_len_concat(stage_split(s, ivs.drop_last()), table_split(s, ivs.last()));
    }
}

/// Coverage along the chain: at every table the total length stays what it
/// was.
pub proof fn lemma_pipeline_split_len(p: Seq<Seq<MapRange>>, ivs: Seq<Interval>)
    requires
        pipeline_wf(p),
        all_wf(ivs),
    ensures
        total_len(pipeline_split(p, ivs)) == total_len(ivs),
        all_wf(pipeline_split(p, ivs)),
        p.len() > 0 ==> all_nonempty(pipeline_split(p, ivs)),
    decreases p.len(),
{
    if p.len() > 0 {
        lemma_pipeline_split_len(p.drop_last(), ivs);
        assert(table_wf(p.last()));
        lemma_stage_split_len(p.last(), pipeline_split(p.drop_last(), ivs));
    }
}

/// The image of a number of `ivs[i]` lies in one of the pieces that the table
/// makes of `ivs`.
pub proof fn lemma_stage_image(s: Seq<MapRange>, ivs: Seq<Interval>, i: int, x: int) -> (q: int)
    requires
        table_wf(s),
        0 <= i < ivs.len(),
        ivs[i].contains(x),
    ensures
        0 <= q < stage_split(s, ivs).len(),
        stage_split(s, ivs)[q].contains(lookup(s, x)),
    decreases ivs.len(),
{
    let head = stage_split(s, ivs.drop_last());
    if i == ivs.len() - 1 {
        let q = lemma_table_split_image(s, ivs.last(), x);
        head.len() + q
    } else {
        assert(ivs.drop_last()[i] == ivs[i]);
        lemma_stage_image(s, ivs.drop_last(), i, x)
    }
}

/// Every number of a piece that the table makes of `ivs` is the image of a
/// number of one of `ivs`.
pub proof fn lemma_stage_preimage(s: Seq<MapRange>, ivs: Seq<Interval>, q: int, y: int) -> (r: (
    int,
    int,
))
    requires
        table_wf(s),
        all_wf(ivs),
        0 <= q < stage_split(s, ivs).len(),
        stage_split(s, ivs)[q].contains(y),
    ensures
        0 <= r.0 < ivs.len(),
        ivs[r.0].contains(r.1),
        lookup(s, r.1) == y,
    decreases ivs.len(),
{
    let head = stage_split(s, ivs.drop_last());
    if q < head.len() {
        let r = lemma_stage_preimage(s, ivs.drop_last(), q, y);
        assert(ivs.drop_last()[r.0] == ivs[r.0]);
        r
    } else {
        let x = lemma_table_split_preimage(s, ivs.last(), q - head.len(), y);
        (ivs.len() - 1, x)
    }
}

/// The image of a number of `ivs[i]` under the chain lies in one of the
/// intervals that the chain makes of `ivs`.
pub proof fn lemma_pipeline_image(p: Seq<Seq<MapRange>>, ivs: Seq<Interval>, i: int, x: int) -> (q:
    int)
    requires
        pipeline_wf(p),
        0 <= i < ivs.len(),
        ivs[i].contains(x),
    ensures
        0 <= q < pipeline_split(p, ivs).len(),
        pipeline_split(p, ivs)[q].contains(pipeline_lookup(p, x)),
    decreases p.len(),
{
    if p.len() == 0 {
        i
    } else {
        let mid = lemma_pipeline_image(p.drop_last(), ivs, i, x);
        assert(table_wf(p.last()));
        lemma_stage_image(
            p.last(),
            pipeline_split(p.drop_last(), ivs),
            mid,
            pipeline_lookup(p.drop_last(), x),
        )
    }
}

/// Every number of an interval that the chain makes of `ivs` is the image of
/// a number of one of `ivs`.
pub proof fn lemma_pipeline_preimage(p: Seq<Seq<MapRange>>, ivs: Seq<Interval>, q: int, y: int) -> (r:
    (int, int))
    requires
        pipeline_wf(p),
        all_wf(ivs),
        0 <= q < pipeline_split(p, ivs).len(),
        pipeline_split(p, ivs)[q].contains(y),
    ensures
        0 <= r.0 < ivs.len(),
        ivs[r.0].contains(r.1),
        pipeline_lookup(p, r.1) == y,
    decreases p.len(),
{
    if p.len() == 0 {
        (q, y)
    } else {
        assert(table_wf(p.last()));
        lemma_pipeline_split_len(p.drop_last(), ivs);
        let mid = lemma_stage_preimage(p.last(), pipeline_split(p.drop_last(), ivs), q, y);
        lemma_pipeline_preimage(p.drop_last(), ivs, mid.0, mid.1)
    }
}

/// Where a chain sends a number does not depend on the order in which the
/// entries of its tables are written down.
pub proof fn lemma_pipeline_lookup_rearranged(p: Seq<Seq<MapRange>>, q: Seq<Seq<MapRange>>, x: int)
    requires
        p.len() == q.len(),
        forall|i: int| 0 <= i < p.len() ==> entries_well_formed(#[trigger] p[i]),
        forall|i: int| 0 <= i < p.len() ==> (#[trigger] p[i]).to_multiset() == q[i].to_multiset(),
    ensures
        pipeline_lookup(p, x) == pipeline_lookup(q, x),
    decreases p.len(),
{
    if p.len() > 0 {
        assert forall|i: int| 0 <= i < p.drop_last().len() implies (#[trigger] p.drop_last()[i]).to_multiset()
            == q.drop_last()[i].to_multiset() && entries_well_formed(p.drop_last()[i]) by {
            assert(p.drop_last()[i] == p[i]);
            assert(q.drop_last()[i] == q[i]);
        }
        lemma_pipeline_lookup_rearranged(p.drop_last(), q.drop_last(), x);
        assert(entries_well_formed(p[p.len() - 1]));
        assert(p[p.len() - 1].to_multiset() == q[p.len() - 1].to_multiset());
        lemma_lookup_rearranged(p.last(), q.last(), pipeline_lookup(p.drop_last(), x));
    }
}

/// Agreement of the two ways through a chain: the image of the interval that
/// holds `x` alone is the one interval that holds the image of `x` alone.
pub proof fn lemma_pipeline_singleton_agrees(p: Seq<Seq<MapRange>>, x: u64)
    requires
        pipeline_wf(p),
        x < u64::MAX,
    ensures
        pipeline_split(p, seq![Interval { start: x, end: (x + 1) as u64 }]) == seq![
            Interval {
                start: pipeline_lookup(p, x as int) as u64,
                end: (pipeline_lookup(p, x as int) + 1) as u64,
            },
        ],
        0 <= pipeline_lookup(p, x as int) < u64::MAX,
    decreases p.len(),
{
    if p.len() > 0 {
        lemma_pipeline_singleton_agrees(p.drop_last(), x);
        assert(table_wf(p.last()));
        let y = pipeline_lookup(p.drop_last(), x as int) as u64;
        let mid = seq![Interval { start: y, end: (y + 1) as u64 }];
        lemma_singleton_agrees(p.last(), y);
        assert(mid.drop_last() =~= Seq::<Interval>::empty());
        assert(stage_split(p.last(), mid.drop_last()) =~= Seq::<Interval>::empty());
        assert(stage_split(p.last(), mid) =~= table_split(p.last(), mid.last()));
    }
}

} // verus!
