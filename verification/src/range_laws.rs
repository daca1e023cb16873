//! What holds of every well-formed table, stated over `lookup` and
//! `table_split`.

use vstd::prelude::*;
use crate::interval::{
    Interval, total_len, all_nonempty, lemma_total_len_concat, lemma_total_len_single,
};
use crate::range_table::{
    MapRange, entries_well_formed, table_wf, lookup, split_from, table_split,
    lemma_lookup_covered, lemma_rearranged_member, lemma_sorted_entries_unique,
    lemma_well_formed_rearranged,
};

verus! {

/// A number that no entry covers maps to itself.
pub proof fn lemma_lookup_uncovered(s: Seq<MapRange>, x: int)
    requires
        forall|i: int| 0 <= i < s.len() ==> !(#[trigger] s[i]).covers(x),
    ensures
        lookup(s, x) == x,
{
}

/// The image of a number under a table fits in a `u64`.
pub proof fn lemma_lookup_in_range(s: Seq<MapRange>, x: int)
    requires
        table_wf(s),
        0 <= x <= u64::MAX,
    ensures
        0 <= lookup(s, x) <= u64::MAX,
{
    if exists|i: int| 0 <= i < s.len() && (#[trigger] s[i]).covers(x) {
        let i = choose|i: int| 0 <= i < s.len() && (#[trigger] s[i]).covers(x);
        assert(s[i].representable());
    }
}

/// The pieces cut from `[cursor, end)` are non-empty and together as long as
/// the stretch they are cut from.
pub proof fn lemma_split_from_len(s: Seq<MapRange>, k: int, cursor: int, end: int)
    requires
        table_wf(s),
        0 <= k <= s.len(),
        0 <= cursor <= end <= u64::MAX,
    ensures
        total_len(split_from(s, k, cursor, end)) == end - cursor,
        all_nonempty(split_from(s, k, cursor, end)),
    decreases s.len() - k,
{
    let out = split_from(s, k, cursor, end);
    if cursor >= end {
    } else if k >= s.len() {
        lemma_total_len_single(Interval { start: cursor as u64, end: end as u64 });
    } else if s[k].source_end() <= cursor {
        lemma_split_from_len(s, k + 1, cursor, end);
    } else if end <= s[k].source_start {
        lemma_total_len_single(Interval { start: cursor as u64, end: end as u64 });
    } else {
        let e = s[k];
        assert(e.representable());
        let lo = if cursor < e.source_start { e.source_start as int } else { cursor };
        let hi = if end < e.source_end() { end } else { e.source_end() };
        let before = if cursor < e.source_start {
            seq![Interval { start: cursor as u64, end: e.source_start }]
        } else {
            Seq::empty()
        };
        let moved = Interval { start: e.translate(lo) as u64, end: e.translate(hi) as u64 };
        let rest = split_from(s, k + 1, hi, end);
        lemma_split_from_len(s, k + 1, hi, end);
        lemma_total_len_concat(before + seq![moved], rest);
        lemma_total_len_concat(before, seq![moved]);
        lemma_total_len_single(moved);
        if cursor < e.source_start {
            lemma_total_len_single(Interval { start: cursor as u64, end: e.source_start });
        }
        assert(out == before + seq![moved] + rest);
    }
}

/// Coverage: the image of an interval is as long as the interval, and none of
/// its pieces is empty.
pub proof fn lemma_table_split_len(s: Seq<MapRange>, iv: Interval)
    requires
        table_wf(s),
        iv.wf(),
    ensures
        total_len(table_split(s, iv)) == iv.spec_len(),
        all_nonempty(table_split(s, iv)),
{
    lemma_split_from_len(s, 0, iv.start as int, iv.end as int);
}

/// The one piece cut from the stretch that holds `x` alone is the one that
/// holds the image of `x` alone.
proof fn lemma_split_from_point(s: Seq<MapRange>, k: int, x: int)
    requires
        table_wf(s),
        0 <= k <= s.len(),
        0 <= x < u64::MAX,
        forall|i: int| 0 <= i < k ==> (#[trigger] s[i]).source_end() <= x,
    ensures
        split_from(s, k, x, x + 1) == seq![
            Interval { start: lookup(s, x) as u64, end: (lookup(s, x) + 1) as u64 },
        ],
    decreases s.len() - k,
{
    if k >= s.len() {
        lemma_lookup_uncovered(s, x);
    } else if s[k].source_end() <= x {
        lemma_split_from_point(s, k + 1, x);
    } else if x + 1 <= s[k].source_start {
        assert forall|i: int| 0 <= i < s.len() implies !(#[trigger] s[i]).covers(x) by {
            if i > k {
                assert(s[k].source_start <= s[i].source_start);
            }
        }
        lemma_lookup_uncovered(s, x);
    } else {
        lemma_lookup_covered(s, x, k);
        assert(split_from(s, k + 1, x + 1, x + 1) =~= Seq::<Interval>::empty());
        assert(split_from(s, k, x, x + 1) =~= seq![
            Interval { start: lookup(s, x) as u64, end: (lookup(s, x) + 1) as u64 },
        ]);
    }
}

/// Agreement of the two ways through a table: the image of the interval that
/// holds `x` alone is the one interval that holds the image of `x` alone.
pub proof fn lemma_singleton_agrees(s: Seq<MapRange>, x: u64)
    requires
        table_wf(s),
        x < u64::MAX,
    ensures
        table_split(s, Interval { start: x, end: (x + 1) as u64 }) == seq![
            Interval { start: lookup(s, x as int) as u64, end: (lookup(s, x as int) + 1) as u64 },
        ],
        0 <= lookup(s, x as int) < u64::MAX,
{
    lemma_split_from_point(s, 0, x as int);
    lemma_split_from_len(s, 0, x as int, x + 1);
    let out = table_split(s, Interval { start: x, end: (x + 1) as u64 });
    lemma_lookup_in_range(s, x as int);
    assert(out[0].start < out[0].end);
}

/// Every number of `[cursor, end)` has its image in one of the pieces.
pub proof fn lemma_split_from_image(s: Seq<MapRange>, k: int, cursor: int, end: int, x: int) -> (p: int)
    requires
        table_wf(s),
        0 <= k <= s.len(),
        0 <= cursor <= x < end <= u64::MAX,
        forall|i: int| 0 <= i < k ==> (#[trigger] s[i]).source_end() <= cursor,
    ensures
        0 <= p < split_from(s, k, cursor, end).len(),
        split_from(s, k, cursor, end)[p].contains(lookup(s, x)),
    decreases s.len() - k,
{
    if k >= s.len() {
        lemma_lookup_uncovered(s, x);
        0
    } else if s[k].source_end() <= cursor {
        lemma_split_from_image(s, k + 1, cursor, end, x)
    } else if end <= s[k].source_start {
        assert forall|i: int| 0 <= i < s.len() implies !(#[trigger] s[i]).covers(x) by {
            if i > k {
                assert(s[k].source_start <= s[i].source_start);
            }
        }
        lemma_lookup_uncovered(s, x);
        0
    } else {
        let e = s[k];
        assert(e.representable());
        let hi = if end < e.source_end() { end } else { e.source_end() };
        if x < e.source_start {
            assert forall|i: int| 0 <= i < s.len() implies !(#[trigger] s[i]).covers(x) by {
                if i > k {
                    assert(s[k].source_start <= s[i].source_start);
                }
            }
            lemma_lookup_uncovered(s, x);
            0
        } else if x < hi {
            lemma_lookup_covered(s, x, k);
            if cursor < e.source_start {
                1
            } else {
                0
            }
        } else {
            let q = lemma_split_from_image(s, k + 1, hi, end, x);
            if cursor < e.source_start {
                q + 2
            } else {
                q + 1
            }
        }
    }
}

/// Every number of a piece is the image of a number of `[cursor, end)`.
pub proof fn lemma_split_from_preimage(
    s: Seq<MapRange>,
    k: int,
    cursor: int,
    end: int,
    p: int,
    y: int,
) -> (x: int)
    requires
        table_wf(s),
        0 <= k <= s.len(),
        0 <= cursor <= end <= u64::MAX,
        forall|i: int| 0 <= i < k ==> (#[trigger] s[i]).source_end() <= cursor,
        0 <= p < split_from(s, k, cursor, end).len(),
        split_from(s, k, cursor, end)[p].contains(y),
    ensures
        cursor <= x < end,
        lookup(s, x) == y,
    decreases s.len() - k,
{
    if k >= s.len() {
        lemma_lookup_uncovered(s, y);
        y
    } else if s[k].source_end() <= cursor {
        lemma_split_from_preimage(s, k + 1, cursor, end, p, y)
    } else if end <= s[k].source_start {
        assert forall|i: int| 0 <= i < s.len() implies !(#[trigger] s[i]).covers(y) by {
            if i > k {
                assert(s[k].source_start <= s[i].source_start);
            }
        }
        lemma_lookup_uncovered(s, y);
        y
    } else {
        let e = s[k];
        assert(e.representable());
        let lo = if cursor < e.source_start { e.source_start as int } else { cursor };
        let hi = if end < e.source_end() { end } else { e.source_end() };
        let shift: int = if cursor < e.source_start { 1 } else { 0 };
        if cursor < e.source_start && p == 0 {
            assert forall|i: int| 0 <= i < s.len() implies !(#[trigger] s[i]).covers(y) by {
                if i > k {
                    assert(s[k].source_start <= s[i].source_start);
                }
            }
            lemma_lookup_uncovered(s, y);
            y
        } else if p == shift {
            let x = y - e.dest_start + e.source_start;
            lemma_lookup_covered(s, x, k);
            x
        } else {
            if hi >= end {
                assert(split_from(s, k + 1, hi, end).len() == 0);
            }
            lemma_split_from_preimage(s, k + 1, hi, end, p - shift - 1, y)
        }
    }
}

/// The pieces of the image of `iv` cover the images of its numbers.
pub proof fn lemma_table_split_image(s: Seq<MapRange>, iv: Interval, x: int) -> (p: int)
    requires
        table_wf(s),
        iv.contains(x),
    ensures
        0 <= p < table_split(s, iv).len(),
        table_split(s, iv)[p].contains(lookup(s, x)),
{
    lemma_split_from_image(s, 0, iv.start as int, iv.end as int, x)
}

/// The pieces of the image of `iv` hold nothing but images of its numbers.
pub proof fn lemma_table_split_preimage(s: Seq<MapRange>, iv: Interval, p: int, y: int) -> (x: int)
    requires
        table_wf(s),
        iv.wf(),
        0 <= p < table_split(s, iv).len(),
        table_split(s, iv)[p].contains(y),
    ensures
        iv.contains(x),
        lookup(s, x) == y,
{
    lemma_split_from_preimage(s, 0, iv.start as int, iv.end as int, p, y)
}

/// The intervals `src` follow one another without gap or overlap from
/// `cursor` to `end`, and none is empty.
pub open spec fn is_cut_of(src: Seq<Interval>, cursor: int, end: int) -> bool {
    &&& forall|i: int| 0 <= i < src.len() ==> (#[trigger] src[i]).start < src[i].end
    &&& forall|i: int| 0 <= i < src.len() - 1 ==> (#[trigger] src[i]).end == src[i + 1].start
    &&& src.len() > 0 ==> src[0].start == cursor && src[src.len() - 1].end == end
    &&& src.len() == 0 ==> cursor >= end
}

/// Each of `out` is the one of `src` at the same place, moved as a whole to
/// where the table sends its numbers.
pub open spec fn moved_by_table(s: Seq<MapRange>, src: Seq<Interval>, out: Seq<Interval>) -> bool {
    &&& src.len() == out.len()
    &&& forall|i: int|
        0 <= i < src.len() ==> (#[trigger] out[i]).end - out[i].start == src[i].end - src[i].start
    &&& forall|i: int, x: int|
        0 <= i < src.len() && (#[trigger] src[i]).contains(x) ==> #[trigger] lookup(s, x) == x + (
        out[i].start - src[i].start)
}

/// The pieces that a table makes of `[cursor, end)` come from cutting the
/// stretch into intervals that follow one another without gap or overlap, and
/// moving each as a whole: put back, the pieces make up the stretch again.
pub proof fn lemma_split_from_sources(s: Seq<MapRange>, k: int, cursor: int, end: int) -> (src: Seq<
    Interval,
>)
    requires
        table_wf(s),
        0 <= k <= s.len(),
        0 <= cursor <= end <= u64::MAX,
        forall|i: int| 0 <= i < k ==> (#[trigger] s[i]).source_end() <= cursor,
    ensures
        is_cut_of(src, cursor, end),
        moved_by_table(s, src, split_from(s, k, cursor, end)),
    decreases s.len() - k,
{
    let out = split_from(s, k, cursor, end);
    let whole = Interval { start: cursor as u64, end: end as u64 };
    if cursor >= end {
        Seq::empty()
    } else if k >= s.len() {
        assert forall|x: int| whole.contains(x) implies #[trigger] lookup(s, x) == x by {
            lemma_lookup_uncovered(s, x);
        }
        seq![whole]
    } else if s[k].source_end() <= cursor {
        lemma_split_from_sources(s, k + 1, cursor, end)
    } else if end <= s[k].source_start {
        assert forall|x: int| whole.contains(x) implies #[trigger] lookup(s, x) == x by {
            assert forall|i: int| 0 <= i < s.len() implies !(#[trigger] s[i]).covers(x) by {
                if i > k {
                    assert(s[k].source_start <= s[i].source_start);
                }
            }
            lemma_lookup_uncovered(s, x);
        }
        seq![whole]
    } else {
        let e = s[k];
        assert(e.representable());
        let lo = if cursor < e.source_start { e.source_start as int } else { cursor };
        let hi = if end < e.source_end() { end } else { e.source_end() };
        let gap = Interval { start: cursor as u64, end: e.source_start };
        let covered = Interval { start: lo as u64, end: hi as u64 };
        let moved = Interval { start: e.translate(lo) as u64, end: e.translate(hi) as u64 };
        let head = if cursor < e.source_start { seq![gap, covered] } else { seq![covered] };
        let head_out = if cursor < e.source_start { seq![gap, moved] } else { seq![moved] };
        let rest_out = split_from(s, k + 1, hi, end);
        let rest = if hi < end {
            lemma_split_from_sources(s, k + 1, hi, end)
        } else {
            Seq::empty()
        };
        let src = head + rest;
        assert(out =~= head_out + rest_out);
        assert forall|x: int| covered.contains(x) implies #[trigger] lookup(s, x) == x + (
        moved.start - covered.start) by {
            lemma_lookup_covered(s, x, k);
        }
        if cursor < e.source_start {
            assert forall|x: int| gap.contains(x) implies #[trigger] lookup(s, x) == x by {
                assert forall|i: int| 0 <= i < s.len() implies !(#[trigger] s[i]).covers(x) by {
                    if i > k {
                        assert(s[k].source_start <= s[i].source_start);
                    }
                }
                lemma_lookup_uncovered(s, x);
            }
        }
        assert forall|i: int| 0 <= i < src.len() implies (#[trigger] src[i]).start < src[i].end
            && out[i].end - out[i].start == src[i].end - src[i].start by {
            if i >= head.len() {
                assert(src[i] == rest[i - head.len()]);
                assert(out[i] == rest_out[i - head.len()]);
            }
        }
        assert forall|i: int| 0 <= i < src.len() - 1 implies (#[trigger] src[i]).end == src[i
            + 1].start by {
            if i >= head.len() {
                assert(src[i] == rest[i - head.len()]);
                assert(src[i + 1] == rest[i + 1 - head.len()]);
            } else if i == head.len() - 1 {
                assert(src[i + 1] == rest[0]);
            }
        }
        assert forall|i: int, x: int|
            0 <= i < src.len() && (#[trigger] src[i]).contains(x) implies #[trigger] lookup(s, x)
            == x + (out[i].start - src[i].start) by {
            if i >= head.len() {
                assert(src[i] == rest[i - head.len()]);
                assert(out[i] == rest_out[i - head.len()]);
            }
        }
        if rest.len() > 0 {
            assert(src[src.len() - 1] == rest[rest.len() - 1]);
        }
        src
    }
}

/// The image of `iv` under a table comes from cutting `iv` into intervals
/// that follow one another without gap or overlap, and moving each as a whole
/// to where the table sends its numbers.
pub proof fn lemma_table_split_sources(s: Seq<MapRange>, iv: Interval) -> (src: Seq<Interval>)
    requires
        table_wf(s),
        iv.wf(),
    ensures
        is_cut_of(src, iv.start as int, iv.end as int),
        moved_by_table(s, src, table_split(s, iv)),
{
    lemma_split_from_sources(s, 0, iv.start as int, iv.end as int)
}

/// Where a number goes does not depend on the order in which the entries are
/// written down.
pub proof fn lemma_lookup_rearranged(a: Seq<MapRange>, b: Seq<MapRange>, x: int)
    requires
        entries_well_formed(a),
        a.to_multiset() == b.to_multiset(),
    ensures
        lookup(a, x) == lookup(b, x),
{
    lemma_well_formed_rearranged(a, b);
    if exists|i: int| 0 <= i < a.len() && (#[trigger] a[i]).covers(x) {
        let i = choose|i: int| 0 <= i < a.len() && (#[trigger] a[i]).covers(x);
        let j = lemma_rearranged_member(b, a, i);
        lemma_lookup_covered(a, x, i);
        lemma_lookup_covered(b, x, j);
    } else if exists|j: int| 0 <= j < b.len() && (#[trigger] b[j]).covers(x) {
        let j = choose|j: int| 0 <= j < b.len() && (#[trigger] b[j]).covers(x);
        let i = lemma_rearranged_member(a, b, j);
        assert(a[i].covers(x));
    }
}

/// Building a table does not depend on the order in which its entries are
/// given: a table built from the entries `first` and a table built from the
/// same entries in another order, `second`, are the same table, and so send
/// every number and every interval to the same place.
pub proof fn lemma_construction_order_independent(
    first: Seq<MapRange>,
    second: Seq<MapRange>,
    a: Seq<MapRange>,
    b: Seq<MapRange>,
    iv: Interval,
    x: int,
)
    requires
        first.to_multiset() == second.to_multiset(),
        table_wf(a),
        a.to_multiset() == first.to_multiset(),
        table_wf(b),
        b.to_multiset() == second.to_multiset(),
    ensures
        a == b,
        table_split(a, iv) == table_split(b, iv),
        lookup(a, x) == lookup(b, x),
{
    lemma_sorted_entries_unique(a, b);
}

} // verus!
