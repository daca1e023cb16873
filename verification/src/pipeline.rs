use vstd::prelude::*;
use crate::interval::{
    Interval, total_len, all_nonempty, lemma_total_len_concat, lemma_total_len_single,
};
use crate::range_table::{MapRange, RangeTable, lookup, table_split, table_wf};

verus! {

/// Every interval of the sequence has its bounds in order.
pub open spec fn all_wf(ivs: Seq<Interval>) -> bool {
    forall|i: int| 0 <= i < ivs.len() ==> (#[trigger] ivs[i]).wf()
}

/// Every table of the chain is well-formed, representable and sorted.
pub open spec fn pipeline_wf(p: Seq<Seq<MapRange>>) -> bool {
    forall|i: int| 0 <= i < p.len() ==> table_wf(#[trigger] p[i])
}

/// The images of the intervals `ivs` under one table, one after another.
pub open spec fn stage_split(s: Seq<MapRange>, ivs: Seq<Interval>) -> Seq<Interval>
    decreases ivs.len(),
{
    if ivs.len() == 0 {
        Seq::empty()
    } else {
        stage_split(s, ivs.drop_last()) + table_split(s, ivs.last())
    }
}

/// The images of the intervals `ivs` under the tables of `p`, applied from
/// the first to the last.
pub open spec fn pipeline_split(p: Seq<Seq<MapRange>>, ivs: Seq<Interval>) -> Seq<Interval>
    decreases p.len(),
{
    if p.len() == 0 {
        ivs
    } else {
        stage_split(p.last(), pipeline_split(p.drop_last(), ivs))
    }
}

/// The image of the number `x` under the tables of `p`, applied from the
/// first to the last.
pub open spec fn pipeline_lookup(p: Seq<Seq<MapRange>>, x: int) -> int
    decreases p.len(),
{
    if p.len() == 0 {
        x
    } else {
        lookup(p.last(), pipeline_lookup(p.drop_last(), x))
    }
}

/// An ordered chain of tables, applied from the first to the last.
pub struct Pipeline {
    tables: Vec<RangeTable>,
}

impl View for Pipeline {
    type V = Seq<Seq<MapRange>>;

    /// The entries of the tables, table by table.
    closed spec fn view(&self) -> Seq<Seq<MapRange>> {
        Seq::new(self.tables@.len(), |i: int| self.tables@[i]@)
    }
}

impl Pipeline {
    /// Holds of every chain: each of its tables is well-formed, representable
    /// and sorted.
    #[verifier::type_invariant]
    pub open spec fn inv(self) -> bool {
        pipeline_wf(self@)
    }

    /// The chain of the given tables, in their order.
    pub fn from_tables(tables: Vec<RangeTable>) -> (p: Pipeline)
        ensures
            p@.len() == tables@.len(),
            forall|i: int| 0 <= i < tables@.len() ==> p@[i] == (#[trigger] tables@[i])@,
            pipeline_wf(p@),
    {
        let n: usize = tables.len();
        let mut i: usize = 0;
        while i < n
            invariant
                n == tables@.len(),
                i <= n,
                forall|j: int| 0 <= j < i ==> table_wf((#[trigger] tables@[j])@),
            decreases n - i,
        {
            let table: &RangeTable = &tables[i];
            proof {
                use_type_invariant(table);
            }
            i += 1;
        }
        Pipeline { tables }
    }

    /// The number of tables in the chain.
    pub fn len(&self) -> (n: usize)
        ensures
            n == self@.len(),
    {
        self.tables.len()
    }

    /// The image of the single number `x` under the whole chain.
    pub fn apply_scalar(&self, x: u64) -> (y: u64)
        ensures
            y == pipeline_lookup(self@, x as int),
    {
        let n: usize = self.tables.len();
        let mut current: u64 = x;
        let mut t: usize = 0;
        proof {
            assert(self@.take(0) =~= Seq::<Seq<MapRange>>::empty());
        }
        while t < n
            invariant
                n == self.tables@.len(),
                t <= n,
                current == pipeline_lookup(self@.take(t as int), x as int),
            decreases n - t,
        {
            let table: &RangeTable = &self.tables[t];
            proof {
                assert(self@.take(t + 1).drop_last() =~= self@.take(t as int));
                assert(self@.take(t + 1).last() == table@);
            }
            current = table.lookup_scalar(current);
            t += 1;
        }
        proof {
            assert(self@.take(n as int) =~= self@);
        }
        current
    }

    /// The images of all of `ivs` under one table, one after another.
    fn apply_stage(table: &RangeTable, ivs: &Vec<Interval>) -> (out: Vec<Interval>)
        requires
            all_wf(ivs@),
        ensures
            out@ == stage_split(table@, ivs@),
            total_len(out@) == total_len(ivs@),
            all_nonempty(out@),
    {
        let n: usize = ivs.len();
        let mut out: Vec<Interval> = Vec::new();
        let mut i: usize = 0;
        proof {
            assert(ivs@.take(0) =~= Seq::<Interval>::empty());
        }
        while i < n
            invariant
                n == ivs@.len(),
                i <= n,
                all_wf(ivs@),
                out@ == stage_split(table@, ivs@.take(i as int)),
                total_len(out@) == total_len(ivs@.take(i as int)),
                all_nonempty(out@),
            decreases n - i,
        {
            let mut pieces: Vec<Interval> = table.map_interval(ivs[i]);
            proof {
                assert(ivs@.take(i + 1).drop_last() =~= ivs@.take(i as int));
                assert(ivs@.take(i + 1).last() == ivs@[i as int]);
                lemma_total_len_concat(out@, pieces@);
            }
            out.append(&mut pieces);
            i += 1;
        }
        proof {
            assert(ivs@.take(n as int) =~= ivs@);
        }
        out
    }

    /// The image of the whole interval `iv` under the whole chain: at each
    /// table every interval is replaced by its pieces. The pieces are neither
    /// merged nor deduplicated, and together they stay as long as `iv`. A
    /// chain without tables hands `iv` back as it is.
    pub fn apply(&self, iv: Interval) -> (out: Vec<Interval>)
        requires
            iv.wf(),
        ensures
            out@ == pipeline_split(self@, seq![iv]),
            total_len(out@) == iv.spec_len(),
            all_wf(out@),
            self@.len() == 0 ==> out@ == seq![iv],
            self@.len() > 0 || iv.start < iv.end ==> all_nonempty(out@),
    {
        let n: usize = self.tables.len();
        let mut current: Vec<Interval> = Vec::new();
        current.push(iv);
        let mut t: usize = 0;
        proof {
            assert(self@.take(0) =~= Seq::<Seq<MapRange>>::empty());
            assert(current@ =~= seq![iv]);
            lemma_total_len_single(iv);
        }
        while t < n
            invariant
                n == self.tables@.len(),
                t <= n,
                current@ == pipeline_split(self@.take(t as int), seq![iv]),
                total_len(current@) == iv.spec_len(),
                all_wf(current@),
                t > 0 || iv.start < iv.end ==> all_nonempty(current@),
            decreases n - t,
        {
            let table: &RangeTable = &self.tables[t];
            proof {
                assert(self@.take(t + 1).drop_last() =~= self@.take(t as int));
                assert(self@.take(t + 1).last() == table@);
            }
            current = Self::apply_stage(table, &current);
            t += 1;
        }
        proof {
            assert(self@.take(n as int) =~= self@);
        }
        current
    }
}

} // verus!
