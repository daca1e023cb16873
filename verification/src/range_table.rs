use vstd::prelude::*;
use vstd::seq_lib::{to_multiset_build, to_multiset_contains, to_multiset_insert, lemma_sorted_unique};
use vstd::relations::{sorted_by, total_ordering};
use crate::error::RangeError;
use crate::interval::{Interval, total_len, all_nonempty, lemma_total_len_push};

verus! {

/// One rule of a table: the `length` numbers from `source_start` on are moved
/// to the `length` numbers from `dest_start` on.
#[derive(Clone, Copy, Debug, PartialEq, Eq, PartialOrd)]
pub struct MapRange {
    pub dest_start: u64,
    pub source_start: u64,
    pub length: u64,
}

impl MapRange {
    /// One past the last source number of the rule.
    pub open spec fn source_end(self) -> int {
        self.source_start + self.length
    }

    /// One past the last destination number of the rule.
    pub open spec fn dest_end(self) -> int {
        self.dest_start + self.length
    }

    /// `x` is one of the rule's source numbers.
    pub open spec fn covers(self, x: int) -> bool {
        self.source_start <= x < self.source_end()
    }

    /// Where the rule sends `x`.
    pub open spec fn translate(self, x: int) -> int {
        x - self.source_start + self.dest_start
    }

    /// The two rules share a source number.
    pub open spec fn overlaps(self, other: MapRange) -> bool {
        self.source_start < other.source_end() && other.source_start < self.source_end()
    }

    /// Both the source range and the destination range end at or below
    /// `u64::MAX`.
    pub open spec fn representable(self) -> bool {
        self.source_end() <= u64::MAX && self.dest_end() <= u64::MAX
    }
}

/// No entry is empty and no two entries share a source number.
pub open spec fn entries_well_formed(s: Seq<MapRange>) -> bool {
    &&& forall|i: int| 0 <= i < s.len() ==> (#[trigger] s[i]).length > 0
    &&& forall|i: int, j: int| 0 <= i < j < s.len() ==> !(#[trigger] s[i]).overlaps(#[trigger] s[j])
}

/// Every entry's source and destination range fits below `u64::MAX`.
pub open spec fn entries_representable(s: Seq<MapRange>) -> bool {
    forall|i: int| 0 <= i < s.len() ==> (#[trigger] s[i]).representable()
}

/// The entries stand in the order of their source starts.
pub open spec fn entries_sorted(s: Seq<MapRange>) -> bool {
    forall|i: int, j: int|
        0 <= i < j < s.len() ==> (#[trigger] s[i]).source_start <= (#[trigger] s[j]).source_start
}

/// What a table's entries must satisfy: well-formed, representable, sorted.
pub open spec fn table_wf(s: Seq<MapRange>) -> bool {
    entries_well_formed(s) && entries_representable(s) && entries_sorted(s)
}

/// Where a table with entries `s` sends `x`: through the entry that covers it,
/// or to itself when none does.
pub open spec fn lookup(s: Seq<MapRange>, x: int) -> int {
    if exists|i: int| 0 <= i < s.len() && (#[trigger] s[i]).covers(x) {
        let i = choose|i: int| 0 <= i < s.len() && (#[trigger] s[i]).covers(x);
        s[i].translate(x)
    } else {
        x
    }
}

/// In a well-formed table at most one entry covers a number.
pub proof fn lemma_cover_unique(s: Seq<MapRange>, x: int, i: int, j: int)
    requires
        entries_well_formed(s),
        0 <= i < s.len(),
        0 <= j < s.len(),
        s[i].covers(x),
        s[j].covers(x),
    ensures
        i == j,
{
    if i < j {
        assert(s[i].overlaps(s[j]));
    } else if j < i {
        assert(s[j].overlaps(s[i]));
    }
}

/// A covering entry decides the lookup.
pub proof fn lemma_lookup_covered(s: Seq<MapRange>, x: int, i: int)
    requires
        entries_well_formed(s),
        0 <= i < s.len(),
        s[i].covers(x),
    ensures
        lookup(s, x) == s[i].translate(x),
{
    let j = choose|j: int| 0 <= j < s.len() && (#[trigger] s[j]).covers(x);
    lemma_cover_unique(s, x, i, j);
}

/// The pieces into which the entries from index `k` on cut the numbers from
/// `cursor` up to `end`, each piece moved to where its entry sends it; the
/// pieces come in the order of the numbers they are cut from. A stretch that
/// no entry covers is a piece of its own and stays where it is.
pub open spec fn split_from(s: Seq<MapRange>, k: int, cursor: int, end: int) -> Seq<Interval>
    decreases s.len() - k,
{
    if cursor >= end {
        Seq::empty()
    } else if k < 0 || k >= s.len() {
        seq![Interval { start: cursor as u64, end: end as u64 }]
    } else if s[k].source_end() <= cursor {
        split_from(s, k + 1, cursor, end)
    } else if end <= s[k].source_start {
        seq![Interval { start: cursor as u64, end: end as u64 }]
    } else {
        let e = s[k];
        let lo = if cursor < e.source_start { e.source_start as int } else { cursor };
        let hi = if end < e.source_end() { end } else { e.source_end() };
        let before = if cursor < e.source_start {
            seq![Interval { start: cursor as u64, end: e.source_start }]
        } else {
            Seq::empty()
        };
        let moved = Interval { start: e.translate(lo) as u64, end: e.translate(hi) as u64 };
        before + seq![moved] + split_from(s, k + 1, hi, end)
    }
}

/// The image of the interval `iv` under a table with entries `s`, as a
/// sequence of intervals.
pub open spec fn table_split(s: Seq<MapRange>, iv: Interval) -> Seq<Interval> {
    split_from(s, 0, iv.start as int, iv.end as int)
}

/// A total order on entries that agrees with the order of source starts.
pub open spec fn entry_leq(a: MapRange, b: MapRange) -> bool {
    a.source_start < b.source_start || (a.source_start == b.source_start && (a.dest_start
        < b.dest_start || (a.dest_start == b.dest_start && a.length <= b.length)))
}

/// Every element of `b` occurs in `a` when the two hold the same entries.
pub proof fn lemma_rearranged_member(a: Seq<MapRange>, b: Seq<MapRange>, j: int) -> (i: int)
    requires
        a.to_multiset() == b.to_multiset(),
        0 <= j < b.len(),
    ensures
        0 <= i < a.len(),
        a[i] == b[j],
{
    to_multiset_contains(b, b[j]);
    to_multiset_contains(a, b[j]);
    assert(b.contains(b[j]));
    choose|i: int| 0 <= i < a.len() && a[i] == b[j]
}

/// Being well-formed does not depend on the order of the entries.
pub proof fn lemma_well_formed_rearranged(a: Seq<MapRange>, b: Seq<MapRange>)
    requires
        a.to_multiset() == b.to_multiset(),
        entries_well_formed(a),
    ensures
        entries_well_formed(b),
{
    assert(a.no_duplicates()) by {
        assert forall|i: int, j: int| 0 <= i < a.len() && 0 <= j < a.len() && i != j implies a[i]
            != a[j] by {
            if a[i] == a[j] {
                if i < j {
                    assert(a[i].overlaps(a[j]));
                } else {
                    assert(a[j].overlaps(a[i]));
                }
            }
        }
    }
    a.lemma_multiset_has_no_duplicates();
    b.lemma_multiset_has_no_duplicates_conv();
    assert forall|j: int| 0 <= j < b.len() implies (#[trigger] b[j]).length > 0 by {
        let i = lemma_rearranged_member(a, b, j);
    }
    assert forall|j1: int, j2: int| 0 <= j1 < j2 < b.len() implies !(#[trigger] b[j1]).overlaps(
        #[trigger] b[j2],
    ) by {
        let i1 = lemma_rearranged_member(a, b, j1);
        let i2 = lemma_rearranged_member(a, b, j2);
        assert(b[j1] != b[j2]);
        if i1 < i2 {
            assert(!a[i1].overlaps(a[i2]));
        } else {
            assert(!a[i2].overlaps(a[i1]));
        }
    }
}

/// Being representable does not depend on the order of the entries.
pub proof fn lemma_representable_rearranged(a: Seq<MapRange>, b: Seq<MapRange>)
    requires
        a.to_multiset() == b.to_multiset(),
        entries_representable(a),
    ensures
        entries_representable(b),
{
    assert forall|j: int| 0 <= j < b.len() implies (#[trigger] b[j]).representable() by {
        let i = lemma_rearranged_member(a, b, j);
    }
}

/// Two tables that hold the same entries hold them in the same order.
pub proof fn lemma_sorted_entries_unique(a: Seq<MapRange>, b: Seq<MapRange>)
    requires
        table_wf(a),
        table_wf(b),
        a.to_multiset() == b.to_multiset(),
    ensures
        a == b,
{
    let leq = |x: MapRange, y: MapRange| entry_leq(x, y);
    assert(sorted_by(a, leq)) by {
        assert forall|i: int, j: int| 0 <= i < j < a.len() implies #[trigger] leq(a[i], a[j]) by {
            assert(!a[i].overlaps(a[j]));
        }
    }
    assert(sorted_by(b, leq)) by {
        assert forall|i: int, j: int| 0 <= i < j < b.len() implies #[trigger] leq(b[i], b[j]) by {
            assert(!b[i].overlaps(b[j]));
        }
    }
    assert(total_ordering(leq)) by {
        assert forall|x: MapRange, y: MapRange| #[trigger] leq(x, y) && #[trigger] leq(y, x) implies x == y by {}
        assert forall|x: MapRange, y: MapRange| #[trigger] leq(x, y) || #[trigger] leq(y, x) by {}
    }
    lemma_sorted_unique(a, b, leq);
}

/// In a sorted sequence of non-empty entries, it is enough that neighbours do
/// not overlap.
proof fn lemma_neighbours_disjoint(s: Seq<MapRange>)
    requires
        entries_sorted(s),
        forall|i: int| 0 <= i < s.len() ==> (#[trigger] s[i]).length > 0,
        forall|i: int, j: int|
            0 <= i < j < s.len() ==> (#[trigger] s[i]).source_end() <= (#[trigger] s[j]).source_start,
    ensures
        entries_well_formed(s),
{
}

/// One stage of a chain: entries that are non-empty, pairwise disjoint in
/// source space and sorted by source start. Numbers that no entry covers map to
/// themselves.
pub struct RangeTable {
    entries: Vec<MapRange>,
}

impl View for RangeTable {
    type V = Seq<MapRange>;

    /// The entries, sorted by source start.
    closed spec fn view(&self) -> Seq<MapRange> {
        self.entries@
    }
}

impl RangeTable {
    /// Holds of every table: its entries are well-formed, representable and
    /// sorted.
    #[verifier::type_invariant]
    pub open spec fn inv(self) -> bool {
        table_wf(self@)
    }

    /// The table with no entry: every number maps to itself.
    pub fn empty() -> (t: RangeTable)
        ensures
            t@ == Seq::<MapRange>::empty(),
    {
        RangeTable { entries: Vec::new() }
    }

    /// The number of entries.
    pub fn len(&self) -> (n: usize)
        ensures
            n == self@.len(),
    {
        self.entries.len()
    }

    /// The entries, sorted by source start.
    pub fn entries(&self) -> (r: &Vec<MapRange>)
        ensures
            r@ == self@,
            table_wf(r@),
    {
        proof {
            use_type_invariant(self);
        }
        &self.entries
    }

    /// The first index of `sorted` whose entry starts after `key`.
    fn insertion_point(sorted: &Vec<MapRange>, key: u64) -> (pos: usize)
        requires
            entries_sorted(sorted@),
        ensures
            pos <= sorted@.len(),
            forall|i: int| 0 <= i < pos ==> (#[trigger] sorted@[i]).source_start <= key,
            forall|i: int| pos <= i < sorted@.len() ==> key < (#[trigger] sorted@[i]).source_start,
    {
        let n: usize = sorted.len();
        let mut pos: usize = 0;
        while pos < n && sorted[pos].source_start <= key
            invariant
                n == sorted@.len(),
                pos <= n,
                forall|i: int| 0 <= i < pos ==> (#[trigger] sorted@[i]).source_start <= key,
            decreases n - pos,
        {
            pos += 1;
        }
        pos
    }

    /// Builds a table from `entries`, given in any order.
    ///
    /// Fails with `MalformedTable` when an entry has length zero or two
    /// entries share a source number, and otherwise with `ArithmeticOverflow`
    /// when the source or the destination range of an entry reaches beyond
    /// `u64::MAX`. The table holds the same entries, sorted by source start.
    pub fn from_entries(entries: Vec<MapRange>) -> (r: Result<RangeTable, RangeError>)
        ensures
            match r {
                Ok(t) => {
                    &&& entries_well_formed(entries@)
                    &&& entries_representable(entries@)
                    &&& table_wf(t@)
                    &&& t@.to_multiset() == entries@.to_multiset()
                },
                Err(RangeError::MalformedTable) => !entries_well_formed(entries@),
                Err(RangeError::ArithmeticOverflow) => {
                    &&& entries_well_formed(entries@)
                    &&& !entries_representable(entries@)
                },
                Err(RangeError::EmptyDomain) => false,
            },
    {
        let n: usize = entries.len();
        let mut sorted: Vec<MapRange> = Vec::new();
        let mut k: usize = 0;
        proof {
            assert(entries@.take(0) =~= sorted@);
        }
        while k < n
            invariant
                n == entries@.len(),
                k <= n,
                sorted@.len() == k,
                entries_sorted(sorted@),
                sorted@.to_multiset() == entries@.take(k as int).to_multiset(),
                forall|i: int| 0 <= i < k ==> (#[trigger] entries@[i]).length > 0,
            decreases n - k,
        {
            let e: MapRange = entries[k];
            if e.length == 0 {
                return Err(RangeError::MalformedTable);
            }
            let pos: usize = Self::insertion_point(&sorted, e.source_start);
            proof {
                to_multiset_insert(sorted@, pos as int, e);
                to_multiset_build(entries@.take(k as int), e);
                assert(entries@.take(k + 1) =~= entries@.take(k as int).push(e));
                let s = sorted@;
                let t = s.insert(pos as int, e);
                assert forall|i: int, j: int| 0 <= i < j < t.len() implies (#[trigger] t[i]).source_start
                    <= (#[trigger] t[j]).source_start by {
                    if i < pos {
                        assert(t[i] == s[i]);
                    } else if i > pos {
                        assert(t[i] == s[i - 1]);
                    }
                    if j < pos {
                        assert(t[j] == s[j]);
                    } else if j > pos {
                        assert(t[j] == s[j - 1]);
                    }
                }
            }
            sorted.insert(pos, e);
            k += 1;
        }
        proof {
            assert(entries@.take(n as int) =~= entries@);
        }
        let mut i: usize = 1;
        while i < n
            invariant
                n == entries@.len(),
                n == sorted@.len(),
                1 <= i,
                entries_sorted(sorted@),
                sorted@.to_multiset() == entries@.to_multiset(),
                forall|a: int| 0 <= a < n ==> (#[trigger] entries@[a]).length > 0,
                forall|a: int, b: int|
                    0 <= a < b < i && b < n ==> (#[trigger] sorted@[a]).source_end() <= (
                    #[trigger] sorted@[b]).source_start,
            decreases n - i,
        {
            let prev: MapRange = sorted[i - 1];
            let next: MapRange = sorted[i];
            if next.source_start - prev.source_start < prev.length {
                proof {
                    assert(sorted@[i - 1].overlaps(sorted@[i as int])) by {
                        let m = lemma_rearranged_member(entries@, sorted@, i as int);
                        assert(entries@[m].length > 0);
                    }
                    if entries_well_formed(entries@) {
                        lemma_well_formed_rearranged(entries@, sorted@);
                    }
                }
                return Err(RangeError::MalformedTable);
            }
            proof {
                assert forall|a: int, b: int| 0 <= a < b < i + 1 && b < n implies (
                #[trigger] sorted@[a]).source_end() <= (#[trigger] sorted@[b]).source_start by {
                    if b == i && a < i - 1 {
                        assert(sorted@[a].source_end() <= sorted@[i - 1].source_start);
                    }
                }
            }
            i += 1;
        }
        proof {
            assert forall|j: int| 0 <= j < sorted@.len() implies (#[trigger] sorted@[j]).length
                > 0 by {
                lemma_rearranged_member(entries@, sorted@, j);
            }
            lemma_neighbours_disjoint(sorted@);
            lemma_well_formed_rearranged(sorted@, entries@);
        }
        let mut j: usize = 0;
        while j < n
            invariant
                n == sorted@.len(),
                j <= n,
                sorted@.to_multiset() == entries@.to_multiset(),
                entries_well_formed(entries@),
                forall|a: int| 0 <= a < j ==> (#[trigger] sorted@[a]).representable(),
            decreases n - j,
        {
            let e: MapRange = sorted[j];
            if e.source_start > u64::MAX - e.length || e.dest_start > u64::MAX - e.length {
                proof {
                    assert(!sorted@[j as int].representable());
                    if entries_representable(entries@) {
                        lemma_representable_rearranged(entries@, sorted@);
                    }
                }
                return Err(RangeError::ArithmeticOverflow);
            }
            j += 1;
        }
        proof {
            lemma_representable_rearranged(sorted@, entries@);
        }
        Ok(RangeTable { entries: sorted })
    }

    /// The image of the single number `x`.
    pub fn lookup_scalar(&self, x: u64) -> (y: u64)
        ensures
            y == lookup(self@, x as int),
    {
        proof {
            use_type_invariant(self);
        }
        let n: usize = self.entries.len();
        let mut k: usize = 0;
        while k < n
            invariant
                n == self.entries@.len(),
                k <= n,
                table_wf(self.entries@),
                forall|i: int| 0 <= i < k ==> !(#[trigger] self.entries@[i]).covers(x as int),
            decreases n - k,
        {
            let e: MapRange = self.entries[k];
            if e.source_start <= x && x - e.source_start < e.length {
                proof {
                    lemma_lookup_covered(self.entries@, x as int, k as int);
                }
                return e.dest_start + (x - e.source_start);
            }
            k += 1;
        }
        x
    }
    /// The image of the whole interval `iv`: the interval is cut at the
    /// boundaries of the entries it meets, and each piece is moved by its
    /// entry, or left in place where no entry covers it. No piece is empty,
    /// the pieces together are as long as `iv`, and there are at most two for
    /// each entry and one more.
    pub fn map_interval(&self, iv: Interval) -> (out: Vec<Interval>)
        requires
            iv.wf(),
        ensures
            out@ == table_split(self@, iv),
            total_len(out@) == iv.spec_len(),
            all_nonempty(out@),
            out@.len() <= 2 * self@.len() + 1,
    {
        proof {
            use_type_invariant(self);
        }
        let n: usize = self.entries.len();
        let mut out: Vec<Interval> = Vec::new();
        let mut cursor: u64 = iv.start;
        let mut k: usize = 0;
        while k < n && cursor < iv.end
            invariant
                n == self.entries@.len(),
                k <= n,
                iv.start <= cursor <= iv.end,
                table_wf(self.entries@),
                table_split(self.entries@, iv) == out@ + split_from(
                    self.entries@,
                    k as int,
                    cursor as int,
                    iv.end as int,
                ),
                total_len(out@) == cursor - iv.start,
                all_nonempty(out@),
                out@.len() <= 2 * k,
            decreases n - k,
        {
            let e: MapRange = self.entries[k];
            let ghost rest = split_from(self.entries@, k as int, cursor as int, iv.end as int);
            let source_end: u64 = e.source_start + e.length;
            if source_end <= cursor {
                k += 1;
            } else if iv.end <= e.source_start {
                proof {
                    reveal_with_fuel(split_from, 2);
                }
                k = n;
            } else {
                let ghost before_len = out@.len();
                if cursor < e.source_start {
                    let gap = Interval { start: cursor, end: e.source_start };
                    proof {
                        lemma_total_len_push(out@, gap);
                    }
                    out.push(gap);
                    cursor = e.source_start;
                }
                let hi: u64 = if iv.end < source_end { iv.end } else { source_end };
                let moved = Interval {
                    start: e.dest_start + (cursor - e.source_start),
                    end: e.dest_start + (hi - e.source_start),
                };
                proof {
                    lemma_total_len_push(out@, moved);
                    assert(rest =~= out@.subrange(before_len as int, out@.len() as int).push(moved)
                        + split_from(self.entries@, k + 1, hi as int, iv.end as int));
                }
                out.push(moved);
                cursor = hi;
                k += 1;
            }
        }
        if cursor < iv.end {
            let tail = Interval { start: cursor, end: iv.end };
            proof {
                lemma_total_len_push(out@, tail);
            }
            out.push(tail);
        }
        out
    }
}

} // verus!
