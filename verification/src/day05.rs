use vstd::prelude::*;
use crate::error::RangeError;
use crate::pipeline::{Pipeline, pipeline_lookup, pipeline_wf};
use crate::pipeline_laws::lemma_pipeline_lookup_rearranged;
use crate::range_table::{
    MapRange, RangeTable, entries_representable, entries_well_formed,
};
use crate::text::{
    CharClass, blank_line_sep, chars_of, line_sep, list1, list_rest, parse_blank_line,
    parse_line_ending, parse_run1, parse_tag, parse_u64, parse_u64_list, space_sep, spec_blank_line,
    spec_line_ending, spec_run1, spec_tag, spec_u64, u64_item,
};
use crate::seeds::{
    is_lowest_of_ranges, is_lowest_of_scalars, in_ranges, in_scalars, lowest_of_ranges,
    lowest_of_scalars, ranges_representable,
};

verus! {

/// The fifth day: an almanac of tables that lead from seeds to locations.
pub struct Day05;

/// What the numbers of a table stand for. The names only label the tables: the
/// order of the tables decides what is applied when.
#[derive(Clone, Copy, Debug, PartialEq, Eq, Structural)]
pub enum Thing {
    Seed,
    Soil,
    Fertilizer,
    Water,
    Light,
    Temperature,
    Humidity,
    Location,
}

/// One table as it is written down: what it maps from, what it maps to, and
/// its entries in the order given.
#[derive(Debug)]
pub struct MapBlock {
    pub src_type: Thing,
    pub dest_type: Thing,
    pub ranges: Vec<MapRange>,
}

/// The seeds to plant, and the tables that lead from a seed to its location.
#[derive(Debug)]
pub struct Almanac {
    pub seed_input: Vec<u64>,
    pub maps: Vec<MapBlock>,
}

/// The entries of the blocks, block by block.
pub open spec fn raw_tables(maps: Seq<MapBlock>) -> Seq<Seq<MapRange>> {
    Seq::new(maps.len(), |i: int| maps[i].ranges@)
}

/// What keeps the entries `s` from making a table, if anything does.
pub open spec fn entries_error(s: Seq<MapRange>) -> Option<RangeError> {
    if !entries_well_formed(s) {
        Some(RangeError::MalformedTable)
    } else if !entries_representable(s) {
        Some(RangeError::ArithmeticOverflow)
    } else {
        None
    }
}

/// The error of the first of `tables` that has one.
pub open spec fn first_table_error(tables: Seq<Seq<MapRange>>) -> Option<RangeError>
    decreases tables.len(),
{
    if tables.len() == 0 {
        None
    } else {
        match first_table_error(tables.drop_last()) {
            Some(e) => Some(e),
            None => entries_error(tables.last()),
        }
    }
}

/// The numbers of `s` taken two by two, each pair a start and a length. A
/// last number without a partner is left out.
pub open spec fn paired(s: Seq<u64>) -> Seq<(u64, u64)> {
    Seq::new((s.len() / 2) as nat, |i: int| (s[2 * i], s[2 * i + 1]))
}

/// Where no table has an error, every table is well-formed.
pub proof fn lemma_no_table_error(tables: Seq<Seq<MapRange>>, i: int)
    requires
        first_table_error(tables).is_none(),
        0 <= i < tables.len(),
    ensures
        entries_well_formed(tables[i]),
        entries_representable(tables[i]),
    decreases tables.len(),
{
    if i < tables.len() - 1 {
        lemma_no_table_error(tables.drop_last(), i);
    }
}

/// An error among the first tables is an error of all of them.
pub proof fn lemma_table_error_stays(tables: Seq<Seq<MapRange>>, k: int)
    requires
        0 <= k <= tables.len(),
        first_table_error(tables.take(k)).is_some(),
    ensures
        first_table_error(tables) == first_table_error(tables.take(k)),
    decreases tables.len() - k,
{
    if k == tables.len() {
        assert(tables.take(k) =~= tables);
    } else {
        assert(tables.take(k + 1).drop_last() =~= tables.take(k));
        lemma_table_error_stays(tables, k + 1);
    }
}

/// A copy of `entries`.
fn copy_entries(entries: &Vec<MapRange>) -> (copy: Vec<MapRange>)
    ensures
        copy@ == entries@,
{
    let n: usize = entries.len();
    let mut copy: Vec<MapRange> = Vec::new();
    let mut i: usize = 0;
    while i < n
        invariant
            n == entries@.len(),
            i <= n,
            copy@ == entries@.take(i as int),
        decreases n - i,
    {
        copy.push(entries[i]);
        proof {
            assert(entries@.take(i + 1) =~= entries@.take(i as int).push(entries@[i as int]));
        }
        i += 1;
    }
    proof {
        assert(entries@.take(n as int) =~= entries@);
    }
    copy
}

impl Almanac {
    /// The chain of the almanac's tables, in their order, each table built
    /// from the entries of its block. Fails with the error of the first block
    /// whose entries make no table.
    pub fn pipeline(&self) -> (r: Result<Pipeline, RangeError>)
        ensures
            match r {
                Ok(p) => {
                    &&& first_table_error(raw_tables(self.maps@)).is_none()
                    &&& pipeline_wf(p@)
                    &&& p@.len() == self.maps@.len()
                    &&& forall|i: int|
                        0 <= i < p@.len() ==> (#[trigger] p@[i]).to_multiset() == raw_tables(
                            self.maps@,
                        )[i].to_multiset()
                },
                Err(e) => first_table_error(raw_tables(self.maps@)) == Some(e),
            },
    {
        let n: usize = self.maps.len();
        let mut tables: Vec<RangeTable> = Vec::new();
        let mut i: usize = 0;
        let ghost raw = raw_tables(self.maps@);
        proof {
            assert(raw.take(0) =~= Seq::<Seq<MapRange>>::empty());
        }
        while i < n
            invariant
                n == self.maps@.len(),
                i <= n,
                raw == raw_tables(self.maps@),
                tables@.len() == i,
                first_table_error(raw.take(i as int)).is_none(),
                forall|j: int|
                    0 <= j < i ==> (#[trigger] tables@[j])@.to_multiset() == raw[j].to_multiset(),
            decreases n - i,
        {
            proof {
                assert(raw.take(i + 1).drop_last() =~= raw.take(i as int));
                assert(raw.take(i + 1).last() == self.maps@[i as int].ranges@);
            }
            match RangeTable::from_entries(copy_entries(&self.maps[i].ranges)) {
                Ok(table) => {
                    tables.push(table);
                },
                Err(e) => {
                    proof {
                        lemma_table_error_stays(raw, i + 1);
                    }
                    return Err(e);
                },
            }
            i += 1;
        }
        let ghost built = tables@;
        let p = Pipeline::from_tables(tables);
        proof {
            assert(raw.take(n as int) =~= raw);
            assert forall|j: int| 0 <= j < p@.len() implies (#[trigger] p@[j]).to_multiset()
                == raw[j].to_multiset() by {
                assert(p@[j] == built[j]@);
            }
        }
        Ok(p)
    }

    /// The lowest location of the seeds, each number of the seed list taken
    /// as one seed.
    ///
    /// Fails with the error of the first block whose entries make no table,
    /// and otherwise with `EmptyDomain` when the seed list is empty.
    pub fn map_all_seeds_p1(&self) -> (r: Result<u64, RangeError>)
        ensures
            match r {
                Ok(m) => {
                    &&& first_table_error(raw_tables(self.maps@)).is_none()
                    &&& is_lowest_of_scalars(raw_tables(self.maps@), self.seed_input@, m as int)
                },
                Err(e) => match first_table_error(raw_tables(self.maps@)) {
                    Some(t) => e == t,
                    None => e == RangeError::EmptyDomain && self.seed_input@.len() == 0,
                },
            },
    {
        let pipeline: Pipeline = match self.pipeline() {
            Ok(p) => p,
            Err(e) => {
                return Err(e);
            },
        };
        let r = lowest_of_scalars(&pipeline, &self.seed_input);
        proof {
            let raw = raw_tables(self.maps@);
            assert forall|i: int| 0 <= i < raw.len() implies entries_well_formed(
                #[trigger] raw[i],
            ) by {
                lemma_no_table_error(raw, i);
            }
            assert forall|x: int| #[trigger]
                pipeline_lookup(raw, x) == pipeline_lookup(pipeline@, x) by {
                lemma_pipeline_lookup_rearranged(raw, pipeline@, x);
            }
            if let Ok(m) = r {
                let w = choose|x: int|
                    in_scalars(self.seed_input@, x) && #[trigger] pipeline_lookup(pipeline@, x)
                        == m;
                assert(in_scalars(self.seed_input@, w) && pipeline_lookup(raw, w) == m);
            }
        }
        r
    }

    /// The seed list read two by two, as ranges of a start and a length.
    pub fn seed_ranges(&self) -> (pairs: Vec<(u64, u64)>)
        ensures
            pairs@ == paired(self.seed_input@),
    {
        let len: usize = self.seed_input.len();
        let n: usize = len / 2;
        let mut pairs: Vec<(u64, u64)> = Vec::new();
        let mut i: usize = 0;
        while i < n
            invariant
                len == self.seed_input@.len(),
                n == len / 2,
                i <= n,
                pairs@.len() == i,
                forall|j: int| 0 <= j < i ==> pairs@[j] == paired(self.seed_input@)[j],
            decreases n - i,
        {
            pairs.push((self.seed_input[2 * i], self.seed_input[2 * i + 1]));
            i += 1;
        }
        proof {
            assert(pairs@ =~= paired(self.seed_input@));
        }
        pairs
    }

    /// The lowest location of the seeds, the seed list read two by two as
    /// ranges of a start and a length. Every range goes through the tables as
    /// a whole, whatever its length.
    ///
    /// Fails with the error of the first block whose entries make no table,
    /// otherwise with `ArithmeticOverflow` when a range of seeds reaches
    /// beyond `u64::MAX`, and otherwise with `EmptyDomain` when the ranges
    /// hold no seed.
    pub fn map_all_seeds_p2(&self) -> (r: Result<u64, RangeError>)
        requires
            self.seed_input@.len() % 2 == 0,
        ensures
            match r {
                Ok(m) => {
                    &&& first_table_error(raw_tables(self.maps@)).is_none()
                    &&& ranges_representable(paired(self.seed_input@))
                    &&& is_lowest_of_ranges(
                        raw_tables(self.maps@),
                        paired(self.seed_input@),
                        m as int,
                    )
                },
                Err(e) => match first_table_error(raw_tables(self.maps@)) {
                    Some(t) => e == t,
                    None => if ranges_representable(paired(self.seed_input@)) {
                        &&& e == RangeError::EmptyDomain
                        &&& forall|x: int| !in_ranges(paired(self.seed_input@), x)
                    } else {
                        e == RangeError::ArithmeticOverflow
                    },
                },
            },
    {
        let pipeline: Pipeline = match self.pipeline() {
            Ok(p) => p,
            Err(e) => {
                return Err(e);
            },
        };
        let pairs: Vec<(u64, u64)> = self.seed_ranges();
        let r = lowest_of_ranges(&pipeline, &pairs);
        proof {
            let raw = raw_tables(self.maps@);
            assert forall|i: int| 0 <= i < raw.len() implies entries_well_formed(
                #[trigger] raw[i],
            ) by {
                lemma_no_table_error(raw, i);
            }
            assert forall|x: int| #[trigger]
                pipeline_lookup(raw, x) == pipeline_lookup(pipeline@, x) by {
                lemma_pipeline_lookup_rearranged(raw, pipeline@, x);
            }
            if let Ok(m) = r {
                let w = choose|x: int|
                    in_ranges(pairs@, x) && #[trigger] pipeline_lookup(pipeline@, x) == m;
                assert(in_ranges(pairs@, w) && pipeline_lookup(raw, w) == m);
            }
        }
        r
    }
}

impl Day05 {
    /// The lowest location of the seeds of `input`, each number a seed.
    pub fn part_1(input: &Almanac) -> (r: Result<u64, RangeError>)
        ensures
            match r {
                Ok(m) => {
                    &&& first_table_error(raw_tables(input.maps@)).is_none()
                    &&& is_lowest_of_scalars(raw_tables(input.maps@), input.seed_input@, m as int)
                },
                Err(e) => match first_table_error(raw_tables(input.maps@)) {
                    Some(t) => e == t,
                    None => e == RangeError::EmptyDomain && input.seed_input@.len() == 0,
                },
            },
    {
        input.map_all_seeds_p1()
    }

    /// The lowest location of the seeds of `input`, the numbers read two by
    /// two as ranges.
    pub fn part_2(input: &Almanac) -> (r: Result<u64, RangeError>)
        requires
            input.seed_input@.len() % 2 == 0,
        ensures
            match r {
                Ok(m) => {
                    &&& first_table_error(raw_tables(input.maps@)).is_none()
                    &&& ranges_representable(paired(input.seed_input@))
                    &&& is_lowest_of_ranges(
                        raw_tables(input.maps@),
                        paired(input.seed_input@),
                        m as int,
                    )
                },
                Err(e) => match first_table_error(raw_tables(input.maps@)) {
                    Some(t) => e == t,
                    None => if ranges_representable(paired(input.seed_input@)) {
                        &&& e == RangeError::EmptyDomain
                        &&& forall|x: int| !in_ranges(paired(input.seed_input@), x)
                    } else {
                        e == RangeError::ArithmeticOverflow
                    },
                },
            },
    {
        input.map_all_seeds_p2()
    }
}

/// The name of a thing at `i`, and where it ends.
pub open spec fn spec_thing(s: Seq<char>, i: int) -> Option<(Thing, int)> {
    if spec_tag(s, i, "seed"@).is_some() {
        Some((Thing::Seed, spec_tag(s, i, "seed"@).unwrap()))
    } else if spec_tag(s, i, "soil"@).is_some() {
        Some((Thing::Soil, spec_tag(s, i, "soil"@).unwrap()))
    } else if spec_tag(s, i, "fertilizer"@).is_some() {
        Some((Thing::Fertilizer, spec_tag(s, i, "fertilizer"@).unwrap()))
    } else if spec_tag(s, i, "water"@).is_some() {
        Some((Thing::Water, spec_tag(s, i, "water"@).unwrap()))
    } else if spec_tag(s, i, "light"@).is_some() {
        Some((Thing::Light, spec_tag(s, i, "light"@).unwrap()))
    } else if spec_tag(s, i, "temperature"@).is_some() {
        Some((Thing::Temperature, spec_tag(s, i, "temperature"@).unwrap()))
    } else if spec_tag(s, i, "humidity"@).is_some() {
        Some((Thing::Humidity, spec_tag(s, i, "humidity"@).unwrap()))
    } else if spec_tag(s, i, "location"@).is_some() {
        Some((Thing::Location, spec_tag(s, i, "location"@).unwrap()))
    } else {
        None
    }
}

/// The heading of a block at `i`, such as `seed-to-soil map:`: the two
/// things it names, and where it ends.
pub open spec fn spec_map_desc(s: Seq<char>, i: int) -> Option<((Thing, Thing), int)> {
    match spec_thing(s, i) {
        Some((from, j)) => match spec_tag(s, j, "-to-"@) {
            Some(k) => match spec_thing(s, k) {
                Some((to, m)) => match spec_tag(s, m, " map:"@) {
                    Some(e) => Some(((from, to), e)),
                    None => None,
                },
                None => None,
            },
            None => None,
        },
        None => None,
    }
}

/// One entry at `i`: the destination start, the source start and the length,
/// with spaces between them; and where it ends.
pub open spec fn spec_single_range(s: Seq<char>, i: int) -> Option<(MapRange, int)> {
    match spec_u64(s, i) {
        Some((dest_start, a)) => match spec_run1(s, a, CharClass::Space) {
            Some(b) => match spec_u64(s, b) {
                Some((source_start, c)) => match spec_run1(s, c, CharClass::Space) {
                    Some(d) => match spec_u64(s, d) {
                        Some((length, e)) => Some(
                            (MapRange { dest_start, source_start, length }, e),
                        ),
                        None => None,
                    },
                    None => None,
                },
                None => None,
            },
            None => None,
        },
        None => None,
    }
}

/// Reading one entry.
pub open spec fn range_item() -> spec_fn(Seq<char>, int) -> Option<(MapRange, int)> {
    |s: Seq<char>, i: int| spec_single_range(s, i)
}

/// A block at `i`: its heading, a line end, and its entries, one to a line;
/// and where it ends.
pub open spec fn spec_map_block(s: Seq<char>, i: int) -> Option<
    ((Thing, Thing, Seq<MapRange>), int),
> {
    match spec_map_desc(s, i) {
        Some((names, j)) => match spec_line_ending(s, j) {
            Some(k) => match list1(s, k, range_item(), line_sep()) {
                Some((ranges, e)) => Some(((names.0, names.1, ranges), e)),
                None => None,
            },
            None => None,
        },
        None => None,
    }
}

/// Reading one block.
pub open spec fn block_item() -> spec_fn(Seq<char>, int) -> Option<
    ((Thing, Thing, Seq<MapRange>), int),
> {
    |s: Seq<char>, i: int| spec_map_block(s, i)
}

/// The seed list at `i`: the word `seeds: ` and numbers with spaces between
/// them; and where it ends.
pub open spec fn spec_init_seeds(s: Seq<char>, i: int) -> Option<(Seq<u64>, int)> {
    match spec_tag(s, i, "seeds: "@) {
        Some(j) => list1(s, j, u64_item(), space_sep()),
        None => None,
    }
}

/// An almanac at the start of `s`: the seed list, an empty line, and the
/// blocks with an empty line between each two; and where it ends.
pub open spec fn spec_almanac(s: Seq<char>) -> Option<
    ((Seq<u64>, Seq<(Thing, Thing, Seq<MapRange>)>), int),
> {
    match spec_init_seeds(s, 0) {
        Some((seeds, j)) => match spec_blank_line(s, j) {
            Some(k) => match list1(s, k, block_item(), blank_line_sep()) {
                Some((blocks, e)) => Some(((seeds, blocks), e)),
                None => None,
            },
            None => None,
        },
        None => None,
    }
}

/// What the blocks hold: of each its two names and its entries.
pub open spec fn block_views(maps: Seq<MapBlock>) -> Seq<(Thing, Thing, Seq<MapRange>)> {
    maps.map_values(|b: MapBlock| (b.src_type, b.dest_type, b.ranges@))
}

impl Day05 {
    /// Reads the seed list at `i`.
    pub fn parse_init_seeds(s: &[char], i: usize) -> (r: Option<(Vec<u64>, usize)>)
        ensures
            match r {
                Some((seeds, e)) => spec_init_seeds(s@, i as int) == Some((seeds@, e as int)) && i
                    <= e <= s@.len(),
                None => spec_init_seeds(s@, i as int).is_none(),
            },
    {
        match parse_tag(s, i, "seeds: ") {
            Some(j) => parse_u64_list(s, j),
            None => None,
        }
    }

    /// Reads the name of a thing at `i`.
    pub fn parse_thing_word(s: &[char], i: usize) -> (r: Option<(Thing, usize)>)
        ensures
            match r {
                Some((thing, e)) => spec_thing(s@, i as int) == Some((thing, e as int)) && i <= e
                    <= s@.len(),
                None => spec_thing(s@, i as int).is_none(),
            },
    {
        if let Some(e) = parse_tag(s, i, "seed") {
            Some((Thing::Seed, e))
        } else if let Some(e) = parse_tag(s, i, "soil") {
            Some((Thing::Soil, e))
        } else if let Some(e) = parse_tag(s, i, "fertilizer") {
            Some((Thing::Fertilizer, e))
        } else if let Some(e) = parse_tag(s, i, "water") {
            Some((Thing::Water, e))
        } else if let Some(e) = parse_tag(s, i, "light") {
            Some((Thing::Light, e))
        } else if let Some(e) = parse_tag(s, i, "temperature") {
            Some((Thing::Temperature, e))
        } else if let Some(e) = parse_tag(s, i, "humidity") {
            Some((Thing::Humidity, e))
        } else if let Some(e) = parse_tag(s, i, "location") {
            Some((Thing::Location, e))
        } else {
            None
        }
    }

    /// Reads the heading of a block at `i`.
    pub fn parse_map_desc(s: &[char], i: usize) -> (r: Option<((Thing, Thing), usize)>)
        ensures
            match r {
                Some((names, e)) => spec_map_desc(s@, i as int) == Some((names, e as int)) && i
                    <= e <= s@.len(),
                None => spec_map_desc(s@, i as int).is_none(),
            },
    {
        let (from, j) = match Self::parse_thing_word(s, i) {
            Some(found) => found,
            None => {
                return None;
            },
        };
        let k: usize = match parse_tag(s, j, "-to-") {
            Some(k) => k,
            None => {
                return None;
            },
        };
        let (to, m) = match Self::parse_thing_word(s, k) {
            Some(found) => found,
            None => {
                return None;
            },
        };
        match parse_tag(s, m, " map:") {
            Some(e) => Some(((from, to), e)),
            None => None,
        }
    }

    /// Reads one entry at `i`.
    pub fn parse_single_range(s: &[char], i: usize) -> (r: Option<(MapRange, usize)>)
        requires
            i <= s@.len(),
        ensures
            match r {
                Some((range, e)) => spec_single_range(s@, i as int) == Some((range, e as int))
                    && i < e <= s@.len(),
                None => spec_single_range(s@, i as int).is_none(),
            },
    {
        let (dest_start, a) = match parse_u64(s, i) {
            Some(found) => found,
            None => {
                return None;
            },
        };
        let b: usize = match parse_run1(s, a, CharClass::Space) {
            Some(b) => b,
            None => {
                return None;
            },
        };
        let (source_start, c) = match parse_u64(s, b) {
            Some(found) => found,
            None => {
                return None;
            },
        };
        let d: usize = match parse_run1(s, c, CharClass::Space) {
            Some(d) => d,
            None => {
                return None;
            },
        };
        match parse_u64(s, d) {
            Some((length, e)) => Some((MapRange { dest_start, source_start, length }, e)),
            None => None,
        }
    }

    /// Reads a block at `i`.
    pub fn parse_map_block(s: &[char], i: usize) -> (r: Option<(MapBlock, usize)>)
        ensures
            match r {
                Some((block, e)) => spec_map_block(s@, i as int) == Some(
                    ((block.src_type, block.dest_type, block.ranges@), e as int),
                ) && i < e <= s@.len(),
                None => spec_map_block(s@, i as int).is_none(),
            },
    {
        let (names, j) = match Self::parse_map_desc(s, i) {
            Some(found) => found,
            None => {
                return None;
            },
        };
        let k: usize = match parse_line_ending(s, j) {
            Some(k) => k,
            None => {
                return None;
            },
        };
        let (first, start) = match Self::parse_single_range(s, k) {
            Some(found) => found,
            None => {
                return None;
            },
        };
        let mut ranges: Vec<MapRange> = Vec::new();
        ranges.push(first);
        let mut at: usize = start;
        loop
            invariant
                i <= j < k < at <= s@.len(),
                spec_map_desc(s@, i as int) == Some((names, j as int)),
                spec_line_ending(s@, j as int) == Some(k as int),
                list1(s@, k as int, range_item(), line_sep()) == Some(
                    list_rest(s@, at as int, range_item(), line_sep(), ranges@),
                ),
            decreases s@.len() - at,
        {
            let next: usize = match parse_line_ending(s, at) {
                Some(next) => next,
                None => {
                    return Some(
                        (MapBlock { src_type: names.0, dest_type: names.1, ranges }, at),
                    );
                },
            };
            match Self::parse_single_range(s, next) {
                Some((range, m)) => {
                    ranges.push(range);
                    at = m;
                },
                None => {
                    return Some(
                        (MapBlock { src_type: names.0, dest_type: names.1, ranges }, at),
                    );
                },
            }
        }
    }

    /// Reads an almanac from the start of `input`: the seed list, an empty
    /// line, and the blocks with an empty line between each two. Hands back
    /// the almanac and the number of characters read, or `None` when `input`
    /// does not begin with an almanac.
    pub fn parse(input: &str) -> (r: Option<(Almanac, usize)>)
        ensures
            match r {
                Some((almanac, e)) => spec_almanac(input@) == Some(
                    ((almanac.seed_input@, block_views(almanac.maps@)), e as int),
                ) && e <= input@.len(),
                None => spec_almanac(input@).is_none(),
            },
    {
        let text: Vec<char> = chars_of(input);
        let s: &[char] = text.as_slice();
        let (seed_input, j) = match Self::parse_init_seeds(s, 0) {
            Some(found) => found,
            None => {
                return None;
            },
        };
        let k: usize = match parse_blank_line(s, j) {
            Some(k) => k,
            None => {
                return None;
            },
        };
        let (first, start) = match Self::parse_map_block(s, k) {
            Some(found) => found,
            None => {
                return None;
            },
        };
        let mut maps: Vec<MapBlock> = Vec::new();
        maps.push(first);
        let mut at: usize = start;
        proof {
            assert(block_views(maps@) =~= seq![(maps@[0].src_type, maps@[0].dest_type, maps@[0].ranges@)]);
        }
        loop
            invariant
                s@ == input@,
                j < k < at <= s@.len(),
                spec_init_seeds(s@, 0) == Some((seed_input@, j as int)),
                spec_blank_line(s@, j as int) == Some(k as int),
                list1(s@, k as int, block_item(), blank_line_sep()) == Some(
                    list_rest(s@, at as int, block_item(), blank_line_sep(), block_views(maps@)),
                ),
            decreases s@.len() - at,
        {
            let next: usize = match parse_blank_line(s, at) {
                Some(next) => next,
                None => {
                    return Some((Almanac { seed_input, maps }, at));
                },
            };
            match Self::parse_map_block(s, next) {
                Some((block, m)) => {
                    proof {
                        assert(block_views(maps@.push(block)) =~= block_views(maps@).push(
                            (block.src_type, block.dest_type, block.ranges@),
                        ));
                    }
                    maps.push(block);
                    at = m;
                },
                None => {
                    return Some((Almanac { seed_input, maps }, at));
                },
            }
        }
    }
}

} // verus!
