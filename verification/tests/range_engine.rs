use aoc2023::error::RangeError;
use aoc2023::interval::Interval;
use aoc2023::minimizer::{minimum, minimum_start};
use aoc2023::pipeline::Pipeline;
use aoc2023::range_table::{MapRange, RangeTable};
use aoc2023::seeds::{evaluate, lowest_of_ranges, lowest_of_scalars, SeedSpec};

fn entry(dest_start: u64, source_start: u64, length: u64) -> MapRange {
    MapRange { dest_start, source_start, length }
}

fn table(rows: &[(u64, u64, u64)]) -> RangeTable {
    let entries: Vec<MapRange> = rows.iter().map(|r| entry(r.0, r.1, r.2)).collect();
    RangeTable::from_entries(entries).unwrap()
}

fn iv(start: u64, end: u64) -> Interval {
    Interval { start, end }
}

fn sample_pipeline() -> Pipeline {
    Pipeline::from_tables(vec![
        table(&[(50, 98, 2), (52, 50, 48)]),
        table(&[(0, 15, 37), (37, 52, 2), (39, 0, 15)]),
        table(&[(49, 53, 8), (0, 11, 42), (42, 0, 7), (57, 7, 4)]),
        table(&[(88, 18, 7), (18, 25, 70)]),
        table(&[(45, 77, 23), (81, 45, 19), (68, 64, 13)]),
        table(&[(0, 69, 1), (1, 0, 69)]),
        table(&[(60, 56, 37), (56, 93, 4)]),
    ])
}

fn total(ivs: &[Interval]) -> u64 {
    ivs.iter().map(|i| i.end - i.start).sum()
}

#[test]
fn test_ordering() {
    let res_a = MapRange {
        dest_start: 10,
        source_start: 1000,
        length: 0,
    };
    let res_b = MapRange {
        dest_start: 20,
        source_start: 0,
        length: 0,
    };
    assert!(res_b > res_a);
    assert!(res_a < res_b);
    let res_c: Option<MapRange> = None;
    let res_d = MapRange {
        dest_start: 10,
        source_start: 0,
        length: 0,
    };
    assert!(res_c < Some(res_d));
}

#[test]
fn lookup_is_exact_at_the_boundaries() {
    let t = table(&[(100, 10, 5)]);
    assert_eq!(t.lookup_scalar(9), 9);
    assert_eq!(t.lookup_scalar(10), 100);
    assert_eq!(t.lookup_scalar(14), 104);
    assert_eq!(t.lookup_scalar(15), 15);
}

#[test]
fn lookup_passes_through_an_empty_table() {
    let t = RangeTable::empty();
    assert_eq!(t.lookup_scalar(0), 0);
    assert_eq!(t.lookup_scalar(u64::MAX), u64::MAX);
    assert_eq!(t.map_interval(iv(3, 9)), vec![iv(3, 9)]);
}

#[test]
fn lookup_follows_the_first_sample_table() {
    let t = table(&[(50, 98, 2), (52, 50, 48)]);
    assert_eq!(t.lookup_scalar(0), 0);
    assert_eq!(t.lookup_scalar(49), 49);
    assert_eq!(t.lookup_scalar(50), 52);
    assert_eq!(t.lookup_scalar(79), 81);
    assert_eq!(t.lookup_scalar(97), 99);
    assert_eq!(t.lookup_scalar(98), 50);
    assert_eq!(t.lookup_scalar(99), 51);
    assert_eq!(t.lookup_scalar(100), 100);
}

#[test]
fn map_interval_splits_at_every_boundary() {
    let t = table(&[(100, 10, 5), (200, 20, 5)]);
    assert_eq!(
        t.map_interval(iv(5, 30)),
        vec![iv(5, 10), iv(100, 105), iv(15, 20), iv(200, 205), iv(25, 30)]
    );
}

#[test]
fn map_interval_clips_partial_overlaps() {
    let t = table(&[(100, 10, 5)]);
    assert_eq!(t.map_interval(iv(12, 20)), vec![iv(102, 105), iv(15, 20)]);
    assert_eq!(t.map_interval(iv(0, 12)), vec![iv(0, 10), iv(100, 102)]);
    assert_eq!(t.map_interval(iv(11, 13)), vec![iv(101, 103)]);
    assert_eq!(t.map_interval(iv(10, 15)), vec![iv(100, 105)]);
}

#[test]
fn map_interval_leaves_untouched_what_no_entry_covers() {
    let t = table(&[(100, 10, 5)]);
    assert_eq!(t.map_interval(iv(0, 10)), vec![iv(0, 10)]);
    assert_eq!(t.map_interval(iv(15, 40)), vec![iv(15, 40)]);
}

#[test]
fn map_interval_keeps_adjacent_entries_apart() {
    let t = table(&[(100, 10, 5), (105, 15, 5)]);
    assert_eq!(t.map_interval(iv(10, 20)), vec![iv(100, 105), iv(105, 110)]);
}

#[test]
fn map_interval_of_an_empty_interval_is_empty() {
    let t = table(&[(100, 10, 5)]);
    assert_eq!(t.map_interval(iv(12, 12)), Vec::<Interval>::new());
    assert_eq!(RangeTable::empty().map_interval(iv(0, 0)), Vec::<Interval>::new());
}

#[test]
fn map_interval_preserves_total_length() {
    let t = table(&[(49, 53, 8), (0, 11, 42), (42, 0, 7), (57, 7, 4)]);
    for (s, e) in [(0u64, 100u64), (5, 9), (7, 60), (10, 11), (52, 54), (61, 1000)] {
        let out = t.map_interval(iv(s, e));
        assert_eq!(total(&out), e - s);
        assert!(out.iter().all(|o| o.start < o.end));
        assert!(out.len() <= 2 * 4 + 1);
    }
}

#[test]
fn map_interval_agrees_with_lookup_on_single_numbers() {
    let t = table(&[(50, 98, 2), (52, 50, 48)]);
    for x in 0u64..120 {
        let y = t.lookup_scalar(x);
        assert_eq!(t.map_interval(iv(x, x + 1)), vec![iv(y, y + 1)]);
    }
}

#[test]
fn construction_does_not_depend_on_the_order_of_entries() {
    let a = table(&[(49, 53, 8), (0, 11, 42), (42, 0, 7), (57, 7, 4)]);
    let b = table(&[(57, 7, 4), (42, 0, 7), (49, 53, 8), (0, 11, 42)]);
    let c = table(&[(42, 0, 7), (57, 7, 4), (0, 11, 42), (49, 53, 8)]);
    for (s, e) in [(0u64, 100u64), (5, 9), (7, 60), (10, 11), (52, 54)] {
        let out = a.map_interval(iv(s, e));
        assert_eq!(out, b.map_interval(iv(s, e)));
        assert_eq!(out, c.map_interval(iv(s, e)));
    }
    for x in 0u64..70 {
        assert_eq!(a.lookup_scalar(x), b.lookup_scalar(x));
        assert_eq!(a.lookup_scalar(x), c.lookup_scalar(x));
    }
}

#[test]
fn overlapping_entries_are_rejected() {
    let r = RangeTable::from_entries(vec![entry(100, 10, 5), entry(200, 14, 5)]);
    assert!(matches!(r, Err(RangeError::MalformedTable)));
    let r = RangeTable::from_entries(vec![entry(200, 14, 5), entry(100, 10, 5)]);
    assert!(matches!(r, Err(RangeError::MalformedTable)));
    let r = RangeTable::from_entries(vec![entry(1, 10, 5), entry(2, 10, 5)]);
    assert!(matches!(r, Err(RangeError::MalformedTable)));
}

#[test]
fn entries_are_kept_sorted_by_source_start() {
    let t = table(&[(49, 53, 8), (0, 11, 42), (42, 0, 7), (57, 7, 4)]);
    assert_eq!(t.len(), 4);
    assert_eq!(
        t.entries(),
        &vec![entry(42, 0, 7), entry(57, 7, 4), entry(0, 11, 42), entry(49, 53, 8)]
    );
    assert_eq!(RangeTable::empty().len(), 0);
}

#[test]
fn touching_entries_are_accepted() {
    let r = RangeTable::from_entries(vec![entry(100, 10, 5), entry(200, 15, 5)]);
    assert!(r.is_ok());
}

#[test]
fn zero_length_entries_are_rejected() {
    let r = RangeTable::from_entries(vec![entry(100, 10, 0)]);
    assert!(matches!(r, Err(RangeError::MalformedTable)));
    let r = RangeTable::from_entries(vec![entry(100, 10, 5), entry(0, u64::MAX, 0)]);
    assert!(matches!(r, Err(RangeError::MalformedTable)));
}

#[test]
fn entries_beyond_the_number_range_are_rejected() {
    let r = RangeTable::from_entries(vec![entry(0, u64::MAX, 1)]);
    assert!(matches!(r, Err(RangeError::ArithmeticOverflow)));
    let r = RangeTable::from_entries(vec![entry(u64::MAX - 3, 10, 5)]);
    assert!(matches!(r, Err(RangeError::ArithmeticOverflow)));
    let r = RangeTable::from_entries(vec![entry(u64::MAX - 5, 10, 5)]);
    assert!(r.is_ok());
    assert_eq!(r.unwrap().lookup_scalar(14), u64::MAX - 1);
}

#[test]
fn overlap_is_reported_before_overflow() {
    let r = RangeTable::from_entries(vec![entry(0, u64::MAX, 1), entry(5, 10, 5), entry(6, 12, 1)]);
    assert!(matches!(r, Err(RangeError::MalformedTable)));
}

#[test]
fn empty_pipeline_is_the_identity() {
    let p = Pipeline::from_tables(Vec::new());
    assert_eq!(p.len(), 0);
    assert_eq!(p.apply(iv(79, 93)), vec![iv(79, 93)]);
    assert_eq!(p.apply(iv(7, 7)), vec![iv(7, 7)]);
    assert_eq!(p.apply_scalar(79), 79);
}

#[test]
fn pipeline_applies_tables_from_first_to_last() {
    let p = Pipeline::from_tables(vec![table(&[(10, 0, 5)]), table(&[(100, 10, 5)])]);
    assert_eq!(p.apply_scalar(3), 103);
    let q = Pipeline::from_tables(vec![table(&[(100, 10, 5)]), table(&[(10, 0, 5)])]);
    assert_eq!(q.apply_scalar(3), 13);
    assert_eq!(p.apply(iv(0, 8)), vec![iv(100, 105), iv(5, 8)]);
}

#[test]
fn pipeline_keeps_pieces_unmerged() {
    let p = Pipeline::from_tables(vec![table(&[(0, 10, 5)]), table(&[(50, 100, 1)])]);
    assert_eq!(p.apply(iv(8, 12)), vec![iv(8, 10), iv(0, 2)]);
    let q = Pipeline::from_tables(vec![table(&[(10, 20, 5)])]);
    assert_eq!(q.apply(iv(5, 25)), vec![iv(5, 20), iv(10, 15)]);
}

#[test]
fn pipeline_preserves_total_length_at_every_stage() {
    let p = sample_pipeline();
    for (s, e) in [(79u64, 93u64), (55, 68), (0, 100), (0, 1000), (98, 99)] {
        let out = p.apply(iv(s, e));
        assert_eq!(total(&out), e - s);
        assert!(out.iter().all(|o| o.start < o.end));
    }
}

#[test]
fn sample_seeds_reach_their_locations() {
    let p = sample_pipeline();
    assert_eq!(p.apply_scalar(79), 82);
    assert_eq!(p.apply_scalar(14), 43);
    assert_eq!(p.apply_scalar(55), 86);
    assert_eq!(p.apply_scalar(13), 35);
    assert_eq!(p.apply_scalar(82), 46);
}

#[test]
fn sample_scalar_minimum_is_35() {
    let p = sample_pipeline();
    assert_eq!(lowest_of_scalars(&p, &vec![79, 14, 55, 13]), Ok(35));
    assert_eq!(evaluate(&p, &SeedSpec::Scalars(vec![79, 14, 55, 13])), Ok(35));
    let images: Vec<u64> = [79u64, 14, 55, 13].iter().map(|s| p.apply_scalar(*s)).collect();
    assert_eq!(minimum(&images), Ok(35));
}

#[test]
fn sample_range_minimum_is_46() {
    let p = sample_pipeline();
    assert_eq!(lowest_of_ranges(&p, &vec![(79, 14), (55, 13)]), Ok(46));
    assert_eq!(evaluate(&p, &SeedSpec::Ranges(vec![(79, 14), (55, 13)])), Ok(46));
    let mut all: Vec<Interval> = p.apply(iv(79, 93));
    all.extend(p.apply(iv(55, 68)));
    assert_eq!(minimum_start(&all), Ok(46));
}

#[test]
fn range_minimum_agrees_with_scalar_minimum() {
    let p = sample_pipeline();
    for (start, length) in [(79u64, 14u64), (55, 13), (0, 100), (40, 3)] {
        let by_points = (start..start + length).map(|x| p.apply_scalar(x)).min().unwrap();
        assert_eq!(lowest_of_ranges(&p, &vec![(start, length)]), Ok(by_points));
    }
}

#[test]
fn large_ranges_are_mapped_as_a_whole() {
    let p = Pipeline::from_tables(vec![
        table(&[(5_000_000_000_000, 1_000_000_000, 2_000_000_000)]),
        table(&[(7, 5_000_000_500_000, 1_000_000)]),
    ]);
    let seeds = vec![(0u64, 1_000_000_000_000u64), (2_000_000_000_000, 3_000_000_000_000)];
    assert_eq!(lowest_of_ranges(&p, &seeds), Ok(0));
    let seeds = vec![(1_000_500_000u64, 1_000_000_000u64)];
    assert_eq!(lowest_of_ranges(&p, &seeds), Ok(7));
    let out = p.apply(iv(0, 1_000_000_000_000));
    assert_eq!(total(&out), 1_000_000_000_000);
    assert!(out.len() <= 9);
}

#[test]
fn minimum_of_nothing_is_an_error() {
    assert_eq!(minimum(&[]), Err(RangeError::EmptyDomain));
    assert_eq!(minimum_start(&[]), Err(RangeError::EmptyDomain));
    let p = sample_pipeline();
    assert_eq!(lowest_of_scalars(&p, &Vec::new()), Err(RangeError::EmptyDomain));
    assert_eq!(lowest_of_ranges(&p, &Vec::new()), Err(RangeError::EmptyDomain));
    assert_eq!(lowest_of_ranges(&p, &vec![(5, 0), (9, 0)]), Err(RangeError::EmptyDomain));
    assert_eq!(evaluate(&p, &SeedSpec::Ranges(vec![(5, 0)])), Err(RangeError::EmptyDomain));
}

#[test]
fn minimum_picks_the_smallest() {
    assert_eq!(minimum(&[82, 43, 86, 35]), Ok(35));
    assert_eq!(minimum(&[7]), Ok(7));
    assert_eq!(minimum(&[3, 3, 9]), Ok(3));
    assert_eq!(minimum_start(&[iv(60, 61), iv(46, 57), iv(82, 85)]), Ok(46));
    assert_eq!(minimum_start(&[iv(5, 5)]), Ok(5));
}

#[test]
fn seed_ranges_beyond_the_number_range_are_rejected() {
    let p = sample_pipeline();
    assert_eq!(
        lowest_of_ranges(&p, &vec![(79, 14), (u64::MAX, 1)]),
        Err(RangeError::ArithmeticOverflow)
    );
    assert_eq!(lowest_of_ranges(&p, &vec![(u64::MAX - 1, 1)]), Ok(u64::MAX - 1));
}

#[test]
fn empty_ranges_are_skipped() {
    let p = Pipeline::from_tables(Vec::new());
    assert_eq!(lowest_of_ranges(&p, &vec![(3, 0), (9, 2)]), Ok(9));
}

#[test]
fn interval_new_checks_the_bounds() {
    assert_eq!(Interval::new(3, 9), Some(iv(3, 9)));
    assert_eq!(Interval::new(3, 3), Some(iv(3, 3)));
    assert_eq!(Interval::new(9, 3), None);
    assert_eq!(iv(3, 9).len(), 6);
    assert!(iv(3, 3).is_empty());
    assert!(!iv(3, 4).is_empty());
}
