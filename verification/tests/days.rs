use aoc2023::day01::{first_last, Day01};
use aoc2023::day02::{Day02, Game, Observation};
use aoc2023::day03::{
    capped_increment, char_at, collides_with, field_dimensions, Coordinate, Day03,
};
use aoc2023::day04::{Card, Day04};
use aoc2023::day05::{Almanac, Day05, MapBlock, Thing};
use aoc2023::day06::{combine_digits, Day06, Race};
use aoc2023::day08::{create_btm, sided, Day08, Direction, Follower, Network, Node};
use aoc2023::error::RangeError;
use aoc2023::range_table::MapRange;

#[test]
fn test_hold_time_example() {
    let race1 = Race {
        time_ms: 7,
        record_distance_mm: 9,
    };
    assert_eq!(race1.travel_distance(0), 0);
    assert_eq!(race1.travel_distance(1), 6);
    assert_eq!(race1.travel_distance(2), 10);
    assert_eq!(race1.travel_distance(3), 12);
    assert_eq!(race1.travel_distance(4), 12);
    assert_eq!(race1.travel_distance(5), 10);
    assert_eq!(race1.travel_distance(6), 6);
    assert_eq!(race1.travel_distance(7), 0);
    assert_eq!(race1.travel_distance(u64::MAX), 0);
}

#[test]
fn first_and_last_digits_of_a_line() {
    assert_eq!(Day01::first_last_digits("1abc2"), (1, 2));
    assert_eq!(Day01::first_last_digits("pqr3stu8vwx"), (3, 8));
    assert_eq!(Day01::first_last_digits("a1b2c3d4e5f"), (1, 5));
    assert_eq!(Day01::first_last_digits("treb7uchet"), (7, 7));
    assert_eq!(Day01::first_last_digits("two1nine"), (1, 1));
}

#[test]
fn first_and_last_digits_with_words() {
    assert_eq!(Day01::first_last_digits_words("two1nine"), (2, 9));
    assert_eq!(Day01::first_last_digits_words("eightwothree"), (8, 3));
    assert_eq!(Day01::first_last_digits_words("abcone2threexyz"), (1, 3));
    assert_eq!(Day01::first_last_digits_words("xtwone3four"), (2, 4));
    assert_eq!(Day01::first_last_digits_words("4nineeightseven2"), (4, 2));
    assert_eq!(Day01::first_last_digits_words("zoneight234"), (1, 4));
    assert_eq!(Day01::first_last_digits_words("7pqrstsixteen"), (7, 6));
    assert_eq!(Day01::first_last_digits_words("oneight"), (1, 8));
    assert_eq!(Day01::first_last_digits_words("five"), (5, 5));
}

fn chars(text: &str) -> Vec<char> {
    text.chars().collect()
}

#[test]
fn lines_without_a_digit_have_no_first_and_last() {
    assert_eq!(first_last(&chars("abc"), false), None);
    assert_eq!(first_last(&chars(""), true), None);
    assert_eq!(first_last(&chars("one"), false), None);
    assert_eq!(first_last(&chars("one"), true), Some((1, 1)));
    assert_eq!(first_last(&chars("on"), true), None);
    assert_eq!(first_last(&chars("x9"), false), Some((9, 9)));
    assert_eq!(first_last(&chars("threeight"), true), Some((3, 8)));
    assert_eq!(first_last(&chars("sevenine"), true), Some((7, 9)));
}

#[test]
fn combine_nums_makes_a_two_digit_number() {
    assert_eq!(Day01::combine_nums((1, 2)), 12);
    assert_eq!(Day01::combine_nums((0, 0)), 0);
    assert_eq!(Day01::combine_nums((9, 9)), 99);
}

#[test]
fn calibration_sums_of_the_samples() {
    let lines: Vec<String> =
        ["1abc2", "pqr3stu8vwx", "a1b2c3d4e5f", "treb7uchet"].iter().map(|s| s.to_string()).collect();
    assert_eq!(Day01::part_1(&lines), 142);
    let lines: Vec<String> = [
        "two1nine",
        "eightwothree",
        "abcone2threexyz",
        "xtwone3four",
        "4nineeightseven2",
        "zoneight234",
        "7pqrstsixteen",
    ]
    .iter()
    .map(|s| s.to_string())
    .collect();
    assert_eq!(Day01::part_2(&lines), 281);
    assert_eq!(Day01::part_1(&Vec::new()), 0);
}

fn obs(red: u64, green: u64, blue: u64) -> Observation {
    Observation { red, green, blue }
}

fn sample_games() -> Vec<Game> {
    vec![
        Game { index: 1, observations: vec![obs(4, 0, 3), obs(1, 2, 6), obs(0, 2, 0)] },
        Game { index: 2, observations: vec![obs(0, 2, 1), obs(1, 3, 4), obs(0, 1, 1)] },
        Game { index: 3, observations: vec![obs(20, 8, 6), obs(4, 13, 5), obs(1, 5, 0)] },
        Game { index: 4, observations: vec![obs(3, 1, 6), obs(6, 3, 0), obs(14, 3, 15)] },
        Game { index: 5, observations: vec![obs(6, 3, 1), obs(1, 2, 2)] },
    ]
}

#[test]
fn observations_are_held_against_the_bag() {
    assert!(obs(12, 13, 14).is_valid_part1());
    assert!(!obs(13, 13, 14).is_valid_part1());
    assert!(!obs(12, 14, 14).is_valid_part1());
    assert!(!obs(12, 13, 15).is_valid_part1());
    assert_eq!(obs(4, 2, 6).power(), 48);
    assert_eq!(obs(0, u64::MAX, u64::MAX).power(), 0);
    assert_eq!(Observation::default(), obs(0, 0, 0));
}

#[test]
fn games_of_the_sample() {
    let games = sample_games();
    let possible: Vec<bool> = games.iter().map(|g| g.possible_part1()).collect();
    assert_eq!(possible, vec![true, true, false, false, true]);
    assert_eq!(games[0].minimum_cubes(), obs(4, 2, 6));
    assert_eq!(games[2].minimum_cubes(), obs(20, 13, 6));
    assert_eq!(Game { index: 9, observations: Vec::new() }.minimum_cubes(), obs(0, 0, 0));
    assert_eq!(Day02::part_1(&games), 8);
    assert_eq!(Day02::part_2(&games), 2286);
}

fn field(lines: &[&str]) -> Vec<Vec<char>> {
    lines.iter().map(|l| l.chars().collect()).collect()
}

#[test]
fn coordinates_need_both_parts() {
    assert_eq!(Coordinate::new(Some(1), Some(2)), Some(Coordinate { row: 1, column: 2 }));
    assert_eq!(Coordinate::new(None, Some(2)), None);
    assert_eq!(Coordinate::new(Some(1), None), None);
    assert_eq!(Coordinate::new(None, None), None);
}

#[test]
fn characters_are_found_inside_the_field_only() {
    let f = field(&["ab", "cde"]);
    assert_eq!(char_at(&f, &Some(Coordinate { row: 0, column: 1 })), Some('b'));
    assert_eq!(char_at(&f, &Some(Coordinate { row: 1, column: 2 })), Some('e'));
    assert_eq!(char_at(&f, &Some(Coordinate { row: 0, column: 2 })), None);
    assert_eq!(char_at(&f, &Some(Coordinate { row: 2, column: 0 })), None);
    assert_eq!(char_at(&f, &None), None);
}

#[test]
fn field_measures_and_capped_steps() {
    let f = field(&["abc", "def"]);
    let size = field_dimensions(&f);
    assert_eq!(size.rows, 3);
    assert_eq!(size.columns, 2);
    let empty = field_dimensions(&Vec::new());
    assert_eq!((empty.rows, empty.columns), (0, 0));
    assert_eq!(capped_increment(0, 3), Some(1));
    assert_eq!(capped_increment(2, 3), None);
    assert_eq!(capped_increment(3, 3), Some(4));
}

#[test]
fn neighbours_of_a_place() {
    let f = field(&["abc", "def", "ghi"]);
    let c = |row: usize, column: usize| Some(Coordinate { row, column });
    assert_eq!(
        collides_with(&f, &Coordinate { row: 1, column: 1 }),
        [c(0, 0), c(0, 1), c(0, 2), c(1, 0), c(1, 2), c(2, 0), c(2, 1), c(2, 2)]
    );
    assert_eq!(
        collides_with(&f, &Coordinate { row: 0, column: 0 }),
        [None, None, None, None, c(0, 1), None, c(1, 0), c(1, 1)]
    );
    assert_eq!(
        collides_with(&f, &Coordinate { row: 2, column: 2 }),
        [c(1, 1), c(1, 2), None, c(2, 1), None, None, None, None]
    );
}

#[test]
fn symbols_next_to_a_place() {
    let f = field(&["12.", "..*", "..."]);
    assert!(Day03::touches_symbol(&f, &Coordinate { row: 0, column: 1 }));
    assert!(!Day03::touches_symbol(&f, &Coordinate { row: 0, column: 0 }));
    assert!(Day03::touches_symbol(&f, &Coordinate { row: 2, column: 2 }));
    assert!(!Day03::touches_symbol(&f, &Coordinate { row: 2, column: 0 }));
    let dots = field(&["1.2", "...", "..."]);
    assert!(!Day03::touches_symbol(&dots, &Coordinate { row: 1, column: 1 }));
}

#[test]
fn places_next_to_a_symbol_are_listed_in_order() {
    let f = field(&["12.", "..*", "..."]);
    let c = |row: usize, column: usize| Coordinate { row, column };
    assert_eq!(
        Day03::symbol_hits(&f),
        vec![c(0, 1), c(0, 2), c(1, 1), c(2, 1), c(2, 2)]
    );
    assert_eq!(Day03::symbol_hits(&field(&["1.2", "...", "..."])), Vec::new());
    assert_eq!(Day03::symbol_hits(&Vec::new()), Vec::new());
    assert_eq!(Day03::symbol_hits(&field(&["", "#"])), Vec::new());
}

#[test]
fn columns_are_capped_by_the_number_of_lines() {
    let f = field(&["467..114..", "...*......", "..35..633."]);
    let c = |row: usize, column: usize| Some(Coordinate { row, column });
    assert_eq!(
        collides_with(&f, &Coordinate { row: 0, column: 2 }),
        [None, None, None, c(0, 1), None, c(1, 1), c(1, 2), None]
    );
    assert!(!Day03::touches_symbol(&f, &Coordinate { row: 0, column: 2 }));
}

fn card(index: u32, winners: &[u32], contestants: &[u32]) -> Card {
    Card { index, winners: winners.to_vec(), contestants: contestants.to_vec() }
}

fn sample_cards() -> Vec<Card> {
    vec![
        card(1, &[41, 48, 83, 86, 17], &[83, 86, 6, 31, 17, 9, 48, 53]),
        card(2, &[13, 32, 20, 16, 61], &[61, 30, 68, 82, 17, 32, 24, 19]),
        card(3, &[1, 21, 53, 59, 44], &[69, 82, 63, 72, 16, 21, 14, 1]),
        card(4, &[41, 92, 73, 84, 69], &[59, 84, 76, 51, 58, 5, 54, 83]),
        card(5, &[87, 83, 26, 28, 32], &[88, 30, 70, 12, 93, 22, 82, 36]),
        card(6, &[31, 18, 13, 56, 72], &[74, 77, 10, 23, 35, 67, 36, 11]),
    ]
}

#[test]
fn card_scores() {
    assert_eq!(Card::score(0), 0);
    assert_eq!(Card::score(1), 1);
    assert_eq!(Card::score(2), 2);
    assert_eq!(Card::score(4), 8);
    assert_eq!(Card::score(32), 2147483648);
    let cards = sample_cards();
    let found: Vec<usize> = cards.iter().map(|c| c.num_matches()).collect();
    assert_eq!(found, vec![4, 2, 2, 1, 0, 0]);
    assert_eq!(cards[0].score_p1(), 8);
    assert_eq!(cards[4].score_p1(), 0);
    assert_eq!(cards[0].win_indexes(), Some((2, 5)));
    assert_eq!(cards[3].win_indexes(), Some((5, 5)));
    assert_eq!(cards[5].win_indexes(), None);
}

#[test]
fn cards_are_the_same_by_their_number() {
    assert!(card(1, &[1], &[2]) == card(1, &[3], &[4]));
    assert!(card(1, &[1], &[2]) != card(2, &[1], &[2]));
}

#[test]
fn repeated_held_numbers_count_each_time() {
    assert_eq!(card(1, &[5], &[5, 5, 7]).num_matches(), 2);
    assert_eq!(card(1, &[5, 5], &[5]).num_matches(), 1);
}

#[test]
fn card_piles_of_the_sample() {
    let cards = sample_cards();
    assert_eq!(Day04::part_1(&cards), 13);
    assert_eq!(Day04::part_2(&cards), Some(30));
    assert_eq!(Day04::part_2(&Vec::new()), Some(0));
    assert_eq!(Day04::part_2(&vec![card(1, &[], &[])]), Some(1));
}

#[test]
fn digits_are_written_one_after_another() {
    assert_eq!(combine_digits(7, 15), Some(715));
    assert_eq!(combine_digits(715, 30), Some(71530));
    assert_eq!(combine_digits(0, 15), Some(15));
    assert_eq!(combine_digits(15, 0), Some(150));
    assert_eq!(combine_digits(0, 0), Some(0));
    assert_eq!(combine_digits(1844674407370955161, 5), Some(u64::MAX));
    assert_eq!(combine_digits(1844674407370955161, 6), None);
    assert_eq!(combine_digits(1, u64::MAX), None);
    assert_eq!(combine_digits(0, u64::MAX), Some(u64::MAX));
    assert_eq!(combine_digits(u64::MAX, 0), None);
}

#[test]
fn races_of_the_sample() {
    let races = vec![
        Race { time_ms: 7, record_distance_mm: 9 },
        Race { time_ms: 15, record_distance_mm: 40 },
        Race { time_ms: 30, record_distance_mm: 200 },
    ];
    assert_eq!(races[0].count_ways_to_win(), 4);
    assert_eq!(races[1].count_ways_to_win(), 8);
    assert_eq!(races[2].count_ways_to_win(), 9);
    assert_eq!(Day06::part_1(&races), 288);
    assert_eq!(Day06::merge(&races), Some(Race { time_ms: 71530, record_distance_mm: 940200 }));
    assert_eq!(Day06::part_2(&races), 71503);
    assert_eq!(Day06::part_1(&Vec::new()), 1);
    assert_eq!(Day06::merge(&Vec::new()), None);
    assert_eq!(Race::default(), Race { time_ms: 0, record_distance_mm: 0 });
    assert_eq!(Race::default().count_ways_to_win(), 0);
}

fn node(name: &str, left: &str, right: &str) -> Node {
    Node { node: name.to_string(), direction: (left.to_string(), right.to_string()) }
}

fn sample_network() -> Network {
    Network {
        lr_instructions: vec![Direction::Left, Direction::Left, Direction::Right],
        nodes: vec![node("AAA", "BBB", "BBB"), node("BBB", "AAA", "ZZZ"), node("ZZZ", "ZZZ", "ZZZ")],
    }
}

#[test]
fn sided_picks_left_or_right() {
    let pair = ("l", "r");
    assert_eq!(sided(&pair, &Direction::Left), "l");
    assert_eq!(sided(&pair, &Direction::Right), "r");
}

#[test]
fn nodes_are_found_by_name() {
    let net = sample_network();
    let map = create_btm(&net);
    let found = map.get(&"BBB".to_string()).unwrap();
    assert_eq!((found.0.as_str(), found.1.as_str()), ("AAA", "ZZZ"));
    assert!(map.get(&"CCC".to_string()).is_none());
    let twice = Network {
        lr_instructions: vec![Direction::Left],
        nodes: vec![node("AAA", "BBB", "BBB"), node("AAA", "CCC", "DDD")],
    };
    let map = create_btm(&twice);
    let found = map.get(&"AAA".to_string()).unwrap();
    assert_eq!((found.0.as_str(), found.1.as_str()), ("CCC", "DDD"));
}

#[test]
fn follower_walks_step_by_step() {
    let net = sample_network();
    let map = create_btm(&net);
    let mut f = Follower::new("AAA", &map);
    assert_eq!(f.step_count(), 0);
    assert!(!f.is_completed());
    assert!(!f.step(&Direction::Left));
    assert_eq!(f.step_count(), 1);
    assert!(f.step(&Direction::Right));
    assert!(f.is_completed());
    assert_eq!(f.step_count(), 2);
    assert!(f.step(&Direction::Left));
    assert_eq!(f.step_count(), 3);
    let mut g = Follower::new("ZZZ", &map);
    assert!(!g.is_completed());
    assert!(g.step(&Direction::Left));
}

#[test]
fn walkers_start_at_the_nodes_that_end_with_a() {
    let net = Network {
        lr_instructions: vec![Direction::Left, Direction::Right],
        nodes: vec![
            node("AAA", "AAB", "XXX"),
            node("AAB", "XXX", "AAZ"),
            node("AAZ", "AAB", "XXX"),
            node("BBA", "BBB", "XXX"),
            node("BBB", "BBC", "BBC"),
            node("BBC", "BBZ", "BBZ"),
            node("BBZ", "BBB", "BBB"),
            node("XXX", "XXX", "XXX"),
        ],
    };
    let map = create_btm(&net);
    let mut running = Day08::followers(&net, &map);
    assert_eq!(running.len(), 2);
    assert!(running.iter().all(|f| f.step_count() == 0 && !f.is_completed()));
    assert!(!running[0].step(&Direction::Left));
    assert!(running[0].step(&Direction::Right));
    assert!(!running[1].step(&Direction::Left));
    assert!(!running[1].step(&Direction::Right));
    assert!(running[1].step(&Direction::Left));
    assert_eq!(running[1].step_count(), 3);
    let none = Network { lr_instructions: Vec::new(), nodes: vec![node("AAB", "AAB", "AAB")] };
    assert_eq!(Day08::followers(&none, &create_btm(&none)).len(), 0);
    assert!(format!("{:?}", running[0]).starts_with("Follower"));
}

#[test]
fn walks_of_the_samples() {
    assert_eq!(Day08::part_1(&sample_network()), Some(6));
    let net = Network {
        lr_instructions: vec![Direction::Right, Direction::Left],
        nodes: vec![
            node("AAA", "BBB", "CCC"),
            node("BBB", "DDD", "EEE"),
            node("CCC", "ZZZ", "GGG"),
            node("DDD", "DDD", "DDD"),
            node("EEE", "EEE", "EEE"),
            node("GGG", "GGG", "GGG"),
            node("ZZZ", "ZZZ", "ZZZ"),
        ],
    };
    assert_eq!(Day08::part_1(&net), Some(2));
}

#[test]
fn walks_that_leave_the_network_or_have_no_instructions() {
    let lost = Network {
        lr_instructions: vec![Direction::Left],
        nodes: vec![node("AAA", "BBB", "BBB")],
    };
    assert_eq!(Day08::part_1(&lost), None);
    let nowhere = Network { lr_instructions: vec![Direction::Left], nodes: Vec::new() };
    assert_eq!(Day08::part_1(&nowhere), None);
    let idle = Network { lr_instructions: Vec::new(), nodes: vec![node("AAA", "ZZZ", "ZZZ")] };
    assert_eq!(Day08::part_1(&idle), Some(0));
}

fn block(src_type: Thing, dest_type: Thing, rows: &[(u64, u64, u64)]) -> MapBlock {
    MapBlock {
        src_type,
        dest_type,
        ranges: rows
            .iter()
            .map(|r| MapRange { dest_start: r.0, source_start: r.1, length: r.2 })
            .collect(),
    }
}

fn sample_almanac() -> Almanac {
    Almanac {
        seed_input: vec![79, 14, 55, 13],
        maps: vec![
            block(Thing::Seed, Thing::Soil, &[(50, 98, 2), (52, 50, 48)]),
            block(Thing::Soil, Thing::Fertilizer, &[(0, 15, 37), (37, 52, 2), (39, 0, 15)]),
            block(
                Thing::Fertilizer,
                Thing::Water,
                &[(49, 53, 8), (0, 11, 42), (42, 0, 7), (57, 7, 4)],
            ),
            block(Thing::Water, Thing::Light, &[(88, 18, 7), (18, 25, 70)]),
            block(Thing::Light, Thing::Temperature, &[(45, 77, 23), (81, 45, 19), (68, 64, 13)]),
            block(Thing::Temperature, Thing::Humidity, &[(0, 69, 1), (1, 0, 69)]),
            block(Thing::Humidity, Thing::Location, &[(60, 56, 37), (56, 93, 4)]),
        ],
    }
}

#[test]
fn almanac_of_the_sample() {
    let almanac = sample_almanac();
    assert_eq!(almanac.map_all_seeds_p1(), Ok(35));
    assert_eq!(almanac.map_all_seeds_p2(), Ok(46));
    assert_eq!(almanac.seed_ranges(), vec![(79, 14), (55, 13)]);
    assert_eq!(Day05::part_1(&almanac), Ok(35));
    assert_eq!(Day05::part_2(&almanac), Ok(46));
}

#[test]
fn almanac_without_seeds() {
    let mut almanac = sample_almanac();
    almanac.seed_input = Vec::new();
    assert_eq!(Day05::part_1(&almanac), Err(RangeError::EmptyDomain));
    assert_eq!(Day05::part_2(&almanac), Err(RangeError::EmptyDomain));
    almanac.seed_input = vec![u64::MAX, 2];
    assert_eq!(Day05::part_2(&almanac), Err(RangeError::ArithmeticOverflow));
}

#[test]
fn almanac_with_a_bad_table() {
    let mut almanac = sample_almanac();
    almanac.maps[3] = block(Thing::Water, Thing::Light, &[(88, 18, 7), (18, 24, 70)]);
    assert!(matches!(almanac.pipeline(), Err(RangeError::MalformedTable)));
    assert_eq!(Day05::part_1(&almanac), Err(RangeError::MalformedTable));
    assert_eq!(Day05::part_2(&almanac), Err(RangeError::MalformedTable));
    almanac.seed_input = Vec::new();
    assert_eq!(Day05::part_1(&almanac), Err(RangeError::MalformedTable));
    almanac.maps[3] = block(Thing::Water, Thing::Light, &[(u64::MAX, 18, 7)]);
    assert_eq!(Day05::part_1(&almanac), Err(RangeError::ArithmeticOverflow));
    almanac.maps[1] = block(Thing::Soil, Thing::Fertilizer, &[(0, 15, 0)]);
    assert_eq!(Day05::part_1(&almanac), Err(RangeError::MalformedTable));
}

#[test]
fn almanac_pipeline_holds_the_tables_in_order() {
    let almanac = sample_almanac();
    let p = almanac.pipeline().unwrap();
    assert_eq!(p.len(), 7);
    assert_eq!(p.apply_scalar(79), 82);
}
