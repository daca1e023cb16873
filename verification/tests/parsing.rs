use aoc2023::day01::Day01;
use aoc2023::day02::{Day02, Observation};
use aoc2023::day03::Day03;
use aoc2023::day04::Day04;
use aoc2023::day05::{Day05, Thing};
use aoc2023::day06::{Day06, Race};
use aoc2023::day08::{parse_direction, parse_lrinst, Day08, Direction};
use aoc2023::range_table::MapRange;
use aoc2023::text::{
    chars_of, copy_range, has_prefix_at, parse_blank_line, parse_line_ending,
    parse_not_line_ending, parse_run1, parse_tag, parse_u32, parse_u32_list, parse_u64,
    parse_u64_list, skip_class, string_range, CharClass,
};
use nom::branch::alt;
use nom::bytes::complete::tag;
use nom::character::complete::{
    alpha1, alphanumeric1, char, line_ending, newline, not_line_ending, space1,
};
use nom::multi::{count, many1, separated_list1};
use nom::sequence::{delimited, separated_pair, tuple};
use nom::IResult;

const ALMANAC: &str = "seeds: 79 14 55 13

seed-to-soil map:
50 98 2
52 50 48

soil-to-fertilizer map:
0 15 37
37 52 2
39 0 15

fertilizer-to-water map:
49 53 8
0 11 42
42 0 7
57 7 4

water-to-light map:
88 18 7
18 25 70

light-to-temperature map:
45 77 23
81 45 19
68 64 13

temperature-to-humidity map:
0 69 1
1 0 69

humidity-to-location map:
60 56 37
56 93 4
";

fn chars(text: &str) -> Vec<char> {
    text.chars().collect()
}

fn consumed(input: &str, rest: &str) -> usize {
    input[..input.len() - rest.len()].chars().count()
}

// The same grammars written with parser combinators, to hold the readers
// against.

fn thing_by_combinators(input: &str) -> IResult<&str, Thing> {
    nom::combinator::map(
        alt((
            tag("seed"),
            tag("soil"),
            tag("fertilizer"),
            tag("water"),
            tag("light"),
            tag("temperature"),
            tag("humidity"),
            tag("location"),
        )),
        |t| match t {
            "seed" => Thing::Seed,
            "soil" => Thing::Soil,
            "fertilizer" => Thing::Fertilizer,
            "water" => Thing::Water,
            "light" => Thing::Light,
            "temperature" => Thing::Temperature,
            "humidity" => Thing::Humidity,
            "location" => Thing::Location,
            _ => unreachable!(),
        },
    )(input)
}

fn range_by_combinators(input: &str) -> IResult<&str, MapRange> {
    nom::combinator::map(
        tuple((
            nom::character::complete::u64,
            space1,
            nom::character::complete::u64,
            space1,
            nom::character::complete::u64,
        )),
        |t| MapRange { dest_start: t.0, source_start: t.2, length: t.4 },
    )(input)
}

type Block = (Thing, Thing, Vec<MapRange>);

fn block_by_combinators(input: &str) -> IResult<&str, Block> {
    nom::combinator::map(
        tuple((
            thing_by_combinators,
            tag("-to-"),
            thing_by_combinators,
            tag(" map:"),
            line_ending,
            separated_list1(line_ending, range_by_combinators),
        )),
        |t| (t.0, t.2, t.5),
    )(input)
}

fn almanac_by_combinators(input: &str) -> IResult<&str, (Vec<u64>, Vec<Block>)> {
    nom::combinator::map(
        tuple((
            tag("seeds: "),
            separated_list1(space1, nom::character::complete::u64),
            count(line_ending, 2),
            separated_list1(count(line_ending, 2), block_by_combinators),
        )),
        |t| (t.1, t.3),
    )(input)
}

fn same_almanac(input: &str) {
    let ours = Day05::parse(input);
    match almanac_by_combinators(input) {
        Ok((rest, (seeds, blocks))) => {
            let (almanac, end) = ours.expect("the reader fails where the combinators read");
            assert_eq!(end, consumed(input, rest));
            assert_eq!(almanac.seed_input, seeds);
            assert_eq!(almanac.maps.len(), blocks.len());
            for (ours, theirs) in almanac.maps.iter().zip(blocks.iter()) {
                assert_eq!(ours.src_type, theirs.0);
                assert_eq!(ours.dest_type, theirs.1);
                assert_eq!(ours.ranges, theirs.2);
            }
        }
        Err(_) => assert!(ours.is_none()),
    }
}

#[test]
fn almanac_of_the_sample_text() {
    let (almanac, end) = Day05::parse(ALMANAC).unwrap();
    assert_eq!(end, ALMANAC.len() - 1);
    assert_eq!(almanac.seed_input, vec![79, 14, 55, 13]);
    assert_eq!(almanac.maps.len(), 7);
    assert_eq!(almanac.maps[0].src_type, Thing::Seed);
    assert_eq!(almanac.maps[0].dest_type, Thing::Soil);
    assert_eq!(
        almanac.maps[0].ranges,
        vec![
            MapRange { dest_start: 50, source_start: 98, length: 2 },
            MapRange { dest_start: 52, source_start: 50, length: 48 },
        ]
    );
    assert_eq!(almanac.maps[6].dest_type, Thing::Location);
    assert_eq!(Day05::part_1(&almanac), Ok(35));
    assert_eq!(Day05::part_2(&almanac), Ok(46));
}

#[test]
fn almanac_reader_agrees_with_combinators() {
    same_almanac(ALMANAC);
    same_almanac(&ALMANAC.replace('\n', "\r\n"));
    same_almanac(&ALMANAC.replace("seeds: ", "seeds:"));
    same_almanac(&ALMANAC.replace("seeds: 79", "seeds: x79"));
    same_almanac(&ALMANAC.replace("water", "wine"));
    same_almanac(&ALMANAC.replace("52 50 48", "52 50"));
    same_almanac(&ALMANAC.replace("52 50 48", "52\t \t50   48"));
    same_almanac(&ALMANAC.replace("52 50 48", "52 50 48 "));
    same_almanac(&ALMANAC.replace("52 50 48", "18446744073709551615 50 48"));
    same_almanac(&ALMANAC.replace("52 50 48", "18446744073709551616 50 48"));
    same_almanac(&ALMANAC.replace("52 50 48", "0052 00 048"));
    same_almanac(&ALMANAC.replace("55 13", "55 99999999999999999999"));
    same_almanac(&ALMANAC.replace("\n\nwater", "\nwater"));
    same_almanac(&ALMANAC.replace("\n\nwater", "\n\n\nwater"));
    same_almanac(&ALMANAC.replace(" map:", " map"));
    same_almanac("seeds: 1\n\nseed-to-soil map:\n1 2 3");
    same_almanac("seeds: 1\n\nseed-to-soil map:\n");
    same_almanac("seeds: 1\n\n");
    same_almanac("seeds: 1");
    same_almanac("seeds: \n\nseed-to-soil map:\n1 2 3");
    same_almanac("");
    same_almanac("seeds: 1 2\n\nlocation-to-seed map:\n1 2 3\n4 5 6\r\n7 8 9\n\nrest");
    same_almanac("seeds: 1 2\n\r\nsoil-to-soil map:\r\n1 2 3\u{e9}");
}

#[test]
fn almanac_parts_are_read_one_by_one() {
    let text = chars("seeds: 79 14 55 13\n");
    let (seeds, end) = Day05::parse_init_seeds(&text, 0).unwrap();
    assert_eq!((seeds, end), (vec![79, 14, 55, 13], 18));
    assert!(Day05::parse_init_seeds(&text, 1).is_none());
    let text = chars("light-to-temperature map:");
    assert_eq!(Day05::parse_thing_word(&text, 0), Some((Thing::Light, 5)));
    assert_eq!(Day05::parse_thing_word(&text, 9), Some((Thing::Temperature, 20)));
    assert_eq!(Day05::parse_thing_word(&text, 1), None);
    assert_eq!(Day05::parse_map_desc(&text, 0), Some(((Thing::Light, Thing::Temperature), 25)));
    let text = chars("45 77 23\n81");
    assert_eq!(
        Day05::parse_single_range(&text, 0),
        Some((MapRange { dest_start: 45, source_start: 77, length: 23 }, 8))
    );
    assert_eq!(Day05::parse_single_range(&text, 9), None);
    let text = chars("seed-to-soil map:\n50 98 2\n52 50 48\n\nmore");
    let (block, end) = Day05::parse_map_block(&text, 0).unwrap();
    assert_eq!(end, 34);
    assert_eq!((block.src_type, block.dest_type, block.ranges.len()), (Thing::Seed, Thing::Soil, 2));
}

fn races_by_combinators(input: &str) -> IResult<&str, (Vec<u64>, Vec<u64>)> {
    nom::combinator::map(
        tuple((
            tag("Time:"),
            space1,
            separated_list1(space1, nom::character::complete::u64),
            line_ending,
            tag("Distance:"),
            space1,
            separated_list1(space1, nom::character::complete::u64),
        )),
        |t| (t.2, t.6),
    )(input)
}

fn same_races(input: &str) {
    let ours = Day06::parse(input);
    match races_by_combinators(input) {
        Ok((rest, (times, distances))) if times.len() <= distances.len() => {
            let (races, end) = ours.expect("the reader fails where the combinators read");
            assert_eq!(end, consumed(input, rest));
            let expected: Vec<Race> = times
                .iter()
                .zip(distances.iter())
                .map(|(t, d)| Race { time_ms: *t, record_distance_mm: *d })
                .collect();
            assert_eq!(races, expected);
        }
        _ => assert!(ours.is_none()),
    }
}

#[test]
fn races_reader_agrees_with_combinators() {
    let text = "Time:      7  15   30\nDistance:  9  40  200\n";
    let (races, end) = Day06::parse(text).unwrap();
    assert_eq!(end, text.len() - 1);
    assert_eq!(races.len(), 3);
    assert_eq!(races[2], Race { time_ms: 30, record_distance_mm: 200 });
    assert_eq!(Day06::part_1(&races), 288);
    assert_eq!(Day06::part_2(&races), 71503);
    same_races(text);
    same_races("Time: 7 15\nDistance: 9 40 200");
    same_races("Time: 7 15 30\nDistance: 9 40");
    same_races("Time:7\nDistance: 9");
    same_races("Time: 7\r\nDistance:\t9");
    same_races("Time: 7\n\nDistance: 9");
    same_races("Time: 7 \nDistance: 9");
    same_races("time: 7\nDistance: 9");
    same_races("Time: 99999999999999999999\nDistance: 9");
    same_races("");
}

type CardParts = (u32, Vec<u32>, Vec<u32>);

fn card_by_combinators(input: &str) -> IResult<&str, CardParts> {
    nom::combinator::map(
        tuple((
            tag("Card"),
            space1,
            nom::character::complete::u32,
            tag(":"),
            space1,
            separated_list1(space1, nom::character::complete::u32),
            tag(" |"),
            space1,
            separated_list1(space1, nom::character::complete::u32),
        )),
        |(_, _, index, _, _, winners, _, _, contestants)| (index, winners, contestants),
    )(input)
}

fn cards_by_combinators(input: &str) -> IResult<&str, Vec<CardParts>> {
    separated_list1(line_ending, card_by_combinators)(input)
}

fn same_cards(input: &str) {
    let ours = Day04::parse(input);
    match cards_by_combinators(input) {
        Ok((rest, cards)) => {
            let (found, end) = ours.expect("the reader fails where the combinators read");
            assert_eq!(end, consumed(input, rest));
            let found: Vec<CardParts> =
                found.into_iter().map(|c| (c.index, c.winners, c.contestants)).collect();
            assert_eq!(found, cards);
        }
        Err(_) => assert!(ours.is_none()),
    }
}

const CARDS: &str = "Card 1: 41 48 83 86 17 | 83 86  6 31 17  9 48 53
Card 2: 13 32 20 16 61 | 61 30 68 82 17 32 24 19
Card 3:  1 21 53 59 44 | 69 82 63 72 16 21 14  1
Card 4: 41 92 73 84 69 | 59 84 76 51 58  5 54 83
Card 5: 87 83 26 28 32 | 88 30 70 12 93 22 82 36
Card 6: 31 18 13 56 72 | 74 77 10 23 35 67 36 11
";

#[test]
fn cards_reader_agrees_with_combinators() {
    let (cards, end) = Day04::parse(CARDS).unwrap();
    assert_eq!(end, CARDS.len() - 1);
    assert_eq!(cards.len(), 6);
    assert_eq!(cards[2].index, 3);
    assert_eq!(cards[2].winners, vec![1, 21, 53, 59, 44]);
    assert_eq!(cards[2].contestants, vec![69, 82, 63, 72, 16, 21, 14, 1]);
    assert_eq!(Day04::part_1(&cards), 13);
    assert_eq!(Day04::part_2(&cards), Some(30));
    same_cards(CARDS);
    same_cards(&CARDS.replace('\n', "\r\n"));
    same_cards(&CARDS.replace(" |", "|"));
    same_cards(&CARDS.replace("Card 3:", "Card 3 :"));
    same_cards(&CARDS.replace("Card 3:", "Card3:"));
    same_cards(&CARDS.replace("Card 3:", "Card 4294967295:"));
    same_cards(&CARDS.replace("Card 3:", "Card 4294967296:"));
    same_cards(&CARDS.replace("21 53", "21 4294967296"));
    same_cards(&CARDS.replace("| 59", "|  59"));
    same_cards(&CARDS.replace("| 59", "| x"));
    same_cards("Card 1: 2 | 3");
    same_cards("Card 1: | 3");
    same_cards("");
    let text = chars("xCard 7: 1 2 | 3 4\n");
    let (card, end) = Day04::parse_single_card(&text, 1).unwrap();
    assert_eq!((card.index, card.winners, card.contestants, end), (7, vec![1, 2], vec![3, 4], 18));
}

fn showing_by_combinators(input: &str) -> IResult<&str, Observation> {
    nom::combinator::map(
        separated_list1(
            tag(", "),
            separated_pair(
                nom::character::complete::u64,
                space1,
                alt((tag("blue"), tag("green"), tag("red"))),
            ),
        ),
        |part| {
            let mut obs: Observation = Observation::default();
            for (num, color) in part {
                match color {
                    "green" => obs.green = num,
                    "red" => obs.red = num,
                    "blue" => obs.blue = num,
                    _ => unreachable!("not a color?"),
                }
            }
            obs
        },
    )(input)
}

fn game_by_combinators(input: &str) -> IResult<&str, (u64, Vec<Observation>)> {
    nom::combinator::map(
        tuple((
            tag("Game "),
            nom::character::complete::u64,
            tag(":"),
            space1,
            separated_list1(tag("; "), showing_by_combinators),
        )),
        |f| (f.1, f.4),
    )(input)
}

fn games_by_combinators(input: &str) -> IResult<&str, Vec<(u64, Vec<Observation>)>> {
    separated_list1(newline, game_by_combinators)(input)
}

fn same_games(input: &str) {
    let ours = Day02::parse(input);
    match games_by_combinators(input) {
        Ok((rest, games)) => {
            let (found, end) = ours.expect("the reader fails where the combinators read");
            assert_eq!(end, consumed(input, rest));
            let found: Vec<(u64, Vec<Observation>)> =
                found.into_iter().map(|g| (g.index, g.observations)).collect();
            assert_eq!(found, games);
        }
        Err(_) => assert!(ours.is_none()),
    }
}

const GAMES: &str = "Game 1: 3 blue, 4 red; 1 red, 2 green, 6 blue; 2 green
Game 2: 1 blue, 2 green; 3 green, 4 blue, 1 red; 1 green, 1 blue
Game 3: 8 green, 6 blue, 20 red; 5 blue, 4 red, 13 green; 5 green, 1 red
Game 4: 1 green, 3 red, 6 blue; 3 green, 6 red; 3 green, 15 blue, 14 red
Game 5: 6 red, 1 blue, 3 green; 2 blue, 1 red, 2 green
";

#[test]
fn games_reader_agrees_with_combinators() {
    let (games, end) = Day02::parse(GAMES).unwrap();
    assert_eq!(end, GAMES.len() - 1);
    assert_eq!(games.len(), 5);
    assert_eq!(games[0].index, 1);
    assert_eq!(games[0].observations[1], Observation { red: 1, green: 2, blue: 6 });
    assert_eq!(Day02::part_1(&games), 8);
    assert_eq!(Day02::part_2(&games), 2286);
    same_games(GAMES);
    same_games(&GAMES.replace('\n', "\r\n"));
    same_games(&GAMES.replace(", ", ","));
    same_games(&GAMES.replace("; ", ";"));
    same_games(&GAMES.replace("20 red", "20 pink"));
    same_games(&GAMES.replace("20 red", "20 red, 7 red, 1 blue"));
    same_games(&GAMES.replace("Game 3", "Game3"));
    same_games(&GAMES.replace("Game 3:", "Game 3: "));
    same_games(&GAMES.replace("8 green", "8  green"));
    same_games("Game 1: 1 red");
    same_games("Game 1: ");
    same_games("");
    let text = chars("3 blue, 4 red, 5 blue; 1 red");
    assert_eq!(
        Day02::game_parts(&text, 0),
        Some((Observation { red: 4, green: 0, blue: 5 }, 21))
    );
    let (game, end) = Day02::single_game(&chars("Game 12: 1 red; 2 blue"), 0).unwrap();
    assert_eq!((game.index, game.observations.len(), end), (12, 2, 22));
}

fn lines_by_combinators(input: &str) -> IResult<&str, Vec<String>> {
    separated_list1(line_ending, nom::combinator::map(alphanumeric1, |s: &str| s.to_string()))(input)
}

fn same_lines(input: &str) {
    let ours = Day01::parse(input);
    match lines_by_combinators(input) {
        Ok((rest, lines)) => {
            let (found, end) = ours.expect("the reader fails where the combinators read");
            assert_eq!(end, consumed(input, rest));
            assert_eq!(found, lines);
        }
        Err(_) => assert!(ours.is_none()),
    }
}

#[test]
fn lines_reader_agrees_with_combinators() {
    let text = "1abc2\npqr3stu8vwx\na1b2c3d4e5f\ntreb7uchet\n";
    let (lines, end) = Day01::parse(text).unwrap();
    assert_eq!(end, text.len() - 1);
    assert_eq!(lines, vec!["1abc2", "pqr3stu8vwx", "a1b2c3d4e5f", "treb7uchet"]);
    assert_eq!(Day01::part_1(&lines), 142);
    same_lines(text);
    same_lines(&text.replace('\n', "\r\n"));
    same_lines("two1nine\n\neightwothree");
    same_lines("two1nine\n eightwothree");
    same_lines("two1nine eightwothree");
    same_lines("abc\u{e9}def\nghi");
    same_lines("\u{e9}abc");
    same_lines("a\rb");
    same_lines("");
    same_lines("\n");
}

fn field_by_combinators(input: &str) -> IResult<&str, Vec<Vec<char>>> {
    separated_list1(line_ending, nom::combinator::map(not_line_ending, |s: &str| s.chars().collect::<Vec<_>>()))(
        input,
    )
}

fn same_field(input: &str) {
    let ours = Day03::parse(input);
    match field_by_combinators(input) {
        Ok((rest, field)) => {
            let (found, end) = ours.expect("the reader fails where the combinators read");
            assert_eq!(end, consumed(input, rest));
            assert_eq!(found, field);
        }
        Err(_) => assert!(ours.is_none()),
    }
}

#[test]
fn field_reader_agrees_with_combinators() {
    let text = "467..114..\n...*......\n..35..633.";
    let (field, end) = Day03::parse(text).unwrap();
    assert_eq!(end, text.len());
    assert_eq!(field.len(), 3);
    assert_eq!(field[1], chars("...*......"));
    same_field(text);
    same_field(&text.replace('\n', "\r\n"));
    same_field("ab\n");
    same_field("ab\n\ncd");
    same_field("");
    same_field("\n");
    same_field("ab\rcd");
    same_field("ab\ncd\ref");
    same_field("ab\r");
    same_field("\u{e9}\u{20ac}\n\u{1f600}x\r\n.");
}

fn node_by_combinators(input: &str) -> IResult<&str, (String, String, String)> {
    nom::combinator::map(
        tuple((
            alpha1,
            tag(" = "),
            delimited(char('('), separated_pair(alpha1, tag(", "), alpha1), char(')')),
        )),
        |(snode, _, sdirection)| {
            let s: &str = snode;
            let dir: (&str, &str) = sdirection;
            (s.to_string(), dir.0.to_string(), dir.1.to_string())
        },
    )(input)
}

fn direction_by_combinators(input: &str) -> IResult<&str, Direction> {
    nom::combinator::map(alt((char('L'), char('R'))), |c| match c {
        c if c == 'L' => Direction::Left,
        c if c == 'R' => Direction::Right,
        _ => unreachable!(),
    })(input)
}

type NetworkParts = (Vec<Direction>, Vec<(String, String, String)>);

fn network_by_combinators(input: &str) -> IResult<&str, NetworkParts> {
    nom::combinator::map(
        tuple((
            many1(direction_by_combinators),
            line_ending,
            line_ending,
            separated_list1(line_ending, node_by_combinators),
        )),
        |(lr_instructions, _, _, nodes)| (lr_instructions, nodes),
    )(input)
}

fn same_network(input: &str) {
    let ours = Day08::parse(input);
    match network_by_combinators(input) {
        Ok((rest, (instructions, nodes))) => {
            let (found, end) = ours.expect("the reader fails where the combinators read");
            assert_eq!(end, consumed(input, rest));
            assert_eq!(found.lr_instructions, instructions);
            let found: Vec<(String, String, String)> = found
                .nodes
                .into_iter()
                .map(|n| (n.node, n.direction.0, n.direction.1))
                .collect();
            assert_eq!(found, nodes);
        }
        Err(_) => assert!(ours.is_none()),
    }
}

const NETWORK: &str = "LLR

AAA = (BBB, BBB)
BBB = (AAA, ZZZ)
ZZZ = (ZZZ, ZZZ)
";

#[test]
fn network_reader_agrees_with_combinators() {
    let (network, end) = Day08::parse(NETWORK).unwrap();
    assert_eq!(end, NETWORK.len() - 1);
    assert_eq!(
        network.lr_instructions,
        vec![Direction::Left, Direction::Left, Direction::Right]
    );
    assert_eq!(network.nodes.len(), 3);
    assert_eq!(network.nodes[1].node, "BBB");
    assert_eq!(network.nodes[1].direction, ("AAA".to_string(), "ZZZ".to_string()));
    assert_eq!(Day08::part_1(&network), Some(6));
    same_network(NETWORK);
    same_network(&NETWORK.replace('\n', "\r\n"));
    same_network(&NETWORK.replace("LLR", "LLX"));
    same_network(&NETWORK.replace("LLR", "XLR"));
    same_network(&NETWORK.replace("LLR\n\n", "LLR\n"));
    same_network(&NETWORK.replace(" = ", "="));
    same_network(&NETWORK.replace("(AAA, ZZZ)", "(AAA,ZZZ)"));
    same_network(&NETWORK.replace("(AAA, ZZZ)", "(AAA, ZZ1)"));
    same_network(&NETWORK.replace("(AAA, ZZZ)", "(AAA, ZZZ"));
    same_network(&NETWORK.replace("BBB = ", "B\u{e9}B = "));
    same_network("R\n\nab = (c, d)");
    same_network("");
    assert_eq!(parse_direction(&chars("LRX"), 0), Some((Direction::Left, 1)));
    assert_eq!(parse_direction(&chars("LRX"), 1), Some((Direction::Right, 2)));
    assert_eq!(parse_direction(&chars("LRX"), 2), None);
    assert_eq!(parse_direction(&chars("LRX"), 3), None);
    assert_eq!(parse_lrinst(&chars("xLRLx"), 1), Some((vec![Direction::Left, Direction::Right, Direction::Left], 4)));
    assert_eq!(parse_lrinst(&chars("xLRLx"), 0), None);
}

#[test]
fn numbers_are_read_up_to_their_limits() {
    assert_eq!(parse_u64(&chars("18446744073709551615"), 0), Some((u64::MAX, 20)));
    assert_eq!(parse_u64(&chars("18446744073709551616"), 0), None);
    assert_eq!(parse_u64(&chars("000018446744073709551615x"), 0), Some((u64::MAX, 24)));
    assert_eq!(parse_u64(&chars("99999999999999999999"), 0), None);
    assert_eq!(parse_u64(&chars("12a"), 0), Some((12, 2)));
    assert_eq!(parse_u64(&chars("a12"), 0), None);
    assert_eq!(parse_u64(&chars("a12"), 1), Some((12, 3)));
    assert_eq!(parse_u64(&chars(""), 0), None);
    assert_eq!(parse_u64(&chars("0"), 0), Some((0, 1)));
    assert_eq!(parse_u64(&chars("-1"), 0), None);
    assert_eq!(parse_u64(&chars("+1"), 0), None);
    assert_eq!(parse_u32(&chars("4294967295"), 0), Some((u32::MAX, 10)));
    assert_eq!(parse_u32(&chars("4294967296"), 0), None);
    assert_eq!(parse_u32(&chars("7 8"), 2), Some((8, 3)));
    assert_eq!(parse_u64_list(&chars("1 2  3\t4 x"), 0), Some((vec![1, 2, 3, 4], 8)));
    assert_eq!(parse_u64_list(&chars("1 2 "), 0), Some((vec![1, 2], 3)));
    assert_eq!(parse_u64_list(&chars(" 1 2"), 0), None);
    assert_eq!(parse_u32_list(&chars("1 4294967296 3"), 0), Some((vec![1], 1)));
}

#[test]
fn words_and_line_ends_are_read() {
    let text = chars("ab1 \t\r\n\n\rx");
    assert_eq!(skip_class(&text, 0, CharClass::Alpha), 2);
    assert_eq!(skip_class(&text, 0, CharClass::AlphaNumeric), 3);
    assert_eq!(skip_class(&text, 0, CharClass::Digit), 0);
    assert_eq!(skip_class(&text, 2, CharClass::Digit), 3);
    assert_eq!(skip_class(&text, 3, CharClass::Space), 5);
    assert_eq!(skip_class(&text, 0, CharClass::NotLineEnd), 5);
    assert_eq!(skip_class(&text, 10, CharClass::Alpha), 10);
    assert_eq!(parse_run1(&text, 0, CharClass::Digit), None);
    assert_eq!(parse_run1(&text, 3, CharClass::Space), Some(5));
    assert_eq!(parse_line_ending(&text, 5), Some(7));
    assert_eq!(parse_line_ending(&text, 7), Some(8));
    assert_eq!(parse_line_ending(&text, 8), None);
    assert_eq!(parse_line_ending(&text, 10), None);
    assert_eq!(parse_blank_line(&text, 5), Some(8));
    assert_eq!(parse_blank_line(&text, 7), None);
    assert_eq!(parse_not_line_ending(&text, 0), Some(5));
    assert_eq!(parse_not_line_ending(&text, 7), Some(7));
    assert_eq!(parse_not_line_ending(&text, 8), None);
    assert_eq!(parse_not_line_ending(&text, 9), Some(10));
    assert_eq!(parse_tag(&text, 1, "b1 "), Some(4));
    assert_eq!(parse_tag(&text, 1, "b2"), None);
    assert_eq!(parse_tag(&text, 9, "xy"), None);
    assert_eq!(parse_tag(&text, 3, ""), Some(3));
    assert!(has_prefix_at(&text, 0, &chars("ab")));
    assert!(!has_prefix_at(&text, 1, &chars("ab")));
    assert!(!has_prefix_at(&text, 11, &chars("")));
    assert_eq!(chars_of("a\u{e9}\u{20ac}"), vec!['a', '\u{e9}', '\u{20ac}']);
    assert_eq!(copy_range(&text, 1, 3), vec!['b', '1']);
    assert_eq!(string_range("a\u{e9}\u{20ac}b", 1, 3), "\u{e9}\u{20ac}");
    assert_eq!(string_range("abc", 3, 3), "");
}

/// A small generator of numbers that looks random and is the same at every
/// run.
struct Dice(u64);

impl Dice {
    fn roll(&mut self, sides: usize) -> usize {
        self.0 = self.0.wrapping_mul(6364136223846793005).wrapping_add(1442695040888963407);
        ((self.0 >> 33) as usize) % sides
    }
}

/// `sample` with up to three of its characters removed, replaced, or joined
/// by another of `alphabet`.
fn damaged(sample: &str, alphabet: &[char], dice: &mut Dice) -> String {
    let mut text: Vec<char> = sample.chars().collect();
    for _ in 0..1 + dice.roll(3) {
        let c = alphabet[dice.roll(alphabet.len())];
        let at = dice.roll(text.len() + 1);
        match dice.roll(3) {
            0 if at < text.len() => {
                text.remove(at);
            }
            1 if at < text.len() => text[at] = c,
            _ => text.insert(at, c),
        }
    }
    text.into_iter().collect()
}

#[test]
fn almanac_reader_agrees_with_combinators_on_damaged_text() {
    let alphabet: Vec<char> = "0123456789 \t\n\r:-sedtomap\u{e9}".chars().collect();
    let short = "seeds: 79 14\n\nseed-to-soil map:\n50 98 2\n52 50 48\n\nsoil-to-location map:\n0 15 37\n";
    let mut dice = Dice(5);
    for _ in 0..1500 {
        same_almanac(&damaged(short, &alphabet, &mut dice));
    }
    for _ in 0..300 {
        same_almanac(&damaged(ALMANAC, &alphabet, &mut dice));
    }
}

#[test]
fn races_reader_agrees_with_combinators_on_damaged_text() {
    let alphabet: Vec<char> = "0123456789 \t\n\r:TimeDstanc".chars().collect();
    let mut dice = Dice(6);
    for _ in 0..2000 {
        same_races(&damaged("Time:      7  15   30\nDistance:  9  40  200\n", &alphabet, &mut dice));
    }
}

#[test]
fn cards_reader_agrees_with_combinators_on_damaged_text() {
    let alphabet: Vec<char> = "0123456789 \t\n\r:|Card".chars().collect();
    let short = "Card 1: 41 48 | 83 86  6\nCard 2: 13 | 61 30\r\nCard  3:  1 21 | 69\n";
    let mut dice = Dice(4);
    for _ in 0..2000 {
        same_cards(&damaged(short, &alphabet, &mut dice));
    }
}

#[test]
fn games_reader_agrees_with_combinators_on_damaged_text() {
    let alphabet: Vec<char> = "0123456789 \n\r:;,Gamebluegrnd".chars().collect();
    let short = "Game 1: 3 blue, 4 red; 1 red, 2 green\nGame 2: 1 blue; 3 green, 4 blue, 1 red\n";
    let mut dice = Dice(2);
    for _ in 0..2000 {
        same_games(&damaged(short, &alphabet, &mut dice));
    }
}

#[test]
fn lines_reader_agrees_with_combinators_on_damaged_text() {
    let alphabet: Vec<char> = "a1Z \n\r-\u{e9}".chars().collect();
    let mut dice = Dice(1);
    for _ in 0..2000 {
        same_lines(&damaged("1abc2\npqr3stu8vwx\r\na1b2c3d4e5f\n", &alphabet, &mut dice));
    }
}

#[test]
fn field_reader_agrees_with_combinators_on_damaged_text() {
    let alphabet: Vec<char> = ".*7\n\r\u{20ac}".chars().collect();
    let mut dice = Dice(3);
    for _ in 0..2000 {
        same_field(&damaged("467..114..\n...*......\r\n..35..633.", &alphabet, &mut dice));
    }
}

#[test]
fn network_reader_agrees_with_combinators_on_damaged_text() {
    let alphabet: Vec<char> = "LRAZ =(),\n\r1".chars().collect();
    let mut dice = Dice(8);
    for _ in 0..2000 {
        same_network(&damaged(NETWORK, &alphabet, &mut dice));
    }
}
