use vstd::prelude::*;
use crate::text::{
    CharClass, chars_of, list1, list_rest, parse_run1, parse_tag, parse_u64, spec_run1, spec_tag,
    spec_u64,
};

verus! {

/// The second day: games of cubes drawn from a bag.
pub struct Day02;

/// The numbers of red, green and blue cubes seen at one showing.
#[derive(Debug, Clone, Copy, PartialEq, Eq)]
pub struct Observation {
    pub red: u64,
    pub green: u64,
    pub blue: u64,
}

impl Default for Observation {
    /// The showing of no cube at all.
    fn default() -> (r: Observation)
        ensures
            r == (Observation { red: 0, green: 0, blue: 0 }),
    {
        Observation { red: 0, green: 0, blue: 0 }
    }
}

impl Observation {
    /// The showing is possible with 12 red, 13 green and 14 blue cubes.
    pub open spec fn valid(self) -> bool {
        self.red <= 12 && self.green <= 13 && self.blue <= 14
    }

    /// The product of the three numbers.
    pub open spec fn spec_power(self) -> int {
        self.blue * self.green * self.red
    }

    /// Whether the showing is possible with 12 red, 13 green and 14 blue
    /// cubes.
    pub fn is_valid_part1(&self) -> (b: bool)
        ensures
            b == self.valid(),
    {
        self.red <= 12 && self.green <= 13 && self.blue <= 14
    }

    /// The product of the three numbers.
    pub fn power(&self) -> (p: u64)
        requires
            self.spec_power() <= u64::MAX,
        ensures
            p == self.spec_power(),
    {
        proof {
            assert(self.blue * self.green <= self.blue * self.green * self.red || self.red == 0)
                by (nonlinear_arith);
        }
        if self.red == 0 {
            0
        } else {
            self.blue * self.green * self.red
        }
    }
}

/// A game: its number and the showings seen in it.
#[derive(Debug)]
pub struct Game {
    pub index: u64,
    pub observations: Vec<Observation>,
}

/// `m` is the highest number of red cubes among `obs`, or 0 when there is
/// none.
pub open spec fn is_highest_red(obs: Seq<Observation>, m: u64) -> bool {
    &&& forall|i: int| 0 <= i < obs.len() ==> (#[trigger] obs[i]).red <= m
    &&& m == 0 || exists|i: int| 0 <= i < obs.len() && (#[trigger] obs[i]).red == m
}

/// `m` is the highest number of green cubes among `obs`, or 0 when there is
/// none.
pub open spec fn is_highest_green(obs: Seq<Observation>, m: u64) -> bool {
    &&& forall|i: int| 0 <= i < obs.len() ==> (#[trigger] obs[i]).green <= m
    &&& m == 0 || exists|i: int| 0 <= i < obs.len() && (#[trigger] obs[i]).green == m
}

/// `m` is the highest number of blue cubes among `obs`, or 0 when there is
/// none.
pub open spec fn is_highest_blue(obs: Seq<Observation>, m: u64) -> bool {
    &&& forall|i: int| 0 <= i < obs.len() ==> (#[trigger] obs[i]).blue <= m
    &&& m == 0 || exists|i: int| 0 <= i < obs.len() && (#[trigger] obs[i]).blue == m
}

/// `o` holds, colour by colour, the highest numbers among `obs`.
pub open spec fn is_minimum_cubes(obs: Seq<Observation>, o: Observation) -> bool {
    is_highest_red(obs, o.red) && is_highest_green(obs, o.green) && is_highest_blue(obs, o.blue)
}

/// The fewest cubes that make all of `obs` possible.
pub open spec fn minimum_cubes_of(obs: Seq<Observation>) -> Observation {
    choose|o: Observation| is_minimum_cubes(obs, o)
}

/// Only one set of cubes holds the highest numbers.
pub proof fn lemma_minimum_cubes_unique(obs: Seq<Observation>, a: Observation, b: Observation)
    requires
        is_minimum_cubes(obs, a),
        is_minimum_cubes(obs, b),
    ensures
        a == b,
{
}

impl Game {
    /// Every showing of the game is possible with 12 red, 13 green and 14
    /// blue cubes.
    pub open spec fn possible(self) -> bool {
        forall|i: int| 0 <= i < self.observations@.len() ==> (#[trigger] self.observations@[i]).valid()
    }

    /// Whether every showing of the game is possible with 12 red, 13 green
    /// and 14 blue cubes.
    pub fn possible_part1(&self) -> (b: bool)
        ensures
            b == self.possible(),
    {
        let n: usize = self.observations.len();
        let mut i: usize = 0;
        while i < n
            invariant
                n == self.observations@.len(),
                i <= n,
                forall|j: int| 0 <= j < i ==> (#[trigger] self.observations@[j]).valid(),
            decreases n - i,
        {
            if !self.observations[i].is_valid_part1() {
                return false;
            }
            i += 1;
        }
        true
    }

    /// The fewest cubes of each colour that make every showing of the game
    /// possible.
    pub fn minimum_cubes(&self) -> (r: Observation)
        ensures
            is_minimum_cubes(self.observations@, r),
            r == minimum_cubes_of(self.observations@),
    {
        let n: usize = self.observations.len();
        let mut running_min = Observation::default();
        let mut i: usize = 0;
        while i < n
            invariant
                n == self.observations@.len(),
                i <= n,
                is_minimum_cubes(self.observations@.take(i as int), running_min),
            decreases n - i,
        {
            let obs: Observation = self.observations[i];
            let ghost before = self.observations@.take(i as int);
            let ghost after = self.observations@.take(i + 1);
            let ghost old_min = running_min;
            if obs.blue > running_min.blue {
                running_min.blue = obs.blue;
            }
            if obs.green > running_min.green {
                running_min.green = obs.green;
            }
            if obs.red > running_min.red {
                running_min.red = obs.red;
            }
            proof {
                assert(after[i as int] == obs);
                assert forall|j: int| 0 <= j < i implies after[j] == before[j] by {}
                if old_min.red != 0 && running_min.red == old_min.red {
                    let w = choose|w: int| 0 <= w < before.len() && (#[trigger] before[w]).red == old_min.red;
                    assert(after[w].red == running_min.red);
                }
                if old_min.green != 0 && running_min.green == old_min.green {
                    let w = choose|w: int| 0 <= w < before.len() && (#[trigger] before[w]).green == old_min.green;
                    assert(after[w].green == running_min.green);
                }
                if old_min.blue != 0 && running_min.blue == old_min.blue {
                    let w = choose|w: int| 0 <= w < before.len() && (#[trigger] before[w]).blue == old_min.blue;
                    assert(after[w].blue == running_min.blue);
                }
                assert forall|j: int| 0 <= j < after.len() implies (#[trigger] after[j]).red
                    <= running_min.red && after[j].green <= running_min.green && after[j].blue
                    <= running_min.blue by {
                    if j < i {
                        assert(after[j] == before[j]);
                    }
                }
            }
            i += 1;
        }
        proof {
            assert(self.observations@.take(n as int) =~= self.observations@);
            lemma_minimum_cubes_unique(
                self.observations@,
                running_min,
                minimum_cubes_of(self.observations@),
            );
        }
        running_min
    }
}

/// The sum of the numbers of the games that are possible.
pub open spec fn possible_sum(games: Seq<Game>) -> int
    decreases games.len(),
{
    if games.len() == 0 {
        0
    } else {
        possible_sum(games.drop_last()) + if games.last().possible() {
            games.last().index as int
        } else {
            0
        }
    }
}

/// The sum over the games of the product of their fewest cubes.
pub open spec fn power_sum(games: Seq<Game>) -> int
    decreases games.len(),
{
    if games.len() == 0 {
        0
    } else {
        power_sum(games.drop_last()) + minimum_cubes_of(games.last().observations@).spec_power()
    }
}

/// The sum over the first `k` games is not negative and not above the sum
/// over all of them.
pub proof fn lemma_possible_sum_prefix(games: Seq<Game>, k: int)
    requires
        0 <= k <= games.len(),
    ensures
        0 <= possible_sum(games.take(k)) <= possible_sum(games),
    decreases games.len() - k,
{
    if k == games.len() {
        assert(games.take(k) =~= games);
        lemma_possible_sum_nonnegative(games);
    } else {
        lemma_possible_sum_prefix(games, k + 1);
        assert(games.take(k + 1).drop_last() =~= games.take(k));
        lemma_possible_sum_nonnegative(games.take(k));
    }
}

/// The sum over any games is not negative.
proof fn lemma_possible_sum_nonnegative(games: Seq<Game>)
    ensures
        0 <= possible_sum(games),
    decreases games.len(),
{
    if games.len() > 0 {
        lemma_possible_sum_nonnegative(games.drop_last());
    }
}

/// The product of three numbers that are not negative is not negative.
proof fn lemma_power_nonnegative(o: Observation)
    ensures
        0 <= o.spec_power(),
{
    assert(0 <= o.blue * o.green * o.red) by (nonlinear_arith)
        requires
            0 <= o.blue,
            0 <= o.green,
            0 <= o.red,
    ;
}

/// The sum over any games is not negative.
proof fn lemma_power_sum_nonnegative(games: Seq<Game>)
    ensures
        0 <= power_sum(games),
    decreases games.len(),
{
    if games.len() > 0 {
        lemma_power_sum_nonnegative(games.drop_last());
        lemma_power_nonnegative(minimum_cubes_of(games.last().observations@));
    }
}

/// The sum over the first `k` games is not negative and not above the sum
/// over all of them.
pub proof fn lemma_power_sum_prefix(games: Seq<Game>, k: int)
    requires
        0 <= k <= games.len(),
    ensures
        0 <= power_sum(games.take(k)) <= power_sum(games),
    decreases games.len() - k,
{
    if k == games.len() {
        assert(games.take(k) =~= games);
        lemma_power_sum_nonnegative(games);
    } else {
        lemma_power_sum_prefix(games, k + 1);
        assert(games.take(k + 1).drop_last() =~= games.take(k));
        lemma_power_sum_nonnegative(games.take(k));
        lemma_power_nonnegative(minimum_cubes_of(games.take(k + 1).last().observations@));
    }
}

impl Day02 {
    /// The sum of the numbers of the games that are possible with 12 red, 13
    /// green and 14 blue cubes.
    pub fn part_1(input: &Vec<Game>) -> (r: usize)
        requires
            possible_sum(input@) <= usize::MAX,
        ensures
            r == possible_sum(input@),
    {
        let n: usize = input.len();
        let mut sum: usize = 0;
        let mut i: usize = 0;
        proof {
            assert(input@.take(0) =~= Seq::<Game>::empty());
        }
        while i < n
            invariant
                n == input@.len(),
                i <= n,
                possible_sum(input@) <= usize::MAX,
                sum == possible_sum(input@.take(i as int)),
            decreases n - i,
        {
            proof {
                lemma_possible_sum_prefix(input@, i + 1);
                assert(input@.take(i + 1).drop_last() =~= input@.take(i as int));
                assert(input@.take(i + 1).last() == input@[i as int]);
            }
            if input[i].possible_part1() {
                sum = sum + input[i].index as usize;
            }
            i += 1;
        }
        proof {
            assert(input@.take(n as int) =~= input@);
        }
        sum
    }

    /// The sum over the games of the product of the fewest cubes that make
    /// the game possible.
    pub fn part_2(input: &Vec<Game>) -> (r: usize)
        requires
            power_sum(input@) <= usize::MAX,
        ensures
            r == power_sum(input@),
    {
        let n: usize = input.len();
        let mut sum: usize = 0;
        let mut i: usize = 0;
        proof {
            assert(input@.take(0) =~= Seq::<Game>::empty());
        }
        while i < n
            invariant
                n == input@.len(),
                i <= n,
                power_sum(input@) <= usize::MAX,
                sum == power_sum(input@.take(i as int)),
            decreases n - i,
        {
            proof {
                lemma_power_sum_prefix(input@, i + 1);
                assert(input@.take(i + 1).drop_last() =~= input@.take(i as int));
                assert(input@.take(i + 1).last() == input@[i as int]);
            }
            let fewest: Observation = input[i].minimum_cubes();
            sum = sum + fewest.power() as usize;
            i += 1;
        }
        proof {
            assert(input@.take(n as int) =~= input@);
        }
        sum
    }
}

/// The colour of a cube.
#[derive(Clone, Copy, Debug, PartialEq, Eq, Structural)]
pub enum Colour {
    Blue,
    Green,
    Red,
}

/// The name of a colour at `i`, and where it ends.
pub open spec fn spec_colour(s: Seq<char>, i: int) -> Option<(Colour, int)> {
    if spec_tag(s, i, "blue"@).is_some() {
        Some((Colour::Blue, spec_tag(s, i, "blue"@).unwrap()))
    } else if spec_tag(s, i, "green"@).is_some() {
        Some((Colour::Green, spec_tag(s, i, "green"@).unwrap()))
    } else if spec_tag(s, i, "red"@).is_some() {
        Some((Colour::Red, spec_tag(s, i, "red"@).unwrap()))
    } else {
        None
    }
}

/// A number of cubes of one colour at `i`, such as `3 blue`, and where it
/// ends.
pub open spec fn spec_cube_count(s: Seq<char>, i: int) -> Option<((u64, Colour), int)> {
    match spec_u64(s, i) {
        Some((count, a)) => match spec_run1(s, a, CharClass::Space) {
            Some(b) => match spec_colour(s, b) {
                Some((colour, e)) => Some(((count, colour), e)),
                None => None,
            },
            None => None,
        },
        None => None,
    }
}

/// Reading a number of cubes of one colour.
pub open spec fn cube_item() -> spec_fn(Seq<char>, int) -> Option<((u64, Colour), int)> {
    |s: Seq<char>, i: int| spec_cube_count(s, i)
}

/// Reading a comma and a space.
pub open spec fn comma_sep() -> spec_fn(Seq<char>, int) -> Option<int> {
    |s: Seq<char>, i: int| spec_tag(s, i, ", "@)
}

/// Reading a semicolon and a space.
pub open spec fn semicolon_sep() -> spec_fn(Seq<char>, int) -> Option<int> {
    |s: Seq<char>, i: int| spec_tag(s, i, "; "@)
}

/// Reading a line feed.
pub open spec fn newline_sep() -> spec_fn(Seq<char>, int) -> Option<int> {
    |s: Seq<char>, i: int| spec_tag(s, i, "\n"@)
}

/// The showing with `count` cubes of `colour` and otherwise as `o`.
pub open spec fn with_count(o: Observation, count: u64, colour: Colour) -> Observation {
    match colour {
        Colour::Blue => Observation { blue: count, ..o },
        Colour::Green => Observation { green: count, ..o },
        Colour::Red => Observation { red: count, ..o },
    }
}

/// The showing that the counts `parts` make: of each colour the count named
/// last, or none.
pub open spec fn observe(parts: Seq<(u64, Colour)>) -> Observation
    decreases parts.len(),
{
    if parts.len() == 0 {
        Observation { red: 0, green: 0, blue: 0 }
    } else {
        with_count(observe(parts.drop_last()), parts.last().0, parts.last().1)
    }
}

/// One showing at `i`: counts of cubes with a comma between each two; and
/// where it ends.
pub open spec fn spec_game_parts(s: Seq<char>, i: int) -> Option<(Observation, int)> {
    match list1(s, i, cube_item(), comma_sep()) {
        Some((parts, e)) => Some((observe(parts), e)),
        None => None,
    }
}

/// Reading one showing.
pub open spec fn parts_item() -> spec_fn(Seq<char>, int) -> Option<(Observation, int)> {
    |s: Seq<char>, i: int| spec_game_parts(s, i)
}

/// One game at `i`: the word `Game`, its number, a colon, and its showings
/// with a semicolon between each two; and where it ends.
pub open spec fn spec_single_game(s: Seq<char>, i: int) -> Option<((u64, Seq<Observation>), int)> {
    match spec_tag(s, i, "Game "@) {
        Some(a) => match spec_u64(s, a) {
            Some((index, b)) => match spec_tag(s, b, ":"@) {
                Some(c) => match spec_run1(s, c, CharClass::Space) {
                    Some(d) => match list1(s, d, parts_item(), semicolon_sep()) {
                        Some((observations, e)) => Some(((index, observations), e)),
                        None => None,
                    },
                    None => None,
                },
                None => None,
            },
            None => None,
        },
        None => None,
    }
}

/// Reading one game.
pub open spec fn game_item() -> spec_fn(Seq<char>, int) -> Option<((u64, Seq<Observation>), int)> {
    |s: Seq<char>, i: int| spec_single_game(s, i)
}

/// What the games hold: of each its number and its showings.
pub open spec fn game_views(games: Seq<Game>) -> Seq<(u64, Seq<Observation>)> {
    games.map_values(|g: Game| (g.index, g.observations@))
}

impl Day02 {
    /// Reads the name of a colour at `i`.
    fn parse_colour(s: &[char], i: usize) -> (r: Option<(Colour, usize)>)
        ensures
            match r {
                Some((colour, e)) => spec_colour(s@, i as int) == Some((colour, e as int)) && i
                    <= e <= s@.len(),
                None => spec_colour(s@, i as int).is_none(),
            },
    {
        if let Some(e) = parse_tag(s, i, "blue") {
            Some((Colour::Blue, e))
        } else if let Some(e) = parse_tag(s, i, "green") {
            Some((Colour::Green, e))
        } else if let Some(e) = parse_tag(s, i, "red") {
            Some((Colour::Red, e))
        } else {
            None
        }
    }

    /// Reads a number of cubes of one colour at `i`.
    fn parse_cube_count(s: &[char], i: usize) -> (r: Option<((u64, Colour), usize)>)
        requires
            i <= s@.len(),
        ensures
            match r {
                Some((part, e)) => spec_cube_count(s@, i as int) == Some((part, e as int)) && i < e
                    <= s@.len(),
                None => spec_cube_count(s@, i as int).is_none(),
            },
    {
        let (count, a) = match parse_u64(s, i) {
            Some(found) => found,
            None => {
                return None;
            },
        };
        let b: usize = match parse_run1(s, a, CharClass::Space) {
            Some(b) => b,
            None => {
                return None;
            },
        };
        match Self::parse_colour(s, b) {
            Some((colour, e)) => Some(((count, colour), e)),
            None => None,
        }
    }

    /// Reads one showing at `i`: counts of cubes with a comma between each
    /// two. Of a colour named twice the later count stands.
    pub fn game_parts(s: &[char], i: usize) -> (r: Option<(Observation, usize)>)
        requires
            i <= s@.len(),
        ensures
            match r {
                Some((obs, e)) => spec_game_parts(s@, i as int) == Some((obs, e as int)) && i < e
                    <= s@.len(),
                None => spec_game_parts(s@, i as int).is_none(),
            },
    {
        let (first, start) = match Self::parse_cube_count(s, i) {
            Some(found) => found,
            None => {
                return None;
            },
        };
        let mut obs: Observation = Observation::default();
        let ghost mut parts: Seq<(u64, Colour)> = seq![first];
        match first.1 {
            Colour::Green => {
                obs.green = first.0;
            },
            Colour::Red => {
                obs.red = first.0;
            },
            Colour::Blue => {
                obs.blue = first.0;
            },
        }
        proof {
            reveal_strlit(", ");
            assert(parts.drop_last() =~= Seq::<(u64, Colour)>::empty());
            assert(observe(parts.drop_last()) == (Observation { red: 0, green: 0, blue: 0 }));
        }
        let mut at: usize = start;
        loop
            invariant
                i < at <= s@.len(),
                ", "@.len() == 2,
                obs == observe(parts),
                list1(s@, i as int, cube_item(), comma_sep()) == Some(
                    list_rest(s@, at as int, cube_item(), comma_sep(), parts),
                ),
            decreases s@.len() - at,
        {
            let next: usize = match parse_tag(s, at, ", ") {
                Some(next) => next,
                None => {
                    return Some((obs, at));
                },
            };
            match Self::parse_cube_count(s, next) {
                Some((part, m)) => {
                    proof {
                        assert(parts.push(part).drop_last() =~= parts);
                        parts = parts.push(part);
                    }
                    match part.1 {
                        Colour::Green => {
                            obs.green = part.0;
                        },
                        Colour::Red => {
                            obs.red = part.0;
                        },
                        Colour::Blue => {
                            obs.blue = part.0;
                        },
                    }
                    at = m;
                },
                None => {
                    return Some((obs, at));
                },
            }
        }
    }

    /// Reads one game at `i`.
    pub fn single_game(s: &[char], i: usize) -> (r: Option<(Game, usize)>)
        ensures
            match r {
                Some((game, e)) => spec_single_game(s@, i as int) == Some(
                    ((game.index, game.observations@), e as int),
                ) && i < e <= s@.len(),
                None => spec_single_game(s@, i as int).is_none(),
            },
    {
        let a: usize = match parse_tag(s, i, "Game ") {
            Some(a) => a,
            None => {
                return None;
            },
        };
        let (index, b) = match parse_u64(s, a) {
            Some(found) => found,
            None => {
                return None;
            },
        };
        let c: usize = match parse_tag(s, b, ":") {
            Some(c) => c,
            None => {
                return None;
            },
        };
        let d: usize = match parse_run1(s, c, CharClass::Space) {
            Some(d) => d,
            None => {
                return None;
            },
        };
        let (first, start) = match Self::game_parts(s, d) {
            Some(found) => found,
            None => {
                return None;
            },
        };
        let mut observations: Vec<Observation> = Vec::new();
        observations.push(first);
        let mut at: usize = start;
        proof {
            reveal_strlit("; ");
        }
        loop
            invariant
                i <= a < b <= c < d < at <= s@.len(),
                "; "@.len() == 2,
                spec_tag(s@, i as int, "Game "@) == Some(a as int),
                spec_u64(s@, a as int) == Some((index, b as int)),
                spec_tag(s@, b as int, ":"@) == Some(c as int),
                spec_run1(s@, c as int, CharClass::Space) == Some(d as int),
                list1(s@, d as int, parts_item(), semicolon_sep()) == Some(
                    list_rest(s@, at as int, parts_item(), semicolon_sep(), observations@),
                ),
            decreases s@.len() - at,
        {
            let next: usize = match parse_tag(s, at, "; ") {
                Some(next) => next,
                None => {
                    return Some((Game { index, observations }, at));
                },
            };
            match Self::game_parts(s, next) {
                Some((obs, m)) => {
                    observations.push(obs);
                    at = m;
                },
                None => {
                    return Some((Game { index, observations }, at));
                },
            }
        }
    }

    /// Reads the games from the start of `input`, one to a line. Hands back
    /// the games and the number of characters read, or `None` when `input`
    /// does not begin with a game.
    pub fn parse(input: &str) -> (r: Option<(Vec<Game>, usize)>)
        ensures
            match r {
                Some((games, e)) => list1(input@, 0, game_item(), newline_sep()) == Some(
                    (game_views(games@), e as int),
                ) && e <= input@.len(),
                None => list1(input@, 0, game_item(), newline_sep()).is_none(),
            },
    {
        let text: Vec<char> = chars_of(input);
        let s: &[char] = text.as_slice();
        let (first, start) = match Self::single_game(s, 0) {
            Some(found) => found,
            None => {
                return None;
            },
        };
        let mut games: Vec<Game> = Vec::new();
        proof {
            reveal_strlit("\n");
            assert(game_views(games@.push(first)) =~= seq![(first.index, first.observations@)]);
        }
        games.push(first);
        let mut at: usize = start;
        loop
            invariant
                s@ == input@,
                at <= s@.len(),
                "\n"@.len() == 1,
                list1(s@, 0, game_item(), newline_sep()) == Some(
                    list_rest(s@, at as int, game_item(), newline_sep(), game_views(games@)),
                ),
            decreases s@.len() - at,
        {
            let next: usize = match parse_tag(s, at, "\n") {
                Some(next) => next,
                None => {
                    return Some((games, at));
                },
            };
            match Self::single_game(s, next) {
                Some((game, m)) => {
                    proof {
                        assert(game_views(games@.push(game)) =~= game_views(games@).push(
                            (game.index, game.observations@),
                        ));
                    }
                    games.push(game);
                    at = m;
                },
                None => {
                    return Some((games, at));
                },
            }
        }
    }
}

} // verus!
