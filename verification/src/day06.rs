use vstd::prelude::*;
use crate::text::{
    CharClass, chars_of, list1, parse_line_ending, parse_run1, parse_tag, parse_u64_list, space_sep,
    spec_line_ending, spec_run1, spec_tag, u64_item,
};

verus! {

/// The sixth day: boat races won by holding a button.
pub struct Day06;

/// A race: how long it lasts, and the distance to beat.
#[derive(Debug, Clone, Copy, PartialEq, Eq)]
pub struct Race {
    pub time_ms: u64,
    pub record_distance_mm: u64,
}

impl Default for Race {
    /// The race of no length with no record.
    fn default() -> (r: Race)
        ensures
            r == (Race { time_ms: 0, record_distance_mm: 0 }),
    {
        Race { time_ms: 0, record_distance_mm: 0 }
    }
}

/// The distance travelled in a race of length `time` when the button is held
/// for `hold`: nothing when it is not pressed or held to the end, else the
/// speed gained times the time that is left.
pub open spec fn distance(time: int, hold: int) -> int {
    if hold >= time || hold == 0 {
        0
    } else {
        hold * (time - hold)
    }
}

/// How many of the hold times from 1 up to but not including `upto` travel
/// farther than `record` in a race of length `time`.
pub open spec fn count_wins(time: int, record: int, upto: int) -> int
    decreases upto,
{
    if upto <= 1 {
        0
    } else {
        count_wins(time, record, upto - 1) + if distance(time, upto - 1) > record {
            1int
        } else {
            0int
        }
    }
}

/// The count of winning hold times below `upto` lies between 0 and the number
/// of hold times tried.
pub proof fn lemma_count_wins_bounds(time: int, record: int, upto: int)
    ensures
        0 <= count_wins(time, record, upto),
        upto >= 1 ==> count_wins(time, record, upto) <= upto - 1,
    decreases upto,
{
    if upto > 1 {
        lemma_count_wins_bounds(time, record, upto - 1);
    }
}

impl Race {
    /// The distance travelled when the button is held for `hold`.
    pub open spec fn spec_travel_distance(self, hold: u64) -> int {
        distance(self.time_ms as int, hold as int)
    }

    /// Every distance that can be travelled in the race fits in a `u64`.
    pub open spec fn distances_fit(self) -> bool {
        forall|hold: u64| #[trigger] self.spec_travel_distance(hold) <= u64::MAX
    }

    /// The number of hold times, from 1 to one less than the length of the
    /// race, that beat the record.
    pub open spec fn ways_to_win(self) -> int {
        count_wins(self.time_ms as int, self.record_distance_mm as int, self.time_ms as int)
    }

    /// The distance travelled when the button is held for `hold_time_ms`.
    pub fn travel_distance(&self, hold_time_ms: u64) -> (d: u64)
        requires
            self.spec_travel_distance(hold_time_ms) <= u64::MAX,
        ensures
            d == self.spec_travel_distance(hold_time_ms),
    {
        if hold_time_ms >= self.time_ms {
            0
        } else if hold_time_ms == 0 {
            0
        } else {
            let travel_time: u64 = self.time_ms - hold_time_ms;
            hold_time_ms * travel_time
        }
    }

    /// The number of hold times that beat the record, each one tried.
    pub fn count_ways_to_win(&self) -> (n: usize)
        requires
            self.distances_fit(),
            self.ways_to_win() <= usize::MAX,
        ensures
            n == self.ways_to_win(),
    {
        let mut count: usize = 0;
        let mut press_time: u64 = 1;
        while press_time < self.time_ms
            invariant
                1 <= press_time,
                press_time <= self.time_ms || press_time == 1,
                self.distances_fit(),
                self.ways_to_win() <= usize::MAX,
                count == count_wins(
                    self.time_ms as int,
                    self.record_distance_mm as int,
                    press_time as int,
                ),
            decreases self.time_ms - press_time,
        {
            proof {
                assert(self.spec_travel_distance(press_time) <= u64::MAX);
                lemma_count_wins_monotone(
                    self.time_ms as int,
                    self.record_distance_mm as int,
                    press_time + 1,
                    self.time_ms as int,
                );
            }
            let distance: u64 = self.travel_distance(press_time);
            if distance > self.record_distance_mm {
                count = count + 1;
            }
            press_time = press_time + 1;
        }
        proof {
            if self.time_ms == 0 {
                assert(count_wins(0, self.record_distance_mm as int, 0) == 0);
                assert(count_wins(0, self.record_distance_mm as int, 1) == 0);
            }
        }
        count
    }
}

/// Trying more hold times never finds fewer winners.
pub proof fn lemma_count_wins_monotone(time: int, record: int, a: int, b: int)
    requires
        a <= b,
    ensures
        count_wins(time, record, a) <= count_wins(time, record, b),
    decreases b - a,
{
    if a < b {
        lemma_count_wins_monotone(time, record, a, b - 1);
        lemma_count_wins_bounds(time, record, b - 1);
    }
}

/// Ten to the power `k`.
pub open spec fn pow10(k: nat) -> int
    decreases k,
{
    if k == 0 {
        1
    } else {
        10 * pow10((k - 1) as nat)
    }
}

/// The number of digits that `n` is written with.
pub open spec fn decimal_digits(n: int) -> nat
    decreases n,
{
    if n < 10 {
        1
    } else {
        1 + decimal_digits(n / 10)
    }
}

/// The number whose digits are those of `lhs` followed by those of `rhs`.
pub open spec fn concat_decimal(lhs: int, rhs: int) -> int {
    lhs * pow10(decimal_digits(rhs)) + rhs
}

/// The number whose digits are those of `lhs` followed by those of `rhs`,
/// when it fits in a `u64`.
pub open spec fn spec_combine_digits(lhs: u64, rhs: u64) -> Option<u64> {
    if concat_decimal(lhs as int, rhs as int) <= u64::MAX {
        Some(concat_decimal(lhs as int, rhs as int) as u64)
    } else {
        None
    }
}

/// Every power of ten is 1 at least.
proof fn lemma_pow10_positive(k: nat)
    ensures
        pow10(k) >= 1,
    decreases k,
{
    if k > 0 {
        lemma_pow10_positive((k - 1) as nat);
    }
}

/// The number whose digits are those of `lhs` followed by those of `rhs`;
/// `None` when it does not fit in a `u64`.
pub fn combine_digits(lhs: u64, rhs: u64) -> (r: Option<u64>)
    ensures
        r == spec_combine_digits(lhs, rhs),
{
    if lhs == 0 {
        proof {
            assert(lhs * pow10(decimal_digits(rhs as int)) == 0) by (nonlinear_arith)
                requires
                    lhs == 0,
            ;
        }
        return Some(rhs);
    }
    let mut scale: u64 = 10;
    let mut rest: u64 = rhs / 10;
    let ghost mut seen: nat = 1;
    proof {
        reveal_with_fuel(pow10, 2);
        reveal_with_fuel(decimal_digits, 2);
    }
    while rest > 0
        invariant
            lhs > 0,
            seen >= 1,
            scale >= 10,
            scale == pow10(seen),
            decimal_digits(rhs as int) == seen + (if rest > 0 {
                decimal_digits(rest as int)
            } else {
                0
            }),
            rest > 0 ==> decimal_digits(rhs as int) > seen,
        decreases rest,
    {
        if scale > u64::MAX / 10 {
            proof {
                let full = decimal_digits(rhs as int);
                lemma_pow10_monotone(seen + 1, full);
                assert(lhs * pow10(full) >= pow10(full)) by (nonlinear_arith)
                    requires
                        lhs >= 1,
                        pow10(full) >= 0,
                ;
            }
            return None;
        }
        scale = scale * 10;
        rest = rest / 10;
        proof {
            seen = seen + 1;
        }
    }
    proof {
        assert(concat_decimal(lhs as int, rhs as int) == lhs * scale + rhs);
    }
    if lhs > u64::MAX / scale {
        proof {
            assert(lhs * scale > u64::MAX) by (nonlinear_arith)
                requires
                    lhs > u64::MAX / scale,
                    scale > 0,
            ;
        }
        return None;
    }
    proof {
        assert(lhs * scale <= u64::MAX) by (nonlinear_arith)
            requires
                lhs <= u64::MAX / scale,
                scale > 0,
        ;
    }
    let shifted: u64 = lhs * scale;
    if shifted > u64::MAX - rhs {
        return None;
    }
    Some(shifted + rhs)
}

/// The powers of ten grow with the exponent.
proof fn lemma_pow10_monotone(a: nat, b: nat)
    requires
        a <= b,
    ensures
        pow10(a) <= pow10(b),
    decreases b,
{
    if a < b {
        lemma_pow10_monotone(a, (b - 1) as nat);
        lemma_pow10_positive((b - 1) as nat);
    }
}

/// The product of the numbers of ways to win each of `races`.
pub open spec fn ways_product(races: Seq<Race>) -> int
    decreases races.len(),
{
    if races.len() == 0 {
        1
    } else {
        ways_product(races.drop_last()) * races.last().ways_to_win()
    }
}

/// The one race that `races` make when their times are written one after
/// another, and their records too; `None` when there is no race, or a number
/// so made does not fit in a `u64`.
pub open spec fn merged_race(races: Seq<Race>) -> Option<Race>
    decreases races.len(),
{
    if races.len() == 0 {
        None
    } else if races.len() == 1 {
        Some(races[0])
    } else {
        match merged_race(races.drop_last()) {
            Some(acc) => match (
                spec_combine_digits(acc.time_ms, races.last().time_ms),
                spec_combine_digits(acc.record_distance_mm, races.last().record_distance_mm),
            ) {
                (Some(time_ms), Some(record_distance_mm)) => Some(
                    Race { time_ms, record_distance_mm },
                ),
                _ => None,
            },
            None => None,
        }
    }
}

impl Day06 {
    /// The product over all races of the number of ways to win the race.
    pub fn part_1(input: &Vec<Race>) -> (r: usize)
        requires
            forall|i: int| 0 <= i < input@.len() ==> (#[trigger] input@[i]).distances_fit(),
            forall|i: int| 0 <= i < input@.len() ==> (#[trigger] input@[i]).ways_to_win() <= usize::MAX,
            forall|k: int| 0 <= k <= input@.len() ==> #[trigger] ways_product(input@.take(k)) <= usize::MAX,
        ensures
            r == ways_product(input@),
    {
        let n: usize = input.len();
        let mut acc: usize = 1;
        let mut i: usize = 0;
        proof {
            assert(input@.take(0) =~= Seq::<Race>::empty());
        }
        while i < n
            invariant
                n == input@.len(),
                i <= n,
                forall|j: int| 0 <= j < input@.len() ==> (#[trigger] input@[j]).distances_fit(),
                forall|j: int|
                    0 <= j < input@.len() ==> (#[trigger] input@[j]).ways_to_win() <= usize::MAX,
                forall|k: int|
                    0 <= k <= input@.len() ==> #[trigger] ways_product(input@.take(k)) <= usize::MAX,
                acc == ways_product(input@.take(i as int)),
            decreases n - i,
        {
            let ways: usize = input[i].count_ways_to_win();
            proof {
                assert(input@.take(i + 1).drop_last() =~= input@.take(i as int));
                assert(input@.take(i + 1).last() == input@[i as int]);
                assert(ways_product(input@.take(i + 1)) <= usize::MAX);
            }
            acc = acc * ways;
            i += 1;
        }
        proof {
            assert(input@.take(n as int) =~= input@);
        }
        acc
    }

    /// The races read as one race, their numbers written one after another.
    pub fn merge(input: &Vec<Race>) -> (r: Option<Race>)
        ensures
            r == merged_race(input@),
    {
        let n: usize = input.len();
        if n == 0 {
            return None;
        }
        let mut acc: Race = input[0];
        let mut i: usize = 1;
        proof {
            assert(input@.take(1).len() == 1);
            assert(input@.take(1)[0] == input@[0]);
        }
        while i < n
            invariant
                n == input@.len(),
                1 <= i <= n,
                merged_race(input@.take(i as int)) == Some(acc),
            decreases n - i,
        {
            proof {
                assert(input@.take(i + 1).drop_last() =~= input@.take(i as int));
                assert(input@.take(i + 1).last() == input@[i as int]);
            }
            let time_ms = combine_digits(acc.time_ms, input[i].time_ms);
            let record = combine_digits(acc.record_distance_mm, input[i].record_distance_mm);
            match (time_ms, record) {
                (Some(time_ms), Some(record_distance_mm)) => {
                    acc = Race { time_ms, record_distance_mm };
                },
                _ => {
                    proof {
                        lemma_merged_race_stays_none(input@, i + 1);
                    }
                    return None;
                },
            }
            i += 1;
        }
        proof {
            assert(input@.take(n as int) =~= input@);
        }
        Some(acc)
    }

    /// The number of ways to win the one race that the races make when their
    /// numbers are written one after another.
    pub fn part_2(input: &Vec<Race>) -> (r: usize)
        requires
            merged_race(input@).is_some(),
            merged_race(input@).unwrap().distances_fit(),
            merged_race(input@).unwrap().ways_to_win() <= usize::MAX,
        ensures
            r == merged_race(input@).unwrap().ways_to_win(),
    {
        let p2_race: Race = Self::merge(input).unwrap();
        p2_race.count_ways_to_win()
    }
}

/// Once the numbers no longer fit, more races do not mend it.
pub proof fn lemma_merged_race_stays_none(races: Seq<Race>, k: int)
    requires
        1 <= k <= races.len(),
        merged_race(races.take(k)).is_none(),
    ensures
        merged_race(races).is_none(),
    decreases races.len() - k,
{
    if k == races.len() {
        assert(races.take(k) =~= races);
    } else {
        assert(races.take(k + 1).drop_last() =~= races.take(k));
        lemma_merged_race_stays_none(races, k + 1);
    }
}

/// The races that `times` and `distances` make, the first time with the
/// first distance and so on.
pub open spec fn zip_races(times: Seq<u64>, distances: Seq<u64>) -> Seq<Race> {
    Seq::new(
        times.len(),
        |i: int| Race { time_ms: times[i], record_distance_mm: distances[i] },
    )
}

/// The two lines of numbers at the start of `s`, the first headed `Time:`
/// and the second `Distance:`: the times, the distances, and where the
/// second line ends.
pub open spec fn spec_race_lists(s: Seq<char>) -> Option<((Seq<u64>, Seq<u64>), int)> {
    match spec_tag(s, 0, "Time:"@) {
        Some(a) => match spec_run1(s, a, CharClass::Space) {
            Some(b) => match list1(s, b, u64_item(), space_sep()) {
                Some((times, c)) => match spec_line_ending(s, c) {
                    Some(d) => match spec_tag(s, d, "Distance:"@) {
                        Some(e) => match spec_run1(s, e, CharClass::Space) {
                            Some(f) => match list1(s, f, u64_item(), space_sep()) {
                                Some((distances, g)) => Some(((times, distances), g)),
                                None => None,
                            },
                            None => None,
                        },
                        None => None,
                    },
                    None => None,
                },
                None => None,
            },
            None => None,
        },
        None => None,
    }
}

/// The races written at the start of `s`, and where they end; nothing when
/// the two lines are not there, or there are fewer distances than times.
pub open spec fn spec_races(s: Seq<char>) -> Option<(Seq<Race>, int)> {
    match spec_race_lists(s) {
        Some((lists, e)) => if lists.0.len() <= lists.1.len() {
            Some((zip_races(lists.0, lists.1), e))
        } else {
            None
        },
        None => None,
    }
}

impl Day06 {
    /// Reads the races from the start of `input`: a line of times headed
    /// `Time:` and a line of distances headed `Distance:`. Hands back the
    /// races, one for each time, and the number of characters read; `None`
    /// when `input` does not begin so, or has fewer distances than times.
    pub fn parse(input: &str) -> (r: Option<(Vec<Race>, usize)>)
        ensures
            match r {
                Some((races, e)) => spec_races(input@) == Some((races@, e as int)) && e
                    <= input@.len(),
                None => spec_races(input@).is_none(),
            },
    {
        let text: Vec<char> = chars_of(input);
        let s: &[char] = text.as_slice();
        let a: usize = match parse_tag(s, 0, "Time:") {
            Some(a) => a,
            None => {
                return None;
            },
        };
        let b: usize = match parse_run1(s, a, CharClass::Space) {
            Some(b) => b,
            None => {
                return None;
            },
        };
        let (times, c) = match parse_u64_list(s, b) {
            Some(found) => found,
            None => {
                return None;
            },
        };
        let d: usize = match parse_line_ending(s, c) {
            Some(d) => d,
            None => {
                return None;
            },
        };
        let e: usize = match parse_tag(s, d, "Distance:") {
            Some(e) => e,
            None => {
                return None;
            },
        };
        let f: usize = match parse_run1(s, e, CharClass::Space) {
            Some(f) => f,
            None => {
                return None;
            },
        };
        let (distances, g) = match parse_u64_list(s, f) {
            Some(found) => found,
            None => {
                return None;
            },
        };
        if distances.len() < times.len() {
            return None;
        }
        let n: usize = times.len();
        let mut races: Vec<Race> = Vec::new();
        let mut i: usize = 0;
        while i < n
            invariant
                n == times@.len(),
                n <= distances@.len(),
                i <= n,
                races@.len() == i,
                forall|k: int| 0 <= k < i ==> races@[k] == zip_races(times@, distances@)[k],
            decreases n - i,
        {
            races.push(Race { time_ms: times[i], record_distance_mm: distances[i] });
            i += 1;
        }
        proof {
            assert(races@ =~= zip_races(times@, distances@));
        }
        Some((races, g))
    }
}

} // verus!
