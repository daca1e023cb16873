use vstd::prelude::*;
use vstd::utf8::is_ascii_chars;
use crate::text::{
    CharClass, chars_of, has_prefix_at, is_digit, line_sep, list1, list_rest, parse_line_ending,
    parse_run1, spec_word, starts_with_at, string_range,
};

verus! {

/// The first day: calibration values hidden in lines of letters and digits.
pub struct Day01;

/// The English word for the digit `n`, for `n` from 1 to 9.
pub open spec fn number_word(n: int) -> Seq<char> {
    if n == 1 {
        "one"@
    } else if n == 2 {
        "two"@
    } else if n == 3 {
        "three"@
    } else if n == 4 {
        "four"@
    } else if n == 5 {
        "five"@
    } else if n == 6 {
        "six"@
    } else if n == 7 {
        "seven"@
    } else if n == 8 {
        "eight"@
    } else {
        "nine"@
    }
}

/// The digit written at index `i` of `s`, if one is.
pub open spec fn digit_token(s: Seq<char>, i: int) -> Option<u32> {
    if 0 <= i < s.len() && is_digit(s[i]) {
        Some((s[i] as u32 - 48) as u32)
    } else {
        None
    }
}

/// The digit whose English word begins at index `i` of `s`, if one does.
pub open spec fn word_token(s: Seq<char>, i: int) -> Option<u32> {
    if starts_with_at(s, i, number_word(1)) {
        Some(1u32)
    } else if starts_with_at(s, i, number_word(2)) {
        Some(2u32)
    } else if starts_with_at(s, i, number_word(3)) {
        Some(3u32)
    } else if starts_with_at(s, i, number_word(4)) {
        Some(4u32)
    } else if starts_with_at(s, i, number_word(5)) {
        Some(5u32)
    } else if starts_with_at(s, i, number_word(6)) {
        Some(6u32)
    } else if starts_with_at(s, i, number_word(7)) {
        Some(7u32)
    } else if starts_with_at(s, i, number_word(8)) {
        Some(8u32)
    } else if starts_with_at(s, i, number_word(9)) {
        Some(9u32)
    } else {
        None
    }
}

/// The digit found at index `i` of `s`: one written as a digit, or, where
/// `words` is set, one written as a word that begins there.
pub open spec fn token(s: Seq<char>, i: int, words: bool) -> Option<u32> {
    match digit_token(s, i) {
        Some(v) => Some(v),
        None => if words {
            word_token(s, i)
        } else {
            None
        },
    }
}

/// A digit is found somewhere in `s`.
pub open spec fn has_token(s: Seq<char>, words: bool) -> bool {
    exists|i: int| 0 <= i < s.len() && (#[trigger] token(s, i, words)).is_some()
}

/// Index `i` is the first of `s` at which a digit is found.
pub open spec fn is_first_pos(s: Seq<char>, words: bool, i: int) -> bool {
    &&& 0 <= i < s.len()
    &&& token(s, i, words).is_some()
    &&& forall|j: int| 0 <= j < i ==> (#[trigger] token(s, j, words)).is_none()
}

/// Index `i` is the last of `s` at which a digit is found.
pub open spec fn is_last_pos(s: Seq<char>, words: bool, i: int) -> bool {
    &&& 0 <= i < s.len()
    &&& token(s, i, words).is_some()
    &&& forall|j: int| i < j < s.len() ==> (#[trigger] token(s, j, words)).is_none()
}

/// The first digit found in `s`.
pub open spec fn first_value(s: Seq<char>, words: bool) -> u32 {
    match token(s, choose|i: int| is_first_pos(s, words, i), words) {
        Some(v) => v,
        None => 0,
    }
}

/// The last digit found in `s`.
pub open spec fn last_value(s: Seq<char>, words: bool) -> u32 {
    match token(s, choose|i: int| is_last_pos(s, words, i), words) {
        Some(v) => v,
        None => 0,
    }
}

/// The number made of the first and the last digit found in `s`.
pub open spec fn line_value(s: Seq<char>, words: bool) -> int {
    10 * first_value(s, words) + last_value(s, words)
}

/// The sum of the numbers that the first and last digits of each line make.
pub open spec fn calibration_sum(lines: Seq<String>, words: bool) -> int
    decreases lines.len(),
{
    if lines.len() == 0 {
        0
    } else {
        calibration_sum(lines.drop_last(), words) + line_value(lines.last()@, words)
    }
}

/// The first index with a digit decides the first digit.
proof fn lemma_first_pos_decides(s: Seq<char>, words: bool, i: int)
    requires
        is_first_pos(s, words, i),
    ensures
        first_value(s, words) == token(s, i, words).unwrap(),
{
    let c = choose|c: int| is_first_pos(s, words, c);
    if c < i {
        assert(token(s, c, words).is_none());
    } else if i < c {
        assert(token(s, i, words).is_none());
    }
}

/// The last index with a digit decides the last digit.
proof fn lemma_last_pos_decides(s: Seq<char>, words: bool, i: int)
    requires
        is_last_pos(s, words, i),
    ensures
        last_value(s, words) == token(s, i, words).unwrap(),
{
    let c = choose|c: int| is_last_pos(s, words, c);
    if c < i {
        assert(token(s, i, words).is_none());
    } else if i < c {
        assert(token(s, c, words).is_none());
    }
}

/// The value of a line lies between 0 and 99.
pub proof fn lemma_line_value_bounds(s: Seq<char>, words: bool)
    ensures
        0 <= line_value(s, words) <= 99,
{
}

/// The sum over the first `k` lines is not negative and not above the sum
/// over all of them.
pub proof fn lemma_calibration_sum_prefix(lines: Seq<String>, words: bool, k: int)
    requires
        0 <= k <= lines.len(),
    ensures
        0 <= calibration_sum(lines.take(k), words) <= calibration_sum(lines, words),
    decreases lines.len() - k,
{
    if k == lines.len() {
        assert(lines.take(k) =~= lines);
        lemma_calibration_sum_nonnegative(lines, words);
    } else {
        lemma_calibration_sum_prefix(lines, words, k + 1);
        assert(lines.take(k + 1).drop_last() =~= lines.take(k));
        lemma_line_value_bounds(lines.take(k + 1).last()@, words);
        lemma_calibration_sum_nonnegative(lines.take(k), words);
    }
}

/// No line counts for more than 99, so the sum over the lines is at most 99
/// times their number.
pub proof fn lemma_calibration_sum_bound(lines: Seq<String>, words: bool)
    ensures
        0 <= calibration_sum(lines, words) <= 99 * lines.len(),
    decreases lines.len(),
{
    if lines.len() > 0 {
        lemma_calibration_sum_bound(lines.drop_last(), words);
        lemma_line_value_bounds(lines.last()@, words);
    }
}

/// The sum over any lines is not negative.
proof fn lemma_calibration_sum_nonnegative(lines: Seq<String>, words: bool)
    ensures
        0 <= calibration_sum(lines, words),
    decreases lines.len(),
{
    if lines.len() > 0 {
        lemma_calibration_sum_nonnegative(lines.drop_last(), words);
        lemma_line_value_bounds(lines.last()@, words);
    }
}

/// The English words for the digits 1 to 9, in their order.
fn number_words() -> (table: Vec<Vec<char>>)
    ensures
        table@.len() == 9,
        forall|k: int| 0 <= k < 9 ==> (#[trigger] table@[k])@ == number_word(k + 1),
{
    let mut table: Vec<Vec<char>> = Vec::new();
    table.push(chars_of("one"));
    table.push(chars_of("two"));
    table.push(chars_of("three"));
    table.push(chars_of("four"));
    table.push(chars_of("five"));
    table.push(chars_of("six"));
    table.push(chars_of("seven"));
    table.push(chars_of("eight"));
    table.push(chars_of("nine"));
    table
}

/// The digit whose English word begins at index `i` of `s`, if one does.
fn word_at(s: &[char], i: usize, table: &Vec<Vec<char>>) -> (r: Option<u32>)
    requires
        table@.len() == 9,
        forall|k: int| 0 <= k < 9 ==> (#[trigger] table@[k])@ == number_word(k + 1),
    ensures
        r == word_token(s@, i as int),
{
    let mut k: usize = 0;
    while k < 9
        invariant
            k <= 9,
            table@.len() == 9,
            forall|j: int| 0 <= j < 9 ==> (#[trigger] table@[j])@ == number_word(j + 1),
            forall|n: int| 1 <= n <= k ==> !starts_with_at(s@, i as int, #[trigger] number_word(n)),
        decreases 9 - k,
    {
        if has_prefix_at(s, i, table[k].as_slice()) {
            return Some(k as u32 + 1);
        }
        k += 1;
    }
    None
}

/// The first and the last digit found in `s`, or `None` when there is none.
/// Where `words` is set, a digit may also be written as an English word.
pub fn first_last(s: &[char], words: bool) -> (r: Option<(u32, u32)>)
    ensures
        match r {
            Some(pair) => {
                &&& has_token(s@, words)
                &&& pair.0 == first_value(s@, words)
                &&& pair.1 == last_value(s@, words)
            },
            None => !has_token(s@, words),
        },
{
    let n: usize = s.len();
    let table: Vec<Vec<char>> = number_words();
    let mut output: Option<(u32, u32)> = None;
    let ghost mut first_at: int = 0;
    let ghost mut last_at: int = 0;
    let mut pos: usize = 0;
    while pos < n
        invariant
            n == s@.len(),
            pos <= n,
            table@.len() == 9,
            forall|k: int| 0 <= k < 9 ==> (#[trigger] table@[k])@ == number_word(k + 1),
            match output {
                Some(pair) => {
                    &&& is_first_pos(s@, words, first_at)
                    &&& 0 <= last_at < pos
                    &&& token(s@, first_at, words) == Some(pair.0)
                    &&& token(s@, last_at, words) == Some(pair.1)
                    &&& forall|j: int| last_at < j < pos ==> (#[trigger] token(s@, j, words)).is_none()
                },
                None => forall|j: int| 0 <= j < pos ==> (#[trigger] token(s@, j, words)).is_none(),
            },
        decreases n - pos,
    {
        let c: char = s[pos];
        let found: Option<u32> = if '0' <= c && c <= '9' {
            Some(c as u32 - 48)
        } else if words {
            word_at(s, pos, &table)
        } else {
            None
        };
        match found {
            Some(v) => {
                match output {
                    Some(pair) => {
                        output = Some((pair.0, v));
                    },
                    None => {
                        output = Some((v, v));
                        proof {
                            first_at = pos as int;
                        }
                    },
                }
                proof {
                    last_at = pos as int;
                }
            },
            None => {},
        }
        pos += 1;
    }
    proof {
        if output.is_some() {
            lemma_first_pos_decides(s@, words, first_at);
            lemma_last_pos_decides(s@, words, last_at);
        }
    }
    output
}

impl Day01 {
    /// The first and the last digit written in `input`.
    pub fn first_last_digits(input: &str) -> (r: (u32, u32))
        requires
            has_token(input@, false),
        ensures
            r.0 == first_value(input@, false),
            r.1 == last_value(input@, false),
    {
        first_last(chars_of(input).as_slice(), false).unwrap()
    }

    /// The first and the last digit found in `input`, be it written as a
    /// digit or as an English word from `one` to `nine`. Words may overlap:
    /// each counts where it begins. The input is plain ASCII.
    pub fn first_last_digits_words(input: &str) -> (r: (u32, u32))
        requires
            is_ascii_chars(input@),
            has_token(input@, true),
        ensures
            r.0 == first_value(input@, true),
            r.1 == last_value(input@, true),
    {
        first_last(chars_of(input).as_slice(), true).unwrap()
    }

    /// The number with the tens digit `input.0` and the units digit
    /// `input.1`.
    pub fn combine_nums(input: (u32, u32)) -> (r: u32)
        requires
            input.0 * 10 + input.1 <= u32::MAX,
        ensures
            r == input.0 * 10 + input.1,
    {
        input.0 * 10 + input.1
    }

    /// The sum over all lines of the number that the first and the last
    /// digit of the line make.
    pub fn part_1(input: &Vec<String>) -> (r: u32)
        requires
            forall|i: int|
                0 <= i < input@.len() ==> has_token((#[trigger] input@[i])@, false),
            calibration_sum(input@, false) <= u32::MAX,
        ensures
            r == calibration_sum(input@, false),
    {
        let n: usize = input.len();
        let mut sum: u32 = 0;
        let mut i: usize = 0;
        proof {
            assert(input@.take(0) =~= Seq::<String>::empty());
        }
        while i < n
            invariant
                n == input@.len(),
                i <= n,
                forall|j: int|
                    0 <= j < input@.len() ==> has_token(
                        (#[trigger] input@[j])@,
                        false,
                    ),
                calibration_sum(input@, false) <= u32::MAX,
                sum == calibration_sum(input@.take(i as int), false),
            decreases n - i,
        {
            let digits: (u32, u32) = Self::first_last_digits(input[i].as_str());
            proof {
                lemma_calibration_sum_prefix(input@, false, i + 1);
                assert(input@.take(i + 1).drop_last() =~= input@.take(i as int));
                assert(input@.take(i + 1).last() == input@[i as int]);
                lemma_line_value_bounds(input@[i as int]@, false);
            }
            sum = sum + Self::combine_nums(digits);
            i += 1;
        }
        proof {
            assert(input@.take(n as int) =~= input@);
        }
        sum
    }

    /// The sum over all lines of the number that the first and the last
    /// digit of the line make, where a digit may also be written as a word.
    pub fn part_2(input: &Vec<String>) -> (r: u32)
        requires
            forall|i: int| 0 <= i < input@.len() ==> is_ascii_chars((#[trigger] input@[i])@),
            forall|i: int|
                0 <= i < input@.len() ==> has_token((#[trigger] input@[i])@, true),
            calibration_sum(input@, true) <= u32::MAX,
        ensures
            r == calibration_sum(input@, true),
    {
        let n: usize = input.len();
        let mut sum: u32 = 0;
        let mut i: usize = 0;
        proof {
            assert(input@.take(0) =~= Seq::<String>::empty());
        }
        while i < n
            invariant
                n == input@.len(),
                i <= n,
                forall|j: int| 0 <= j < input@.len() ==> is_ascii_chars((#[trigger] input@[j])@),
                forall|j: int|
                    0 <= j < input@.len() ==> has_token(
                        (#[trigger] input@[j])@,
                        true,
                    ),
                calibration_sum(input@, true) <= u32::MAX,
                sum == calibration_sum(input@.take(i as int), true),
            decreases n - i,
        {
            let digits: (u32, u32) = Self::first_last_digits_words(input[i].as_str());
            proof {
                lemma_calibration_sum_prefix(input@, true, i + 1);
                assert(input@.take(i + 1).drop_last() =~= input@.take(i as int));
                assert(input@.take(i + 1).last() == input@[i as int]);
                lemma_line_value_bounds(input@[i as int]@, true);
            }
            sum = sum + Self::combine_nums(digits);
            i += 1;
        }
        proof {
            assert(input@.take(n as int) =~= input@);
        }
        sum
    }
}

/// Reading a run of letters and digits.
pub open spec fn line_item() -> spec_fn(Seq<char>, int) -> Option<(Seq<char>, int)> {
    |s: Seq<char>, i: int| spec_word(s, i, CharClass::AlphaNumeric)
}

/// What the lines hold, as sequences of characters.
pub open spec fn line_views(lines: Seq<String>) -> Seq<Seq<char>> {
    lines.map_values(|l: String| l@)
}

impl Day01 {
    /// Reads the lines from the start of `input`: each a run of letters and
    /// digits, with a line end between each two. Hands back the lines and the
    /// number of characters read, or `None` when `input` does not begin with
    /// a letter or a digit.
    pub fn parse(input: &str) -> (r: Option<(Vec<String>, usize)>)
        ensures
            match r {
                Some((lines, e)) => list1(input@, 0, line_item(), line_sep()) == Some(
                    (line_views(lines@), e as int),
                ) && e <= input@.len(),
                None => list1(input@, 0, line_item(), line_sep()).is_none(),
            },
    {
        let text: Vec<char> = chars_of(input);
        let s: &[char] = text.as_slice();
        let start: usize = match parse_run1(s, 0, CharClass::AlphaNumeric) {
            Some(e) => e,
            None => {
                return None;
            },
        };
        let mut lines: Vec<String> = Vec::new();
        let first: String = string_range(input, 0, start);
        proof {
            assert(line_views(lines@.push(first)) =~= seq![first@]);
        }
        lines.push(first);
        let mut at: usize = start;
        loop
            invariant
                s@ == input@,
                at <= s@.len(),
                list1(s@, 0, line_item(), line_sep()) == Some(
                    list_rest(s@, at as int, line_item(), line_sep(), line_views(lines@)),
                ),
            decreases s@.len() - at,
        {
            let next: usize = match parse_line_ending(s, at) {
                Some(next) => next,
                None => {
                    return Some((lines, at));
                },
            };
            match parse_run1(s, next, CharClass::AlphaNumeric) {
                Some(m) => {
                    let line: String = string_range(input, next, m);
                    proof {
                        assert(line_views(lines@.push(line)) =~= line_views(lines@).push(line@));
                    }
                    lines.push(line);
                    at = m;
                },
                None => {
                    return Some((lines, at));
                },
            }
        }
    }
}

} // verus!
