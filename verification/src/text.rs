//! Reading numbers, words and line ends from text.
//!
//! Every reader starts at an index of the input and says where it stopped, or
//! that what it looks for is not there.

use vstd::prelude::*;
use vstd::string::StrSliceExecFns;

verus! {

/// A kind of character that readers take runs of.
#[derive(Clone, Copy, Debug, PartialEq, Eq, Structural)]
pub enum CharClass {
    /// `0` to `9`.
    Digit,
    /// The space and the tab.
    Space,
    /// `A` to `Z` and `a` to `z`.
    Alpha,
    /// A letter or a digit.
    AlphaNumeric,
    /// Anything but a line feed or a carriage return.
    NotLineEnd,
    /// `L` or `R`.
    Turn,
}

/// `c` is one of the characters `0` to `9`.
pub open spec fn is_digit(c: char) -> bool {
    '0' <= c <= '9'
}

/// `c` is a letter of ASCII.
pub open spec fn is_alpha(c: char) -> bool {
    'A' <= c <= 'Z' || 'a' <= c <= 'z'
}

/// `c` belongs to `class`.
pub open spec fn in_class(class: CharClass, c: char) -> bool {
    match class {
        CharClass::Digit => is_digit(c),
        CharClass::Space => c == ' ' || c == '\t',
        CharClass::Alpha => is_alpha(c),
        CharClass::AlphaNumeric => is_alpha(c) || is_digit(c),
        CharClass::NotLineEnd => c != '\n' && c != '\r',
        CharClass::Turn => c == 'L' || c == 'R',
    }
}

/// The index at which the run of characters of `class` that begins at `i` ends.
pub open spec fn run_end(s: Seq<char>, i: int, class: CharClass) -> int
    decreases s.len() - i,
{
    if 0 <= i < s.len() && in_class(class, s[i]) {
        run_end(s, i + 1, class)
    } else {
        i
    }
}

/// A run ends inside the input, holds only characters of its class, and ends at
/// the end of the input or before a character of another class.
pub proof fn lemma_run_end(s: Seq<char>, i: int, class: CharClass)
    requires
        0 <= i <= s.len(),
    ensures
        i <= run_end(s, i, class) <= s.len(),
        forall|j: int| i <= j < run_end(s, i, class) ==> in_class(class, #[trigger] s[j]),
        run_end(s, i, class) < s.len() ==> !in_class(class, s[run_end(s, i, class)]),
    decreases s.len() - i,
{
    if i < s.len() && in_class(class, s[i]) {
        lemma_run_end(s, i + 1, class);
    }
}

/// Whether `c` belongs to `class`.
pub fn char_in_class(class: CharClass, c: char) -> (r: bool)
    ensures
        r == in_class(class, c),
{
    match class {
        CharClass::Digit => '0' <= c && c <= '9',
        CharClass::Space => c == ' ' || c == '\t',
        CharClass::Alpha => ('A' <= c && c <= 'Z') || ('a' <= c && c <= 'z'),
        CharClass::AlphaNumeric => ('A' <= c && c <= 'Z') || ('a' <= c && c <= 'z') || ('0' <= c
            && c <= '9'),
        CharClass::NotLineEnd => c != '\n' && c != '\r',
        CharClass::Turn => c == 'L' || c == 'R',
    }
}

/// The index at which the run of characters of `class` that begins at `i` ends.
pub fn skip_class(s: &[char], i: usize, class: CharClass) -> (e: usize)
    requires
        i <= s@.len(),
    ensures
        e == run_end(s@, i as int, class),
        i <= e <= s@.len(),
{
    let n: usize = s.len();
    let mut e: usize = i;
    while e < n && char_in_class(class, s[e])
        invariant
            n == s@.len(),
            i <= e <= n,
            run_end(s@, i as int, class) == run_end(s@, e as int, class),
        decreases n - e,
    {
        e += 1;
    }
    e
}

/// The characters of `input`, one by one.
pub fn chars_of(input: &str) -> (v: Vec<char>)
    ensures
        v@ == input@,
{
    let mut v: Vec<char> = Vec::new();
    for c in it: input.chars()
        invariant
            v@ == it.seq().take(it.index() as int),
            it.seq() == input@,
    {
        v.push(c);
        proof {
            assert(it.seq().take(it.index() + 1) =~= it.seq().take(it.index() as int).push(c));
        }
    }
    proof {
        assert(v@ =~= input@);
    }
    v
}

/// The characters of `s` from `a` up to `e`.
pub fn copy_range(s: &[char], a: usize, e: usize) -> (v: Vec<char>)
    requires
        a <= e <= s@.len(),
    ensures
        v@ == s@.subrange(a as int, e as int),
{
    let mut v: Vec<char> = Vec::new();
    let mut k: usize = a;
    while k < e
        invariant
            a <= k <= e <= s@.len(),
            v@ == s@.subrange(a as int, k as int),
        decreases e - k,
    {
        v.push(s[k]);
        proof {
            assert(s@.subrange(a as int, k + 1) =~= s@.subrange(a as int, k as int).push(
                s@[k as int],
            ));
        }
        k += 1;
    }
    v
}

/// The characters of `input` from `a` up to `e`, as a string of their own.
pub fn string_range(input: &str, a: usize, e: usize) -> (r: String)
    requires
        a <= e <= input@.len(),
    ensures
        r@ == input@.subrange(a as int, e as int),
{
    input.substring_char(a, e).to_owned()
}

/// A run of one character or more of `class` from `i` on, and where it ends.
pub open spec fn spec_word(s: Seq<char>, i: int, class: CharClass) -> Option<(Seq<char>, int)> {
    match spec_run1(s, i, class) {
        Some(e) => Some((s.subrange(i, e), e)),
        None => None,
    }
}

/// A run of one character or more of `class` from `i` on: where it ends.
pub open spec fn spec_run1(s: Seq<char>, i: int, class: CharClass) -> Option<int> {
    if run_end(s, i, class) > i {
        Some(run_end(s, i, class))
    } else {
        None
    }
}

/// Reads a run of one character or more of `class` from `i` on.
pub fn parse_run1(s: &[char], i: usize, class: CharClass) -> (r: Option<usize>)
    requires
        i <= s@.len(),
    ensures
        match r {
            Some(e) => spec_run1(s@, i as int, class) == Some(e as int) && i < e <= s@.len(),
            None => spec_run1(s@, i as int, class).is_none(),
        },
{
    let e: usize = skip_class(s, i, class);
    if e > i {
        Some(e)
    } else {
        None
    }
}

/// The text `s` from index `i` on begins with `word`.
pub open spec fn starts_with_at(s: Seq<char>, i: int, word: Seq<char>) -> bool {
    0 <= i && i + word.len() <= s.len() && s.subrange(i, i + word.len()) == word
}

/// Whether the text `s` from index `i` on begins with `word`.
pub fn has_prefix_at(s: &[char], i: usize, word: &[char]) -> (b: bool)
    ensures
        b == starts_with_at(s@, i as int, word@),
{
    let n: usize = word.len();
    let len: usize = s.len();
    if i > len || len - i < n {
        return false;
    }
    let mut k: usize = 0;
    while k < n
        invariant
            n == word@.len(),
            len == s@.len(),
            k <= n,
            i + n <= len,
            forall|j: int| 0 <= j < k ==> s@[i + j] == word@[j],
        decreases n - k,
    {
        if s[i + k] != word[k] {
            proof {
                assert(s@.subrange(i as int, i + n)[k as int] == s@[i + k]);
            }
            return false;
        }
        k += 1;
    }
    proof {
        assert(s@.subrange(i as int, i + n) =~= word@);
    }
    true
}

/// The text `word` at `i`: where it ends.
pub open spec fn spec_tag(s: Seq<char>, i: int, word: Seq<char>) -> Option<int> {
    if starts_with_at(s, i, word) {
        Some(i + word.len())
    } else {
        None
    }
}

/// Reads the text `word` at `i`.
pub fn parse_tag(s: &[char], i: usize, word: &str) -> (r: Option<usize>)
    ensures
        match r {
            Some(e) => spec_tag(s@, i as int, word@) == Some(e as int) && i <= e <= s@.len(),
            None => spec_tag(s@, i as int, word@).is_none(),
        },
{
    let letters: Vec<char> = chars_of(word);
    let n: usize = s.len();
    if has_prefix_at(s, i, letters.as_slice()) {
        Some(i + letters.len())
    } else {
        None
    }
}

/// A line end at `i`, be it a line feed or a carriage return with a line
/// feed: where it ends.
pub open spec fn spec_line_ending(s: Seq<char>, i: int) -> Option<int> {
    if 0 <= i < s.len() && s[i] == '\n' {
        Some(i + 1)
    } else if 0 <= i && i + 1 < s.len() && s[i] == '\r' && s[i + 1] == '\n' {
        Some(i + 2)
    } else {
        None
    }
}

/// Reads a line end at `i`.
pub fn parse_line_ending(s: &[char], i: usize) -> (r: Option<usize>)
    ensures
        match r {
            Some(e) => spec_line_ending(s@, i as int) == Some(e as int) && i < e <= s@.len(),
            None => spec_line_ending(s@, i as int).is_none(),
        },
{
    let n: usize = s.len();
    if i < n && s[i] == '\n' {
        Some(i + 1)
    } else if i < n && n - i >= 2 && s[i] == '\r' && s[i + 1] == '\n' {
        Some(i + 2)
    } else {
        None
    }
}

/// Two line ends at `i`: where they end.
pub open spec fn spec_blank_line(s: Seq<char>, i: int) -> Option<int> {
    match spec_line_ending(s, i) {
        Some(j) => spec_line_ending(s, j),
        None => None,
    }
}

/// Reads two line ends at `i`.
pub fn parse_blank_line(s: &[char], i: usize) -> (r: Option<usize>)
    ensures
        match r {
            Some(e) => spec_blank_line(s@, i as int) == Some(e as int) && i < e <= s@.len(),
            None => spec_blank_line(s@, i as int).is_none(),
        },
{
    match parse_line_ending(s, i) {
        Some(j) => parse_line_ending(s, j),
        None => None,
    }
}

/// The rest of the line from `i` on: where it ends, before the line end. A
/// carriage return that no line feed follows is an error.
pub open spec fn spec_not_line_ending(s: Seq<char>, i: int) -> Option<int> {
    let e = run_end(s, i, CharClass::NotLineEnd);
    if 0 <= e < s.len() && s[e] == '\r' && !(e + 1 < s.len() && s[e + 1] == '\n') {
        None
    } else {
        Some(e)
    }
}

/// Reads the rest of the line from `i` on.
pub fn parse_not_line_ending(s: &[char], i: usize) -> (r: Option<usize>)
    requires
        i <= s@.len(),
    ensures
        match r {
            Some(e) => spec_not_line_ending(s@, i as int) == Some(e as int) && i <= e <= s@.len(),
            None => spec_not_line_ending(s@, i as int).is_none(),
        },
{
    let n: usize = s.len();
    let e: usize = skip_class(s, i, CharClass::NotLineEnd);
    if e < n && s[e] == '\r' && !(n - e >= 2 && s[e + 1] == '\n') {
        None
    } else {
        Some(e)
    }
}

/// The number that the digits `digits` write in base ten.
pub open spec fn decimal_value(digits: Seq<char>) -> int
    decreases digits.len(),
{
    if digits.len() == 0 {
        0
    } else {
        10 * decimal_value(digits.drop_last()) + (digits.last() as int - 48)
    }
}

/// The number written at `i` with one digit or more, and where it ends;
/// nothing when there is no digit, or the number is above `max`.
pub open spec fn spec_number(s: Seq<char>, i: int, max: int) -> Option<(int, int)> {
    let e = run_end(s, i, CharClass::Digit);
    if i < e && decimal_value(s.subrange(i, e)) <= max {
        Some((decimal_value(s.subrange(i, e)), e))
    } else {
        None
    }
}

/// The number that the first `k` digits write is not above the number that
/// all of them write.
pub proof fn lemma_decimal_prefix(digits: Seq<char>, k: int)
    requires
        0 <= k <= digits.len(),
        forall|j: int| 0 <= j < digits.len() ==> is_digit(#[trigger] digits[j]),
    ensures
        0 <= decimal_value(digits.take(k)) <= decimal_value(digits),
    decreases digits.len() - k,
{
    if k == digits.len() {
        assert(digits.take(k) =~= digits);
        lemma_decimal_nonnegative(digits);
    } else {
        lemma_decimal_prefix(digits, k + 1);
        assert(digits.take(k + 1).drop_last() =~= digits.take(k));
        lemma_decimal_nonnegative(digits.take(k));
    }
}

/// Digits write no negative number.
proof fn lemma_decimal_nonnegative(digits: Seq<char>)
    requires
        forall|j: int| 0 <= j < digits.len() ==> is_digit(#[trigger] digits[j]),
    ensures
        0 <= decimal_value(digits),
    decreases digits.len(),
{
    if digits.len() > 0 {
        lemma_decimal_nonnegative(digits.drop_last());
    }
}

/// Reads the number written at `i`, if it is not above `max`.
pub fn parse_number(s: &[char], i: usize, max: u64) -> (r: Option<(u64, usize)>)
    requires
        i <= s@.len(),
    ensures
        match r {
            Some((v, e)) => spec_number(s@, i as int, max as int) == Some((v as int, e as int))
                && i < e <= s@.len() && v <= max,
            None => spec_number(s@, i as int, max as int).is_none(),
        },
{
    let e: usize = skip_class(s, i, CharClass::Digit);
    if e == i {
        return None;
    }
    let ghost digits = s@.subrange(i as int, e as int);
    proof {
        lemma_run_end(s@, i as int, CharClass::Digit);
        assert(digits.take(0) =~= Seq::<char>::empty());
    }
    let mut value: u64 = 0;
    let mut k: usize = i;
    while k < e
        invariant
            i <= k <= e <= s@.len(),
            i < e,
            e == run_end(s@, i as int, CharClass::Digit),
            digits == s@.subrange(i as int, e as int),
            forall|j: int| 0 <= j < digits.len() ==> is_digit(#[trigger] digits[j]),
            value == decimal_value(digits.take(k - i)),
            value <= max,
        decreases e - k,
    {
        proof {
            assert(digits[k - i] == s@[k as int]);
            assert(digits.take(k - i + 1).drop_last() =~= digits.take(k - i));
            assert(digits.take(k - i + 1).last() == digits[k - i]);
            lemma_decimal_prefix(digits, k - i + 1);
        }
        let d: u64 = (s[k] as u32 - 48) as u64;
        if d > max || value > (max - d) / 10 {
            return None;
        }
        value = value * 10 + d;
        k += 1;
    }
    proof {
        assert(digits.take(e - i) =~= digits);
    }
    Some((value, e))
}

/// Reads the number written at `i`, if it fits in a `u64`.
pub fn parse_u64(s: &[char], i: usize) -> (r: Option<(u64, usize)>)
    requires
        i <= s@.len(),
    ensures
        match r {
            Some((v, e)) => spec_number(s@, i as int, u64::MAX as int) == Some((v as int, e as int))
                && i < e <= s@.len(),
            None => spec_number(s@, i as int, u64::MAX as int).is_none(),
        },
{
    parse_number(s, i, u64::MAX)
}

/// Reads the number written at `i`, if it fits in a `u32`.
pub fn parse_u32(s: &[char], i: usize) -> (r: Option<(u32, usize)>)
    requires
        i <= s@.len(),
    ensures
        match r {
            Some((v, e)) => spec_number(s@, i as int, u32::MAX as int) == Some((v as int, e as int))
                && i < e <= s@.len(),
            None => spec_number(s@, i as int, u32::MAX as int).is_none(),
        },
{
    match parse_number(s, i, 0xffff_ffff) {
        Some((v, e)) => Some((v as u32, e)),
        None => None,
    }
}

/// The number written at `i`, if it fits in a `u64`, and where it ends.
pub open spec fn spec_u64(s: Seq<char>, i: int) -> Option<(u64, int)> {
    match spec_number(s, i, u64::MAX as int) {
        Some((v, e)) => Some((v as u64, e)),
        None => None,
    }
}

/// The number written at `i`, if it fits in a `u32`, and where it ends.
pub open spec fn spec_u32(s: Seq<char>, i: int) -> Option<(u32, int)> {
    match spec_number(s, i, u32::MAX as int) {
        Some((v, e)) => Some((v as u32, e)),
        None => None,
    }
}

/// What follows the first item of a list: as long as a separator and an
/// item after it are found, the item joins `acc`. The list ends before the
/// first separator that no item follows.
pub open spec fn list_rest<T>(
    s: Seq<char>,
    j: int,
    item: spec_fn(Seq<char>, int) -> Option<(T, int)>,
    sep: spec_fn(Seq<char>, int) -> Option<int>,
    acc: Seq<T>,
) -> (Seq<T>, int)
    decreases s.len() - j,
{
    match sep(s, j) {
        Some(k) => if j < k <= s.len() {
            match item(s, k) {
                Some((v, m)) => if k <= m <= s.len() {
                    list_rest(s, m, item, sep, acc.push(v))
                } else {
                    (acc, j)
                },
                None => (acc, j),
            }
        } else {
            (acc, j)
        },
        None => (acc, j),
    }
}

/// A list of one item or more from `i` on, with a separator between each
/// two: the items, and where the list ends.
pub open spec fn list1<T>(
    s: Seq<char>,
    i: int,
    item: spec_fn(Seq<char>, int) -> Option<(T, int)>,
    sep: spec_fn(Seq<char>, int) -> Option<int>,
) -> Option<(Seq<T>, int)> {
    match item(s, i) {
        Some((v, j)) => Some(list_rest(s, j, item, sep, seq![v])),
        None => None,
    }
}

/// Reading a number that fits in a `u64`.
pub open spec fn u64_item() -> spec_fn(Seq<char>, int) -> Option<(u64, int)> {
    |s: Seq<char>, i: int| spec_u64(s, i)
}

/// Reading a number that fits in a `u32`.
pub open spec fn u32_item() -> spec_fn(Seq<char>, int) -> Option<(u32, int)> {
    |s: Seq<char>, i: int| spec_u32(s, i)
}

/// Reading a run of spaces and tabs.
pub open spec fn space_sep() -> spec_fn(Seq<char>, int) -> Option<int> {
    |s: Seq<char>, i: int| spec_run1(s, i, CharClass::Space)
}

/// Reading a line end.
pub open spec fn line_sep() -> spec_fn(Seq<char>, int) -> Option<int> {
    |s: Seq<char>, i: int| spec_line_ending(s, i)
}

/// Reading two line ends.
pub open spec fn blank_line_sep() -> spec_fn(Seq<char>, int) -> Option<int> {
    |s: Seq<char>, i: int| spec_blank_line(s, i)
}

/// Reads a list of numbers that fit in a `u64`, with spaces between them.
pub fn parse_u64_list(s: &[char], i: usize) -> (r: Option<(Vec<u64>, usize)>)
    requires
        i <= s@.len(),
    ensures
        match r {
            Some((v, e)) => list1(s@, i as int, u64_item(), space_sep()) == Some((v@, e as int))
                && i < e <= s@.len() && v@.len() > 0,
            None => list1(s@, i as int, u64_item(), space_sep()).is_none(),
        },
{
    let (first, start) = match parse_u64(s, i) {
        Some(found) => found,
        None => {
            return None;
        },
    };
    let mut out: Vec<u64> = Vec::new();
    out.push(first);
    let mut j: usize = start;
    loop
        invariant
            i < j <= s@.len(),
            out@.len() > 0,
            list1(s@, i as int, u64_item(), space_sep()) == Some(
                list_rest(s@, j as int, u64_item(), space_sep(), out@),
            ),
        decreases s@.len() - j,
    {
        let k: usize = match parse_run1(s, j, CharClass::Space) {
            Some(k) => k,
            None => {
                return Some((out, j));
            },
        };
        match parse_u64(s, k) {
            Some((v, m)) => {
                out.push(v);
                j = m;
            },
            None => {
                return Some((out, j));
            },
        }
    }
}

/// Reads a list of numbers that fit in a `u32`, with spaces between them.
pub fn parse_u32_list(s: &[char], i: usize) -> (r: Option<(Vec<u32>, usize)>)
    requires
        i <= s@.len(),
    ensures
        match r {
            Some((v, e)) => list1(s@, i as int, u32_item(), space_sep()) == Some((v@, e as int))
                && i < e <= s@.len() && v@.len() > 0,
            None => list1(s@, i as int, u32_item(), space_sep()).is_none(),
        },
{
    let (first, start) = match parse_u32(s, i) {
        Some(found) => found,
        None => {
            return None;
        },
    };
    let mut out: Vec<u32> = Vec::new();
    out.push(first);
    let mut j: usize = start;
    loop
        invariant
            i < j <= s@.len(),
            out@.len() > 0,
            list1(s@, i as int, u32_item(), space_sep()) == Some(
                list_rest(s@, j as int, u32_item(), space_sep(), out@),
            ),
        decreases s@.len() - j,
    {
        let k: usize = match parse_run1(s, j, CharClass::Space) {
            Some(k) => k,
            None => {
                return Some((out, j));
            },
        };
        match parse_u32(s, k) {
            Some((v, m)) => {
                out.push(v);
                j = m;
            },
            None => {
                return Some((out, j));
            },
        }
    }
}

} // verus!
