use vstd::prelude::*;
use vstd::std_specs::cmp::PartialEqSpecImpl;
use crate::text::{
    CharClass, chars_of, line_sep, list1, list_rest, parse_line_ending, parse_run1, parse_tag,
    parse_u32, parse_u32_list, space_sep, spec_run1, spec_tag, spec_u32, u32_item,
};

verus! {

/// A scratch card: its number, the winning numbers, and the numbers held.
#[derive(Debug)]
pub struct Card {
    pub index: u32,
    pub winners: Vec<u32>,
    pub contestants: Vec<u32>,
}

impl PartialEq for Card {
    /// Two cards are the same card when they bear the same number.
    fn eq(&self, other: &Self) -> (r: bool) {
        self.index == other.index
    }
}

impl PartialEqSpecImpl for Card {
    /// `==` on cards is what `eq_spec` says.
    open spec fn obeys_eq_spec() -> bool {
        true
    }

    /// Two cards are the same card when they bear the same number.
    open spec fn eq_spec(&self, other: &Self) -> bool {
        self.index == other.index
    }
}

impl Eq for Card {

}

/// How many of `contestants` are among `winners`.
pub open spec fn match_count(winners: Seq<u32>, contestants: Seq<u32>) -> nat
    decreases contestants.len(),
{
    if contestants.len() == 0 {
        0
    } else {
        match_count(winners, contestants.drop_last()) + if winners.contains(contestants.last()) {
            1nat
        } else {
            0nat
        }
    }
}

/// There are no more matches than numbers held.
pub proof fn lemma_match_count_bound(winners: Seq<u32>, contestants: Seq<u32>)
    ensures
        match_count(winners, contestants) <= contestants.len(),
    decreases contestants.len(),
{
    if contestants.len() > 0 {
        lemma_match_count_bound(winners, contestants.drop_last());
    }
}

/// Two to the power `k`.
pub open spec fn pow2(k: nat) -> int
    decreases k,
{
    if k == 0 {
        1
    } else {
        2 * pow2((k - 1) as nat)
    }
}

/// The worth of a card with `num_matches` matches: nothing for none, one
/// point for the first match, and twice as much for each further one.
pub open spec fn spec_score(num_matches: nat) -> int {
    if num_matches == 0 {
        0
    } else {
        pow2((num_matches - 1) as nat)
    }
}

/// The powers of two grow with the exponent, from 1 on.
proof fn lemma_pow2_monotone(a: nat, b: nat)
    requires
        a <= b,
    ensures
        1 <= pow2(a) <= pow2(b),
    decreases b,
{
    if a < b {
        lemma_pow2_monotone(a, (b - 1) as nat);
    } else if a > 0 {
        lemma_pow2_monotone((a - 1) as nat, (b - 1) as nat);
    }
}

/// Two to the power 31.
proof fn lemma_pow2_31()
    ensures
        pow2(31) == 0x8000_0000,
{
    reveal_with_fuel(pow2, 32);
}

/// Whether `x` is one of `v`.
fn contains(v: &Vec<u32>, x: u32) -> (b: bool)
    ensures
        b == v@.contains(x),
{
    let n: usize = v.len();
    let mut i: usize = 0;
    while i < n
        invariant
            n == v@.len(),
            i <= n,
            forall|j: int| 0 <= j < i ==> v@[j] != x,
        decreases n - i,
    {
        if v[i] == x {
            return true;
        }
        i += 1;
    }
    false
}

impl Card {
    /// The number of the card's held numbers that are winning numbers.
    pub open spec fn matches(self) -> nat {
        match_count(self.winners@, self.contestants@)
    }

    /// The worth of a card with `num_matches` matches.
    pub fn score(num_matches: usize) -> (r: u32)
        requires
            num_matches <= 32,
        ensures
            r == spec_score(num_matches as nat),
    {
        if num_matches == 0 {
            0
        } else {
            let mut score: u32 = 1;
            let mut i: usize = 0;
            while i < num_matches - 1
                invariant
                    1 <= num_matches <= 32,
                    i <= num_matches - 1,
                    score == pow2(i as nat),
                decreases num_matches - 1 - i,
            {
                proof {
                    lemma_pow2_monotone((i + 1) as nat, 31);
                    lemma_pow2_31();
                }
                score = score * 2;
                i += 1;
            }
            score
        }
    }

    /// The number of the card's held numbers that are winning numbers.
    pub fn num_matches(&self) -> (n: usize)
        ensures
            n == self.matches(),
    {
        let len: usize = self.contestants.len();
        let mut count: usize = 0;
        let mut i: usize = 0;
        proof {
            assert(self.contestants@.take(0) =~= Seq::<u32>::empty());
        }
        while i < len
            invariant
                len == self.contestants@.len(),
                i <= len,
                count == match_count(self.winners@, self.contestants@.take(i as int)),
                count <= i,
            decreases len - i,
        {
            proof {
                assert(self.contestants@.take(i + 1).drop_last() =~= self.contestants@.take(i as int));
                assert(self.contestants@.take(i + 1).last() == self.contestants@[i as int]);
            }
            if contains(&self.winners, self.contestants[i]) {
                count = count + 1;
            }
            i += 1;
        }
        proof {
            assert(self.contestants@.take(len as int) =~= self.contestants@);
        }
        count
    }

    /// The worth of the card.
    pub fn score_p1(&self) -> (r: u32)
        requires
            self.matches() <= 32,
        ensures
            r == spec_score(self.matches()),
    {
        Self::score(self.num_matches())
    }

    /// The numbers of the cards that this card wins, as the first and the
    /// last of them: as many cards as it has matches, from the one after it
    /// on. `None` when it has no match.
    pub fn win_indexes(&self) -> (r: Option<(usize, usize)>)
        requires
            self.index + self.matches() <= usize::MAX,
        ensures
            r == (if self.matches() == 0 {
                None
            } else {
                Some(((self.index + 1) as usize, (self.index + self.matches()) as usize))
            }),
    {
        let found: usize = self.num_matches();
        if found == 0 {
            None
        } else {
            Some(((self.index as usize) + 1, self.index as usize + found))
        }
    }
}

/// The sum of the worths of the cards.
pub open spec fn score_sum(cards: Seq<Card>) -> int
    decreases cards.len(),
{
    if cards.len() == 0 {
        0
    } else {
        score_sum(cards.drop_last()) + spec_score(cards.last().matches())
    }
}

/// No card is worth less than nothing.
proof fn lemma_score_nonnegative(n: nat)
    ensures
        0 <= spec_score(n),
{
    if n > 0 {
        lemma_pow2_monotone(0, (n - 1) as nat);
    }
}

/// The sum over any cards is not negative.
proof fn lemma_score_sum_nonnegative(cards: Seq<Card>)
    ensures
        0 <= score_sum(cards),
    decreases cards.len(),
{
    if cards.len() > 0 {
        lemma_score_sum_nonnegative(cards.drop_last());
        lemma_score_nonnegative(cards.last().matches());
    }
}

/// The sum over the first `k` cards is not negative and not above the sum
/// over all of them.
pub proof fn lemma_score_sum_prefix(cards: Seq<Card>, k: int)
    requires
        0 <= k <= cards.len(),
    ensures
        0 <= score_sum(cards.take(k)) <= score_sum(cards),
    decreases cards.len() - k,
{
    if k == cards.len() {
        assert(cards.take(k) =~= cards);
        lemma_score_sum_nonnegative(cards);
    } else {
        lemma_score_sum_prefix(cards, k + 1);
        assert(cards.take(k + 1).drop_last() =~= cards.take(k));
        lemma_score_sum_nonnegative(cards.take(k));
        lemma_score_nonnegative(cards.take(k + 1).last().matches());
    }
}

/// How many cards one copy of the card at place `p` brings in all, itself
/// counted: each copy wins one copy of each of the next cards, as many as the
/// card has matches.
pub open spec fn won_by(cards: Seq<Card>, p: int) -> int
    decreases cards.len() - p, 0int,
{
    if p < 0 || p >= cards.len() {
        0
    } else {
        1 + won_by_range(cards, p + 1, p + cards[p].matches())
    }
}

/// The sum of `won_by` over the places from `lo` to `hi`.
pub open spec fn won_by_range(cards: Seq<Card>, lo: int, hi: int) -> int
    decreases cards.len() - lo, hi - lo + 1,
{
    if lo > hi || lo < 0 || lo >= cards.len() {
        0
    } else {
        won_by(cards, lo) + won_by_range(cards, lo + 1, hi)
    }
}

/// How many cards there are in the end, the cards given and all the copies
/// won.
pub open spec fn total_cards(cards: Seq<Card>) -> int {
    won_by_range(cards, 0, cards.len() - 1)
}

/// The cards are numbered from 1 on, in their order.
pub open spec fn numbered_in_order(cards: Seq<Card>) -> bool {
    forall|p: int| 0 <= p < cards.len() ==> (#[trigger] cards[p]).index == p + 1
}

/// No card wins a card beyond the last.
pub open spec fn wins_stay_inside(cards: Seq<Card>) -> bool {
    forall|p: int| 0 <= p < cards.len() ==> p + (#[trigger] cards[p]).matches() < cards.len()
}

/// Every card brings itself at least, and no range of cards brings less
/// than nothing.
proof fn lemma_won_nonnegative(cards: Seq<Card>, lo: int, hi: int)
    ensures
        0 <= won_by_range(cards, lo, hi),
        0 <= won_by(cards, lo),
        0 <= lo < cards.len() ==> 1 <= won_by(cards, lo),
    decreases cards.len() - lo, hi - lo + 2,
{
    if 0 <= lo < cards.len() {
        lemma_won_nonnegative(cards, lo + 1, lo + cards[lo].matches());
        assert(won_by(cards, lo) == 1 + won_by_range(cards, lo + 1, lo + cards[lo].matches()));
        if lo <= hi {
            lemma_won_nonnegative(cards, lo + 1, hi);
            assert(won_by_range(cards, lo, hi) == won_by(cards, lo) + won_by_range(
                cards,
                lo + 1,
                hi,
            ));
        }
    }
}

/// A range one place longer brings what the place adds.
proof fn lemma_won_range_extend(cards: Seq<Card>, lo: int, hi: int)
    requires
        0 <= lo <= hi + 1,
        hi + 1 < cards.len(),
    ensures
        won_by_range(cards, lo, hi + 1) == won_by_range(cards, lo, hi) + won_by(cards, hi + 1),
    decreases hi + 1 - lo,
{
    if lo <= hi {
        lemma_won_range_extend(cards, lo + 1, hi);
    } else {
        assert(won_by_range(cards, lo + 1, hi + 1) == 0);
    }
}

/// A longer range brings no less.
proof fn lemma_won_range_grows(cards: Seq<Card>, lo: int, hi: int, last: int)
    requires
        0 <= lo,
        hi <= last,
    ensures
        won_by_range(cards, lo, hi) <= won_by_range(cards, lo, last),
    decreases cards.len() - lo,
{
    if lo < cards.len() {
        lemma_won_nonnegative(cards, lo, last);
        if lo <= hi {
            lemma_won_range_grows(cards, lo + 1, hi, last);
        } else if lo <= last {
            lemma_won_nonnegative(cards, lo + 1, last);
        }
    }
}

/// The cards from a place on bring no more than all cards.
proof fn lemma_won_range_suffix(cards: Seq<Card>, lo: int)
    requires
        0 <= lo <= cards.len(),
    ensures
        won_by_range(cards, lo, cards.len() - 1) <= total_cards(cards),
    decreases lo,
{
    if lo > 0 {
        lemma_won_range_suffix(cards, lo - 1);
        lemma_won_nonnegative(cards, lo - 1, cards.len() - 1);
    }
}

/// The fourth day: scratch cards that win points and further cards.
pub struct Day04;

impl Day04 {
    /// The sum of the worths of all cards.
    pub fn part_1(input: &Vec<Card>) -> (r: usize)
        requires
            forall|i: int| 0 <= i < input@.len() ==> (#[trigger] input@[i]).matches() <= 32,
            score_sum(input@) <= usize::MAX,
        ensures
            r == score_sum(input@),
    {
        let n: usize = input.len();
        let mut sum: usize = 0;
        let mut i: usize = 0;
        proof {
            assert(input@.take(0) =~= Seq::<Card>::empty());
        }
        while i < n
            invariant
                n == input@.len(),
                i <= n,
                forall|j: int| 0 <= j < input@.len() ==> (#[trigger] input@[j]).matches() <= 32,
                score_sum(input@) <= usize::MAX,
                sum == score_sum(input@.take(i as int)),
            decreases n - i,
        {
            proof {
                lemma_score_sum_prefix(input@, i + 1);
                assert(input@.take(i + 1).drop_last() =~= input@.take(i as int));
                assert(input@.take(i + 1).last() == input@[i as int]);
            }
            sum = sum + input[i].score_p1() as usize;
            i += 1;
        }
        proof {
            assert(input@.take(n as int) =~= input@);
        }
        sum
    }

    /// How many cards there are in the end, when every card wins one copy of
    /// each of the next cards, as many as it has matches, and every copy
    /// wins again; `None` when they are more than a `usize` can count. The
    /// cards are numbered from 1 on, and none wins a card beyond the last.
    pub fn part_2(input: &Vec<Card>) -> (r: Option<usize>)
        requires
            numbered_in_order(input@),
            wins_stay_inside(input@),
        ensures
            match r {
                Some(total) => total == total_cards(input@),
                None => total_cards(input@) > usize::MAX,
            },
    {
        let n: usize = input.len();
        let mut copies: Vec<usize> = Vec::new();
        let mut k: usize = 0;
        while k < n
            invariant
                k <= n,
                copies@.len() == k,
            decreases n - k,
        {
            copies.push(0);
            k += 1;
        }
        let mut cards_won: usize = 0;
        let mut p: usize = n;
        while p > 0
            invariant
                n == input@.len(),
                p <= n,
                copies@.len() == n,
                numbered_in_order(input@),
                wins_stay_inside(input@),
                forall|q: int| p <= q < n ==> copies@[q] == won_by(input@, q),
                cards_won == won_by_range(input@, p as int, n - 1),
            decreases p,
        {
            p -= 1;
            let card: &Card = &input[p];
            proof {
                lemma_match_count_bound(card.winners@, card.contestants@);
                assert(p + card.matches() < n);
                lemma_won_range_suffix(input@, p as int);
                lemma_won_nonnegative(input@, p + 1, n - 1);
                lemma_won_range_grows(input@, p + 1, p + card.matches(), n - 1);
                assert(won_by(input@, p as int) == 1 + won_by_range(
                    input@,
                    p + 1,
                    p + card.matches(),
                ));
                assert(won_by_range(input@, p as int, n - 1) == won_by(input@, p as int)
                    + won_by_range(input@, p + 1, n - 1));
            }
            let mut brought: usize = 1;
            if let Some(wins) = card.win_indexes() {
                let first: usize = wins.0 - 1;
                let last: usize = wins.1 - 1;
                let mut place: usize = first;
                while place <= last
                    invariant
                        n == input@.len(),
                        copies@.len() == n,
                        first == p + 1,
                        first <= place <= last + 1,
                        last == p + input@[p as int].matches(),
                        last < n,
                        forall|q: int| p < q < n ==> copies@[q] == won_by(input@, q),
                        brought == 1 + won_by_range(input@, p + 1, place - 1),
                        1 + won_by_range(input@, p + 1, last as int) <= total_cards(input@),
                    decreases last + 1 - place,
                {
                    proof {
                        lemma_won_range_extend(input@, p + 1, place - 1);
                        lemma_won_range_grows(input@, p + 1, place as int, last as int);
                    }
                    if copies[place] > usize::MAX - brought {
                        return None;
                    }
                    brought = brought + copies[place];
                    place += 1;
                }
            }
            copies[p] = brought;
            if brought > usize::MAX - cards_won {
                return None;
            }
            cards_won = cards_won + brought;
        }
        Some(cards_won)
    }
}

/// One card at `i`: the word `Card`, its number, a colon, the winning
/// numbers, a bar, and the numbers held; and where it ends.
pub open spec fn spec_card(s: Seq<char>, i: int) -> Option<((u32, Seq<u32>, Seq<u32>), int)> {
    match spec_tag(s, i, "Card"@) {
        Some(a) => match spec_run1(s, a, CharClass::Space) {
            Some(b) => match spec_u32(s, b) {
                Some((index, c)) => match spec_tag(s, c, ":"@) {
                    Some(d) => match spec_run1(s, d, CharClass::Space) {
                        Some(e) => match list1(s, e, u32_item(), space_sep()) {
                            Some((winners, f)) => match spec_tag(s, f, " |"@) {
                                Some(g) => match spec_run1(s, g, CharClass::Space) {
                                    Some(h) => match list1(s, h, u32_item(), space_sep()) {
                                        Some((contestants, end)) => Some(
                                            ((index, winners, contestants), end),
                                        ),
                                        None => None,
                                    },
                                    None => None,
                                },
                                None => None,
                            },
                            None => None,
                        },
                        None => None,
                    },
                    None => None,
                },
                None => None,
            },
            None => None,
        },
        None => None,
    }
}

/// Reading one card.
pub open spec fn card_item() -> spec_fn(Seq<char>, int) -> Option<
    ((u32, Seq<u32>, Seq<u32>), int),
> {
    |s: Seq<char>, i: int| spec_card(s, i)
}

/// What the cards hold: of each its number, its winning numbers and its
/// held numbers.
pub open spec fn card_views(cards: Seq<Card>) -> Seq<(u32, Seq<u32>, Seq<u32>)> {
    cards.map_values(|c: Card| (c.index, c.winners@, c.contestants@))
}

impl Day04 {
    /// Reads one card at `i`.
    pub fn parse_single_card(s: &[char], i: usize) -> (r: Option<(Card, usize)>)
        ensures
            match r {
                Some((card, e)) => spec_card(s@, i as int) == Some(
                    ((card.index, card.winners@, card.contestants@), e as int),
                ) && i <= e <= s@.len(),
                None => spec_card(s@, i as int).is_none(),
            },
    {
        let a: usize = match parse_tag(s, i, "Card") {
            Some(a) => a,
            None => {
                return None;
            },
        };
        let b: usize = match parse_run1(s, a, CharClass::Space) {
            Some(b) => b,
            None => {
                return None;
            },
        };
        let (index, c) = match parse_u32(s, b) {
            Some(found) => found,
            None => {
                return None;
            },
        };
        let d: usize = match parse_tag(s, c, ":") {
            Some(d) => d,
            None => {
                return None;
            },
        };
        let e: usize = match parse_run1(s, d, CharClass::Space) {
            Some(e) => e,
            None => {
                return None;
            },
        };
        let (winners, f) = match parse_u32_list(s, e) {
            Some(found) => found,
            None => {
                return None;
            },
        };
        let g: usize = match parse_tag(s, f, " |") {
            Some(g) => g,
            None => {
                return None;
            },
        };
        let h: usize = match parse_run1(s, g, CharClass::Space) {
            Some(h) => h,
            None => {
                return None;
            },
        };
        match parse_u32_list(s, h) {
            Some((contestants, end)) => Some((Card { index, winners, contestants }, end)),
            None => None,
        }
    }

    /// Reads the cards from the start of `input`, one to a line. Hands back
    /// the cards and the number of characters read, or `None` when `input`
    /// does not begin with a card.
    pub fn parse(input: &str) -> (r: Option<(Vec<Card>, usize)>)
        ensures
            match r {
                Some((cards, e)) => list1(input@, 0, card_item(), line_sep()) == Some(
                    (card_views(cards@), e as int),
                ) && e <= input@.len(),
                None => list1(input@, 0, card_item(), line_sep()).is_none(),
            },
    {
        let text: Vec<char> = chars_of(input);
        let s: &[char] = text.as_slice();
        let (first, start) = match Self::parse_single_card(s, 0) {
            Some(found) => found,
            None => {
                return None;
            },
        };
        let mut cards: Vec<Card> = Vec::new();
        proof {
            assert(card_views(cards@.push(first)) =~= seq![
                (first.index, first.winners@, first.contestants@),
            ]);
        }
        cards.push(first);
        let mut at: usize = start;
        loop
            invariant
                s@ == input@,
                at <= s@.len(),
                list1(s@, 0, card_item(), line_sep()) == Some(
                    list_rest(s@, at as int, card_item(), line_sep(), card_views(cards@)),
                ),
            decreases s@.len() - at,
        {
            let next: usize = match parse_line_ending(s, at) {
                Some(next) => next,
                None => {
                    return Some((cards, at));
                },
            };
            match Self::parse_single_card(s, next) {
                Some((card, m)) => {
                    proof {
                        assert(card_views(cards@.push(card)) =~= card_views(cards@).push(
                            (card.index, card.winners@, card.contestants@),
                        ));
                    }
                    cards.push(card);
                    at = m;
                },
                None => {
                    return Some((cards, at));
                },
            }
        }
    }
}

} // verus!
