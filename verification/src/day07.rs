use vstd::prelude::*;

verus! {

/// The seventh day: hands of playing cards.
pub struct Day07;

/// A playing card.
#[derive(Clone, Copy, Debug, PartialEq, Eq)]
pub enum Card {
    King,
    Queen,
    Jack,
    Ace,
    Number(u8),
}

} // verus!
