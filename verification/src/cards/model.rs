//! What a card says and what it is worth, as a mathematical model.

use vstd::prelude::*;
use vstd::arithmetic::power2::pow2;
use crate::sums::sum;
use crate::text::is_digit;

verus! {

/// What a card says: its two rows of numbers, each number as it is written.
pub struct CardText {
    /// The numbers in front of the bar, in the order written.
    pub owned: Seq<Seq<char>>,
    /// The numbers behind the bar, in the order written.
    pub winning: Seq<Seq<char>>,
}

/// A number token: one or more decimal digits.
pub open spec fn is_number(word: Seq<char>) -> bool {
    word.len() > 0 && forall|i: int| 0 <= i < word.len() ==> is_digit(#[trigger] word[i])
}

/// One row of numbers: at least one word, and every word a number.
pub open spec fn is_side(row: Seq<Seq<char>>) -> bool {
    row.len() > 0 && forall|i: int| 0 <= i < row.len() ==> is_number(#[trigger] row[i])
}

impl CardText {
    /// Whether both rows hold at least one number and nothing but numbers,
    /// as the rows of every card do that was read from a card line.
    pub open spec fn holds_numbers(self) -> bool {
        is_side(self.owned) && is_side(self.winning)
    }

    /// The number of matches: how many of the owned numbers also stand among
    /// the winning numbers, as the same text. An owned number that is written
    /// twice counts twice, and two numbers of the same value that are written
    /// differently, as `6` and `06` are, do not match.
    pub open spec fn matches(self) -> nat {
        self.owned.filter(|number: Seq<char>| self.winning.contains(number)).len()
    }

    /// The points of the card.
    pub open spec fn points(self) -> nat {
        points_for(self.matches())
    }
}

/// The points that `matches` matches are worth: nothing for none, one point
/// for the first match, and twice as much with every further match.
pub open spec fn points_for(matches: nat) -> nat {
    if matches == 0 {
        0
    } else {
        pow2((matches - 1) as nat)
    }
}

/// The points of all `cards` together.
pub open spec fn total_points(cards: Seq<CardText>) -> nat {
    sum(cards.map_values(|card: CardText| card.points()))
}

} // verus!
