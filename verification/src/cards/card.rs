//! A scratch card and its points.

use vstd::prelude::*;
use vstd::arithmetic::power2::{lemma2_to64, lemma_pow2_strictly_increases, lemma_pow2_unfold, pow2};
use crate::cards::model::CardText;
use crate::text::same_text;

verus! {

/// The texts of a row of tokens.
pub open spec fn texts(row: Seq<&str>) -> Seq<Seq<char>> {
    row.map_values(|token: &str| token@)
}

/// One scratch card: the numbers its owner has and the numbers that win,
/// each kept as the text that was written.
#[derive(Debug)]
pub struct Card<'a> {
    /// The owned numbers, in the order written.
    pub owned_numbers: Vec<&'a str>,
    /// The winning numbers, in the order written.
    pub winning_numbers: Vec<&'a str>,
}

impl<'a> View for Card<'a> {
    type V = CardText;

    open spec fn view(&self) -> CardText {
        CardText { owned: texts(self.owned_numbers@), winning: texts(self.winning_numbers@) }
    }
}

/// What each card of a list says.
pub open spec fn views(cards: Seq<Card>) -> Seq<CardText> {
    cards.map_values(|card: Card| card@)
}

/// Whether `number` stands in `row`, as the same text.
pub fn holds(row: &[&str], number: &str) -> (found: bool)
    ensures
        found == texts(row@).contains(number@),
{
    let n = row.len();
    let mut i: usize = 0;
    while i < n
        invariant
            n == row@.len(),
            i <= n,
            forall|j: int| 0 <= j < i ==> texts(row@)[j] != number@,
        decreases n - i,
    {
        if same_text(row[i], number) {
            assert(texts(row@)[i as int] == number@);
            return true;
        }
        i = i + 1;
    }
    false
}

/// Two to the power of `exponent`.
fn power_of_two(exponent: usize) -> (power: u32)
    requires
        exponent < 32,
    ensures
        power == pow2(exponent as nat),
{
    let mut power: u32 = 1;
    let mut i: usize = 0;
    proof {
        lemma2_to64();
    }
    while i < exponent
        invariant
            i <= exponent < 32,
            power == pow2(i as nat),
            pow2(32) == 0x1_0000_0000,
        decreases exponent - i,
    {
        proof {
            lemma_pow2_unfold((i + 1) as nat);
            lemma_pow2_strictly_increases((i + 1) as nat, 32);
        }
        power = power * 2;
        i = i + 1;
    }
    power
}

impl<'a> Card<'a> {
    /// Counts the matches of the card: the owned numbers that also stand
    /// among the winning numbers.
    pub fn matches(&self) -> (count: usize)
        ensures
            count == self@.matches(),
            count <= self.owned_numbers@.len(),
    {
        let n = self.owned_numbers.len();
        let ghost wins = |number: Seq<char>| self@.winning.contains(number);
        let mut count: usize = 0;
        let mut i: usize = 0;
        assert(self@.owned.take(0) =~= Seq::<Seq<char>>::empty());
        assert(Seq::<Seq<char>>::empty().filter(wins).len() == 0) by {
            Seq::<Seq<char>>::empty().lemma_filter_len(wins);
        }
        while i < n
            invariant
                n == self.owned_numbers@.len(),
                i <= n,
                count <= i,
                wins == (|number: Seq<char>| self@.winning.contains(number)),
                count == self@.owned.take(i as int).filter(wins).len(),
            decreases n - i,
        {
            let number = self.owned_numbers[i];
            proof {
                let seen = self@.owned.take(i as int);
                assert(self@.owned.take(i + 1) =~= seen.push(number@));
                seen.lemma_filter_len_push(wins, number@);
            }
            if holds(self.winning_numbers.as_slice(), number) {
                count = count + 1;
            }
            i = i + 1;
        }
        assert(self@.owned.take(n as int) =~= self@.owned);
        count
    }

    /// The points of the card: nothing without a match, one point for the
    /// first match, and twice as much with every further match.
    ///
    /// With more than 32 matches the points do not fit the result; see
    /// [`Card::checked_score`].
    pub fn score(&self) -> (points: u32)
        requires
            self@.matches() <= 32,
        ensures
            points == self@.points(),
            self@.matches() == 0 ==> points == 0,
            self@.matches() > 0 ==> points == pow2((self@.matches() - 1) as nat),
    {
        let matches = self.matches();
        if matches == 0 {
            0
        } else {
            power_of_two(matches - 1)
        }
    }

    /// The points of the card, or `None` if they are more than a `u32` can
    /// hold, which is so with more than 32 matches.
    pub fn checked_score(&self) -> (points: Option<u32>)
        ensures
            points is Some <==> self@.points() <= u32::MAX,
            points is Some <==> self@.matches() <= 32,
            points matches Some(value) ==> value == self@.points(),
    {
        let matches = self.matches();
        proof {
            lemma2_to64();
            if matches > 33 {
                lemma_pow2_strictly_increases(32, (matches - 1) as nat);
            } else if 0 < matches < 32 {
                lemma_pow2_strictly_increases((matches - 1) as nat, 31);
            }
        }
        if matches > 32 {
            None
        } else {
            Some(self.score())
        }
    }
}

} // verus!
