//! The card scorer: points of scratch cards, added up.

use vstd::prelude::*;
use vstd::pervasive::unreached;
use crate::cards::card::{views, Card};
use crate::cards::grammar::{cards_of, well_formed};
use crate::cards::model::{total_points, CardText};
use crate::cards::parse::parser;
use crate::sums::{lemma_sum_prefix, lemma_sum_push};

pub mod card;
pub mod grammar;
pub mod laws;
pub mod model;
pub mod parse;

verus! {

/// Why a list of cards has no total.
#[derive(Debug, Clone, Copy, PartialEq, Eq, Structural)]
pub enum Error {
    /// The text is empty, or one of its lines is not a card line.
    Parse,
    /// The total is larger than a `u32` can hold.
    Overflow,
}

/// The points of all the cards that `text` lists. It says what the text is
/// worth where the text is well formed.
pub open spec fn total_of(text: Seq<char>) -> nat {
    total_points(cards_of(text))
}

/// Whether `outcome` is what adding up the cards of `text` comes to: the
/// total where `text` is a well-formed list of cards and the total fits a
/// `u32`, and the reason why not otherwise. No text has two outcomes.
pub open spec fn is_outcome(text: Seq<char>, outcome: Result<u32, Error>) -> bool {
    match outcome {
        Ok(total) => well_formed(text) && total == total_of(text),
        Err(Error::Parse) => !well_formed(text),
        Err(Error::Overflow) => well_formed(text) && total_of(text) > u32::MAX,
    }
}

/// Adds up the points of `cards`, or returns `None` if the sum is more than
/// a `u32` can hold.
pub fn sum_scores(cards: &[Card]) -> (total: Option<u32>)
    ensures
        total is Some <==> total_points(views(cards@)) <= u32::MAX,
        total matches Some(value) ==> value == total_points(views(cards@)),
{
    let n = cards.len();
    let ghost all = views(cards@);
    let ghost worth = |card: CardText| card.points();
    let mut sum: u32 = 0;
    let mut i: usize = 0;
    assert(all.take(0).map_values(worth) =~= Seq::<nat>::empty());
    while i < n
        invariant
            n == cards@.len(),
            i <= n,
            all == views(cards@),
            worth == (|card: CardText| card.points()),
            sum == total_points(all.take(i as int)),
        decreases n - i,
    {
        proof {
            assert(all.take(i + 1).map_values(worth) =~= all.take(i as int).map_values(
                worth,
            ).push(all[i as int].points()));
            lemma_sum_push(all.take(i as int).map_values(worth), all[i as int].points());
            lemma_sum_prefix(all.map_values(worth), i + 1);
            assert(all.map_values(worth).take(i + 1) =~= all.take(i + 1).map_values(worth));
        }
        let points = match cards[i].checked_score() {
            Some(points) => points,
            None => {
                return None;
            },
        };
        sum = match sum.checked_add(points) {
            Some(sum) => sum,
            None => {
                return None;
            },
        };
        i = i + 1;
    }
    assert(all.take(n as int) =~= all);
    Some(sum)
}

/// Adds up the points of the cards that `input` lists, one card to a line.
///
/// Fails with `Error::Parse` if `input` is not a well-formed list of cards,
/// and with `Error::Overflow` if it is one whose total is more than a `u32`
/// can hold.
pub fn checked_run(input: &str) -> (outcome: Result<u32, Error>)
    ensures
        is_outcome(input@, outcome),
{
    let cards = match parser(input) {
        Ok(cards) => cards,
        Err(_) => {
            return Err(Error::Parse);
        },
    };
    match sum_scores(cards.as_slice()) {
        Some(total) => Ok(total),
        None => Err(Error::Overflow),
    }
}

/// Adds up the points of the cards that `input` lists, one card to a line.
///
/// The input has to be a well-formed list of cards whose total fits a `u32`;
/// [`checked_run`] tells whether it is.
pub fn run(input: &str) -> (total: u32)
    requires
        well_formed(input@),
        total_of(input@) <= u32::MAX,
    ensures
        total == total_of(input@),
{
    match checked_run(input) {
        Ok(total) => total,
        Err(_) => unreached(),
    }
}

} // verus!
