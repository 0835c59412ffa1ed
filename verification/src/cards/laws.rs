//! What holds of every card and of every list of cards.

use vstd::prelude::*;
use vstd::arithmetic::power2::{lemma2_to64, lemma_pow2_strictly_increases, lemma_pow2_unfold};
use vstd::seq_lib::seq_to_set_is_finite;
use vstd::set_lib::lemma_len_subset;
use crate::cards::model::{points_for, total_points, CardText};
use crate::cards::grammar::{card_line, cards_of, lemma_cards_of_first_line};
use crate::cards::{is_outcome, total_of, Error};
use crate::text::strip_cr;
use crate::sums::{lemma_sum_concat, lemma_sum_push, sum};

verus! {

/// Reading the same text again gives the same outcome: two results that
/// both are outcomes of one text are equal.
pub proof fn lemma_outcome_is_unique(
    text: Seq<char>,
    first: Result<u32, Error>,
    second: Result<u32, Error>,
)
    requires
        is_outcome(text, first),
        is_outcome(text, second),
    ensures
        first == second,
{
}

/// The first match is worth one point, and every further match doubles the
/// points.
pub proof fn lemma_points_double(matches: nat)
    ensures
        points_for(0) == 0,
        points_for(1) == 1,
        matches >= 1 ==> points_for(matches + 1) == 2 * points_for(matches),
{
    lemma2_to64();
    if matches >= 1 {
        lemma_pow2_unfold(matches);
    }
}

/// More matches are worth more points.
pub proof fn lemma_points_increase(fewer: nat, more: nat)
    requires
        fewer < more,
    ensures
        points_for(fewer) < points_for(more),
{
    lemma2_to64();
    if fewer == 0 {
        if more > 1 {
            lemma_pow2_strictly_increases(0, (more - 1) as nat);
        }
    } else {
        lemma_pow2_strictly_increases((fewer - 1) as nat, (more - 1) as nat);
    }
}

/// A card whose owned numbers share nothing with its winning numbers has no
/// match and no points.
pub proof fn lemma_no_shared_number_no_points(card: CardText)
    requires
        forall|i: int| 0 <= i < card.owned.len() ==> !card.winning.contains(#[trigger] card.owned[i]),
    ensures
        card.matches() == 0,
        card.points() == 0,
{
    let wins = |number: Seq<char>| card.winning.contains(number);
    assert(card.owned.all(|number: Seq<char>| !wins(number)));
    card.owned.lemma_all_neg_filter_empty(wins);
}

/// The points of two lists of cards, one behind the other, are the points of
/// the first plus the points of the second.
pub proof fn lemma_total_points_concat(first: Seq<CardText>, second: Seq<CardText>)
    ensures
        total_points(first + second) == total_points(first) + total_points(second),
{
    let worth = |card: CardText| card.points();
    assert((first + second).map_values(worth) =~= first.map_values(worth) + second.map_values(
        worth,
    ));
    lemma_sum_concat(first.map_values(worth), second.map_values(worth));
}

/// A card whose owned numbers share nothing with its winning numbers adds
/// nothing to the total, wherever in the list it stands.
pub proof fn lemma_no_shared_number_adds_nothing(
    before: Seq<CardText>,
    card: CardText,
    behind: Seq<CardText>,
)
    requires
        forall|i: int| 0 <= i < card.owned.len() ==> !card.winning.contains(#[trigger] card.owned[i]),
    ensures
        total_points(before + seq![card] + behind) == total_points(before + behind),
{
    let worth = |card: CardText| card.points();
    lemma_no_shared_number_no_points(card);
    lemma_total_points_concat(before + seq![card], behind);
    lemma_total_points_concat(before, seq![card]);
    lemma_total_points_concat(before, behind);
    assert(seq![card].map_values(worth) =~= seq![card.points()]);
    assert(seq![card.points()].drop_last() =~= Seq::<nat>::empty());
    assert(sum(seq![card.points()]) == sum(Seq::<nat>::empty()) + card.points());
}

/// A card has no more matches than owned numbers, and no more different
/// numbers among its matches than winning numbers.
pub proof fn lemma_matches_bound(card: CardText)
    ensures
        card.matches() <= card.owned.len(),
        card.owned.filter(|number: Seq<char>| card.winning.contains(number)).to_set().len()
            <= card.winning.len(),
{
    let wins = |number: Seq<char>| card.winning.contains(number);
    let matched = card.owned.filter(wins);
    card.owned.lemma_filter_len(wins);
    assert forall|number: Seq<char>| matched.to_set().contains(number) implies card.winning.to_set().contains(
        number,
    ) by {
        let i = choose|i: int| 0 <= i < matched.len() && matched[i] == number;
        card.owned.lemma_filter_pred(wins, i);
    }
    seq_to_set_is_finite(card.winning);
    lemma_len_subset(matched.to_set(), card.winning.to_set());
    card.winning.lemma_cardinality_of_set();
}

/// Where no matching number is owned twice, a card has no more matches than
/// the shorter of its two rows has numbers.
pub proof fn lemma_matches_bound_by_shorter_row(card: CardText)
    requires
        card.owned.filter(|number: Seq<char>| card.winning.contains(number)).no_duplicates(),
    ensures
        card.matches() <= card.owned.len(),
        card.matches() <= card.winning.len(),
{
    let wins = |number: Seq<char>| card.winning.contains(number);
    lemma_matches_bound(card);
    card.owned.filter(wins).unique_seq_to_set();
}

/// A text that begins with a line and its line feed is worth the points of
/// the card of that line plus what the rest is worth.
pub proof fn lemma_total_of_first_line(line: Seq<char>, rest: Seq<char>)
    requires
        !line.contains('\n'),
    ensures
        total_of(line + seq!['\n'] + rest) == card_line(strip_cr(line)).unwrap().points()
            + total_of(rest),
{
    let card = card_line(strip_cr(line)).unwrap();
    lemma_cards_of_first_line(line, rest);
    lemma_total_points_concat(seq![card], cards_of(rest));
    assert(seq![card].map_values(|card: CardText| card.points()) =~= Seq::<nat>::empty().push(
        card.points(),
    ));
    lemma_sum_push(Seq::empty(), card.points());
}

} // verus!
