//! What holds of every line and of every text.

use vstd::prelude::*;
use crate::digits::model::{complete, digit_value, digits_of, has_digit, pair_value, total_of};
use crate::digits::{is_outcome, Error};
use crate::sums::{lemma_sum_concat, lemma_sum_push};
use crate::text::{is_digit, lemma_lines_prepend, lemma_lines_single, lines, strip_cr};

verus! {

/// A carriage return at the end of a line is no digit: the line has the same
/// digits with it and without it.
pub proof fn lemma_digits_of_strip_cr(line: Seq<char>)
    ensures
        digits_of(strip_cr(line)) == digits_of(line),
{
    if line.len() > 0 && line.last() == '\r' {
        assert(line.drop_last().push('\r') =~= line);
        line.drop_last().lemma_filter_push('\r', |c: char| is_digit(c));
    }
}

/// Reading the same text again gives the same outcome: two results that
/// both are outcomes of one text are equal.
pub proof fn lemma_outcome_is_unique(
    text: Seq<char>,
    first: Result<u32, Error>,
    second: Result<u32, Error>,
)
    requires
        is_outcome(text, first),
        is_outcome(text, second),
    ensures
        first == second,
{
}

/// A line with exactly one decimal digit has that digit as its tens and as
/// its units: its digit pair is eleven times the digit.
pub proof fn lemma_single_digit_pair(line: Seq<char>)
    requires
        digits_of(line).len() == 1,
    ensures
        has_digit(line),
        digits_of(line).first() == digits_of(line).last(),
        pair_value(line) == 11 * digit_value(digits_of(line)[0]),
{
}

/// The digit pair of a line that holds a digit is a number from 0 to 99.
pub proof fn lemma_pair_value_bound(line: Seq<char>)
    requires
        has_digit(line),
    ensures
        pair_value(line) <= 99,
{
    let digits = digits_of(line);
    line.lemma_filter_pred(|c: char| is_digit(c), 0);
    line.lemma_filter_pred(|c: char| is_digit(c), digits.len() - 1);
}

/// A text that begins with a line and its line feed is worth the digit pair
/// of that line plus what the rest is worth, and is complete if the line
/// holds a digit and the rest is complete.
pub proof fn lemma_total_of_first_line(line: Seq<char>, rest: Seq<char>)
    requires
        !line.contains('\n'),
    ensures
        total_of(line + seq!['\n'] + rest) == pair_value(line) + total_of(rest),
        complete(line + seq!['\n'] + rest) <==> has_digit(line) && complete(rest),
{
    let text = line + seq!['\n'] + rest;
    let first = strip_cr(line);
    let worth = |line: Seq<char>| pair_value(line);
    lemma_lines_prepend(line, rest);
    lemma_digits_of_strip_cr(line);
    assert(lines(text).map_values(worth) =~= seq![pair_value(first)] + lines(rest).map_values(
        worth,
    ));
    lemma_sum_concat(seq![pair_value(first)], lines(rest).map_values(worth));
    lemma_sum_push(Seq::empty(), pair_value(first));
    assert(Seq::<nat>::empty().push(pair_value(first)) =~= seq![pair_value(first)]);
    if complete(text) {
        assert(lines(text)[0] == first);
        assert forall|k: int| 0 <= k < lines(rest).len() implies has_digit(
            #[trigger] lines(rest)[k],
        ) by {
            assert(lines(text)[k + 1] == lines(rest)[k]);
        }
    }
    if has_digit(line) && complete(rest) {
        assert forall|k: int| 0 <= k < lines(text).len() implies has_digit(
            #[trigger] lines(text)[k],
        ) by {
            if k > 0 {
                assert(lines(text)[k] == lines(rest)[k - 1]);
            }
        }
    }
}

/// A text of one line without a line feed is worth the digit pair of that
/// line, and is complete if the line holds a digit.
pub proof fn lemma_total_of_last_line(line: Seq<char>)
    requires
        line.len() > 0,
        !line.contains('\n'),
    ensures
        total_of(line) == pair_value(line),
        complete(line) <==> has_digit(line),
{
    lemma_lines_single(line);
    assert(lines(line).map_values(|line: Seq<char>| pair_value(line)) =~= seq![
        pair_value(line),
    ]);
    lemma_sum_push(Seq::empty(), pair_value(line));
    assert(Seq::<nat>::empty().push(pair_value(line)) =~= seq![pair_value(line)]);
    assert(lines(line)[0] == line);
}

/// The empty text has no line: it is complete and worth nothing.
pub proof fn lemma_total_of_empty_text()
    ensures
        total_of(Seq::empty()) == 0,
        complete(Seq::empty()),
{
    assert(lines(Seq::empty()).map_values(|line: Seq<char>| pair_value(line))
        =~= Seq::<nat>::empty());
}

} // verus!
