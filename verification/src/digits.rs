//! The digit extractor: the first and the last digit of every line, read as
//! a two-digit number, and those numbers added up.

use vstd::prelude::*;
use vstd::pervasive::unreached;
use crate::digits::laws::lemma_digits_of_strip_cr;
use crate::digits::model::{
    all_have_digit, complete, digit_value, digits_of, has_digit, pair_value, sum_of_pairs,
    total_of,
};
use crate::sums::lemma_sum_push;
use crate::text::{is_digit, lemma_line_len, lines, strip_cr};

pub mod laws;
pub mod model;

verus! {

/// Why a text has no total.
#[derive(Debug, Clone, Copy, PartialEq, Eq, Structural)]
pub enum Error {
    /// One of the lines holds no decimal digit.
    MissingDigit,
    /// The total is larger than a `u32` can hold.
    Overflow,
}

/// Whether `outcome` is what adding up the digit pairs of `text` comes to:
/// the total where every line holds a digit and the total fits a `u32`, and
/// the reason why not otherwise. No text has two outcomes.
pub open spec fn is_outcome(text: Seq<char>, outcome: Result<u32, Error>) -> bool {
    match outcome {
        Ok(total) => complete(text) && total == total_of(text),
        Err(Error::MissingDigit) => !complete(text),
        Err(Error::Overflow) => complete(text) && total_of(text) > u32::MAX,
    }
}

/// The number that `c` stands for if it is a decimal digit.
pub fn to_digit(c: char) -> (digit: Option<u32>)
    ensures
        digit is Some <==> is_digit(c),
        digit matches Some(value) ==> value == digit_value(c) && value <= 9,
{
    if c >= '0' && c <= '9' {
        Some(c as u32 - '0' as u32)
    } else {
        None
    }
}

/// The digits met so far on a line: the first of them and the latest.
#[derive(Clone, Copy)]
struct Scan {
    first: Option<u32>,
    last: u32,
}

impl Scan {
    /// Whether this is the state after reading exactly `line`.
    spec fn describes(self, line: Seq<char>) -> bool {
        let digits = digits_of(line);
        match self.first {
            None => digits.len() == 0,
            Some(first) => {
                &&& digits.len() > 0
                &&& first == digit_value(digits.first())
                &&& self.last == digit_value(digits.last())
                &&& first <= 9
                &&& self.last <= 9
            },
        }
    }

    /// The state at the start of a line.
    fn new() -> (scan: Scan)
        ensures
            scan.describes(Seq::empty()),
    {
        proof {
            Seq::<char>::empty().lemma_filter_len(|c: char| is_digit(c));
        }
        Scan { first: None, last: 0 }
    }

    /// The state after one more character, `c`.
    fn feed(self, c: char, Ghost(line): Ghost<Seq<char>>) -> (scan: Scan)
        requires
            self.describes(line),
        ensures
            scan.describes(line.push(c)),
    {
        proof {
            line.lemma_filter_push(c, |c: char| is_digit(c));
        }
        match to_digit(c) {
            Some(digit) => Scan {
                first: match self.first {
                    Some(first) => Some(first),
                    None => Some(digit),
                },
                last: digit,
            },
            None => self,
        }
    }

    /// The digit pair of the line read, if the line held a digit.
    fn pair(self, Ghost(line): Ghost<Seq<char>>) -> (pair: Option<u32>)
        requires
            self.describes(line),
        ensures
            pair is Some <==> has_digit(line),
            pair matches Some(value) ==> value == pair_value(line),
    {
        match self.first {
            Some(first) => Some(10 * first + self.last),
            None => None,
        }
    }
}

/// The lines read so far: the sum of their digit pairs, and whether one of
/// them had no digit.
#[derive(Clone, Copy)]
struct Tally {
    sum: u32,
    overflowed: bool,
    missing: bool,
}

impl Tally {
    /// Whether this is the state after reading exactly the lines `rows`.
    spec fn describes(self, rows: Seq<Seq<char>>) -> bool {
        &&& self.missing <==> !all_have_digit(rows)
        &&& !self.missing ==> if self.overflowed {
            sum_of_pairs(rows) > u32::MAX
        } else {
            self.sum == sum_of_pairs(rows)
        }
    }

    /// The state before the first line.
    fn new() -> (tally: Tally)
        ensures
            tally.describes(Seq::empty()),
    {
        assert(Seq::<Seq<char>>::empty().map_values(|line: Seq<char>| pair_value(line))
            =~= Seq::<nat>::empty());
        Tally { sum: 0, overflowed: false, missing: false }
    }

    /// The state after one more line, `line`, whose digit pair is `pair`.
    fn add(
        self,
        pair: Option<u32>,
        Ghost(rows): Ghost<Seq<Seq<char>>>,
        Ghost(line): Ghost<Seq<char>>,
    ) -> (tally: Tally)
        requires
            self.describes(rows),
            pair is Some <==> has_digit(line),
            pair matches Some(value) ==> value == pair_value(line),
        ensures
            tally.describes(rows.push(line)),
    {
        proof {
            let worth = |line: Seq<char>| pair_value(line);
            assert(rows.push(line).map_values(worth) =~= rows.map_values(worth).push(
                pair_value(line),
            ));
            lemma_sum_push(rows.map_values(worth), pair_value(line));
            if all_have_digit(rows) && has_digit(line) {
                assert forall|k: int| 0 <= k < rows.push(line).len() implies has_digit(
                    #[trigger] rows.push(line)[k],
                ) by {
                    if k < rows.len() {
                        assert(rows.push(line)[k] == rows[k]);
                    }
                }
            }
            if all_have_digit(rows.push(line)) {
                assert(rows.push(line)[rows.len() as int] == line);
                assert forall|k: int| 0 <= k < rows.len() implies has_digit(
                    #[trigger] rows[k],
                ) by {
                    assert(rows.push(line)[k] == rows[k]);
                }
            }
        }
        match pair {
            None => Tally { sum: self.sum, overflowed: self.overflowed, missing: true },
            Some(value) => {
                if self.overflowed {
                    self
                } else {
                    match self.sum.checked_add(value) {
                        Some(sum) => Tally { sum, overflowed: false, missing: self.missing },
                        None => Tally { sum: self.sum, overflowed: true, missing: self.missing },
                    }
                }
            },
        }
    }

    /// The total of the lines read, or why there is none.
    fn outcome(self, Ghost(rows): Ghost<Seq<Seq<char>>>) -> (outcome: Result<u32, Error>)
        requires
            self.describes(rows),
        ensures
            match outcome {
                Ok(total) => all_have_digit(rows) && total == sum_of_pairs(rows),
                Err(Error::MissingDigit) => !all_have_digit(rows),
                Err(Error::Overflow) => all_have_digit(rows) && sum_of_pairs(rows) > u32::MAX,
            },
    {
        if self.missing {
            Err(Error::MissingDigit)
        } else if self.overflowed {
            Err(Error::Overflow)
        } else {
            Ok(self.sum)
        }
    }
}

/// The digit pair of `line`, taken as one line whatever it holds: ten times
/// its first decimal digit plus its last, or `None` if it holds no digit.
pub fn digit_pair(line: &str) -> (pair: Option<u32>)
    ensures
        pair is Some <==> has_digit(line@),
        pair matches Some(value) ==> value == pair_value(line@),
{
    let mut scan = Scan::new();
    assert(line@.take(0) =~= Seq::<char>::empty());
    for c in it: line.chars()
        invariant
            it.seq() == line@,
            scan.describes(line@.take(it.index() as int)),
    {
        assert(line@.take(it.index() + 1) =~= line@.take(it.index() as int).push(c));
        scan = scan.feed(c, Ghost(line@.take(it.index() as int)));
    }
    assert(line@.take(line@.len() as int) =~= line@);
    scan.pair(Ghost(line@))
}

/// Adds up the digit pairs of the lines of `input`.
///
/// Fails with `Error::MissingDigit` if one of the lines holds no decimal
/// digit, and with `Error::Overflow` if every line holds one and the total is
/// more than a `u32` can hold.
pub fn checked_run(input: &str) -> (outcome: Result<u32, Error>)
    ensures
        is_outcome(input@, outcome),
{
    let mut tally = Tally::new();
    let mut scan = Scan::new();
    let mut pending = false;
    let ghost mut done: Seq<Seq<char>> = Seq::empty();
    let ghost mut start: int = 0;
    assert(input@.skip(0) =~= input@);
    assert(input@.subrange(0, 0) =~= Seq::<char>::empty());
    for c in it: input.chars()
        invariant
            it.seq() == input@,
            0 <= start <= it.index(),
            pending == (start < it.index()),
            forall|j: int| start <= j < it.index() ==> input@[j] != '\n',
            lines(input@) == done + lines(input@.skip(start)),
            tally.describes(done),
            scan.describes(input@.subrange(start, it.index() as int)),
    {
        let ghost i = it.index() as int;
        let ghost seen = input@.subrange(start, i);
        if c == '\n' {
            let ghost rest = input@.skip(start);
            let ghost line = strip_cr(seen);
            proof {
                lemma_line_len(rest, i - start);
                assert(rest.take(i - start) =~= seen);
                assert(rest.skip(i - start + 1) =~= input@.skip(i + 1));
                assert(lines(input@) =~= done.push(line) + lines(input@.skip(i + 1)));
                lemma_digits_of_strip_cr(seen);
                assert(input@.subrange(i + 1, i + 1) =~= Seq::<char>::empty());
            }
            tally = tally.add(scan.pair(Ghost(seen)), Ghost(done), Ghost(line));
            scan = Scan::new();
            pending = false;
            proof {
                done = done.push(line);
                start = i + 1;
            }
        } else {
            assert(input@.subrange(start, i + 1) =~= seen.push(c));
            scan = scan.feed(c, Ghost(seen));
            pending = true;
        }
    }
    let ghost rest = input@.skip(start);
    if pending {
        proof {
            lemma_line_len(rest, rest.len() as int);
            assert(rest =~= input@.subrange(start, input@.len() as int));
            assert(lines(input@) =~= done.push(rest));
        }
        tally = tally.add(scan.pair(Ghost(rest)), Ghost(done), Ghost(rest));
        proof {
            done = done.push(rest);
        }
    } else {
        assert(lines(input@) =~= done);
    }
    tally.outcome(Ghost(done))
}

/// Adds up the digit pairs of the lines of `input`.
///
/// Every line of the input has to hold a decimal digit, and the total has to
/// fit a `u32`; [`checked_run`] tells whether that is so.
pub fn run(input: &str) -> (total: u32)
    requires
        complete(input@),
        total_of(input@) <= u32::MAX,
    ensures
        total == total_of(input@),
{
    match checked_run(input) {
        Ok(total) => total,
        Err(_) => unreached(),
    }
}

} // verus!
