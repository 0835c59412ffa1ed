//! What a line and a text are worth, as a mathematical model.

use vstd::prelude::*;
use crate::sums::sum;
use crate::text::{is_digit, lines};

verus! {

/// The number that the digit `c` stands for.
pub open spec fn digit_value(c: char) -> nat {
    (c as nat - '0' as nat) as nat
}

/// The decimal digits of `line`, in order, all other characters left out.
pub open spec fn digits_of(line: Seq<char>) -> Seq<char> {
    line.filter(|c: char| is_digit(c))
}

/// Whether `line` holds a decimal digit.
pub open spec fn has_digit(line: Seq<char>) -> bool {
    digits_of(line).len() > 0
}

/// The digit pair of `line`: the two-digit number whose tens are the first
/// digit of the line and whose units are the last. A line with one digit
/// has it in both places. It says what the line is worth where the line
/// holds a digit.
pub open spec fn pair_value(line: Seq<char>) -> nat {
    10 * digit_value(digits_of(line).first()) + digit_value(digits_of(line).last())
}

/// Whether every one of `rows` holds a decimal digit.
pub open spec fn all_have_digit(rows: Seq<Seq<char>>) -> bool {
    forall|k: int| 0 <= k < rows.len() ==> has_digit(#[trigger] rows[k])
}

/// The digit pairs of `rows`, added up.
pub open spec fn sum_of_pairs(rows: Seq<Seq<char>>) -> nat {
    sum(rows.map_values(|line: Seq<char>| pair_value(line)))
}

/// Whether every line of `text` holds a decimal digit.
pub open spec fn complete(text: Seq<char>) -> bool {
    all_have_digit(lines(text))
}

/// The digit pairs of the lines of `text`, added up. It says what the text
/// is worth where the text is complete.
pub open spec fn total_of(text: Seq<char>) -> nat {
    sum_of_pairs(lines(text))
}

} // verus!
