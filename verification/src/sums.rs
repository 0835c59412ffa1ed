//! Sums of sequences of numbers.

use vstd::prelude::*;

verus! {

/// The sum of the numbers in `values`.
pub open spec fn sum(values: Seq<nat>) -> nat
    decreases values.len(),
{
    if values.len() == 0 {
        0
    } else {
        sum(values.drop_last()) + values.last()
    }
}

/// Adding one number to the end of a sequence adds it to the sum.
pub proof fn lemma_sum_push(values: Seq<nat>, x: nat)
    ensures
        sum(values.push(x)) == sum(values) + x,
{
    assert(values.push(x).drop_last() =~= values);
}

/// The sum of two sequences, one behind the other, is the sum of the first
/// plus the sum of the second.
pub proof fn lemma_sum_concat(first: Seq<nat>, second: Seq<nat>)
    ensures
        sum(first + second) == sum(first) + sum(second),
    decreases second.len(),
{
    if second.len() == 0 {
        assert(first + second =~= first);
    } else {
        lemma_sum_concat(first, second.drop_last());
        assert((first + second).drop_last() =~= first + second.drop_last());
    }
}

/// The numbers in front of position `n` add up to no more than all of them.
pub proof fn lemma_sum_prefix(values: Seq<nat>, n: int)
    requires
        0 <= n <= values.len(),
    ensures
        sum(values.take(n)) <= sum(values),
{
    lemma_sum_concat(values.take(n), values.skip(n));
    assert(values.take(n) + values.skip(n) =~= values);
}

} // verus!
