//! Sums of counted values, and what changes to a value do to them.

use vstd::prelude::*;

verus! {

/// The sum of the first `n` entries of `values`.
pub open spec fn prefix_sum(values: Seq<u64>, n: int) -> nat
    decreases n,
{
    if n <= 0 {
        0
    } else {
        prefix_sum(values, n - 1) + values[n - 1] as nat
    }
}

/// The sum of all entries.
pub open spec fn sum(values: Seq<u64>) -> nat {
    prefix_sum(values, values.len() as int)
}

/// The sum of a longer part is no smaller.
pub proof fn lemma_prefix_sum_monotonic(rates: Seq<u64>, i: int, j: int)
    requires
        0 <= i <= j <= rates.len(),
    ensures
        prefix_sum(rates, i) <= prefix_sum(rates, j),
    decreases j - i,
{
    if i < j {
        lemma_prefix_sum_monotonic(rates, i, j - 1);
    }
}

/// `n` values of 64 bits each sum to less than `n * 2^64`.
pub proof fn lemma_prefix_sum_bound(rates: Seq<u64>, n: int)
    requires
        0 <= n <= rates.len(),
    ensures
        prefix_sum(rates, n) <= n * 0xFFFF_FFFF_FFFF_FFFF,
    decreases n,
{
    if n > 0 {
        lemma_prefix_sum_bound(rates, n - 1);
    }
}

/// The sum of a part does not depend on what follows the part.
pub proof fn lemma_prefix_sum_agrees(a: Seq<u64>, b: Seq<u64>, n: int)
    requires
        0 <= n <= a.len(),
        n <= b.len(),
        forall|i: int| 0 <= i < n ==> a[i] == b[i],
    ensures
        prefix_sum(a, n) == prefix_sum(b, n),
    decreases n,
{
    if n > 0 {
        lemma_prefix_sum_agrees(a, b, n - 1);
    }
}

/// A list of zeros sums to 0.
pub proof fn lemma_sum_of_zeros(values: Seq<u64>, n: int)
    requires
        0 <= n <= values.len(),
        forall|i: int| 0 <= i < values.len() ==> values[i] == 0,
    ensures
        prefix_sum(values, n) == 0,
    decreases n,
{
    if n > 0 {
        lemma_sum_of_zeros(values, n - 1);
    }
}

/// Adding one to an entry adds one to the sum.
pub proof fn lemma_sum_after_increment(values: Seq<u64>, index: int)
    requires
        0 <= index < values.len(),
        values[index] < u64::MAX,
    ensures
        sum(values.update(index, (values[index] + 1) as u64)) == sum(values) + 1,
{
    let after = values.update(index, (values[index] + 1) as u64);
    lemma_prefix_sum_agrees(values, after, index);
    lemma_sum_beyond_increment(values, after, index, values.len() as int);
}

proof fn lemma_sum_beyond_increment(before: Seq<u64>, after: Seq<u64>, index: int, n: int)
    requires
        0 <= index < n <= before.len(),
        before.len() == after.len(),
        prefix_sum(before, index) == prefix_sum(after, index),
        after[index] == before[index] + 1,
        forall|i: int| index < i < before.len() ==> before[i] == after[i],
    ensures
        prefix_sum(after, n) == prefix_sum(before, n) + 1,
    decreases n,
{
    if n > index + 1 {
        lemma_sum_beyond_increment(before, after, index, n - 1);
    }
}

/// Taking one from an entry takes one from the sum.
pub proof fn lemma_sum_after_decrement(values: Seq<u64>, index: int)
    requires
        0 <= index < values.len(),
        values[index] > 0,
    ensures
        sum(values.update(index, (values[index] - 1) as u64)) + 1 == sum(values),
{
    let after = values.update(index, (values[index] - 1) as u64);
    lemma_sum_after_increment(after, index);
    assert(after.update(index, (after[index] + 1) as u64) =~= values);
}

/// A positive sum has a positive entry.
pub proof fn lemma_sum_has_positive_entry(values: Seq<u64>) -> (index: int)
    requires
        sum(values) > 0,
    ensures
        0 <= index < values.len(),
        values[index] > 0,
{
    if forall|i: int| 0 <= i < values.len() ==> values[i] == 0 {
        lemma_sum_of_zeros(values, values.len() as int);
    }
    choose|i: int| 0 <= i < values.len() && values[i] != 0
}

/// No entry is larger than the sum.
pub proof fn lemma_sum_bounds_entry(values: Seq<u64>, index: int)
    requires
        0 <= index < values.len(),
    ensures
        values[index] <= sum(values),
{
    lemma_prefix_sum_monotonic(values, index + 1, values.len() as int);
}

} // verus!
