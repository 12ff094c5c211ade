//! Probability-weighted selection over a frozen list of rates.
//!
//! Rates are non-negative integer propensities. A uniform variate is a point
//! of the lattice `{ k / 2^53 : 0 <= k < 2^53 }`, carried by its numerator
//! `k`, so every comparison the sampling makes is exact.

use vstd::prelude::*;
use vstd::arithmetic::div_mod::lemma_hoist_over_denominator;
use crate::random::LATTICE;
use crate::sums::{lemma_prefix_sum_monotonic, prefix_sum, sum};

verus! {

/// The combined rate of all entries.
pub open spec fn total_rate(rates: Seq<u64>) -> nat {
    sum(rates)
}

/// Whether entry `i` is the one that fires for `target`: the first entry at
/// which the running sum of rates exceeds `target`, or the last entry when no
/// running sum does.
pub open spec fn selects(rates: Seq<u64>, target: nat, i: int) -> bool {
    &&& 0 <= i < rates.len()
    &&& prefix_sum(rates, i) <= target
    &&& (target < prefix_sum(rates, i + 1) || i == rates.len() - 1)
}

/// The entry that fires for `target`, if there is any entry at all.
pub open spec fn selection(rates: Seq<u64>, target: nat) -> Option<int> {
    if rates.len() == 0 {
        None
    } else {
        Some(choose|i: int| selects(rates, target, i))
    }
}

/// The selection target for a uniform variate with numerator `point`: the
/// variate times the total rate, rounded down.
pub open spec fn scaled(point: nat, total: nat) -> nat {
    (point * total) / LATTICE as nat
}

/// The numerator of the variate that a waiting time is computed from. A
/// variate of 0 is moved to the smallest positive point of the lattice, so
/// that its logarithm is finite.
pub open spec fn waiting_point(point: nat) -> nat {
    if point == 0 {
        1
    } else {
        point
    }
}

/// At most one entry fires for a target.
pub proof fn lemma_selects_unique(rates: Seq<u64>, target: nat, i: int, j: int)
    requires
        selects(rates, target, i),
        selects(rates, target, j),
    ensures
        i == j,
{
    if i < j {
        lemma_prefix_sum_monotonic(rates, i + 1, j);
    } else if j < i {
        lemma_prefix_sum_monotonic(rates, j + 1, i);
    }
}

/// The entry that `selects` singles out is the one that `selection` names.
pub proof fn lemma_selection_is(rates: Seq<u64>, target: nat, i: int)
    requires
        selects(rates, target, i),
    ensures
        selection(rates, target) == Some(i),
{
    let chosen = choose|k: int| selects(rates, target, k);
    lemma_selects_unique(rates, target, i, chosen);
}

/// A target below the total rate selects an entry with a positive rate whose
/// share of the running sum holds the target.
pub proof fn lemma_selected_is_live(rates: Seq<u64>, target: nat, i: int)
    requires
        selects(rates, target, i),
        target < total_rate(rates),
    ensures
        rates[i] > 0,
        prefix_sum(rates, i) <= target < prefix_sum(rates, i + 1),
{
}

/// Selection is weighted by the rates: a uniform variate `point / 2^53`
/// selects the entry whose share of the unit interval it falls into, where
/// the shares are laid out in order and the share of an entry is its rate
/// over the total rate.
pub proof fn lemma_selects_by_share(rates: Seq<u64>, point: nat, i: int)
    requires
        point < LATTICE,
        total_rate(rates) > 0,
        0 <= i < rates.len(),
    ensures
        selects(rates, scaled(point, total_rate(rates)), i) <==> prefix_sum(rates, i) * LATTICE
            <= point * total_rate(rates) < prefix_sum(rates, i + 1) * LATTICE,
{
    let total = total_rate(rates);
    let below = prefix_sum(rates, i);
    let above = prefix_sum(rates, i + 1);
    lemma_prefix_sum_monotonic(rates, i + 1, rates.len() as int);
    lemma_floor_bounds(point * total, below);
    lemma_floor_bounds(point * total, above);
    assert(point * total < total * 0x20_0000_0000_0000) by (nonlinear_arith)
        requires
            point < 0x20_0000_0000_0000,
            total > 0,
    ;
    assert(above * 0x20_0000_0000_0000 <= total * 0x20_0000_0000_0000) by (nonlinear_arith)
        requires
            above <= total,
    ;
}

/// A quotient rounded down reaches a bound exactly when the dividend
/// reaches the bound times the divisor, here for the divisor 2^53.
proof fn lemma_floor_bounds(x: nat, bound: nat)
    ensures
        bound <= x / 0x20_0000_0000_0000 <==> bound * 0x20_0000_0000_0000 <= x,
{
    assert(bound <= x / 0x20_0000_0000_0000 <==> bound * 0x20_0000_0000_0000 <= x)
        by (nonlinear_arith);
}

/// Every target selects an entry of a list that is not empty.
pub proof fn lemma_selection_exists(rates: Seq<u64>, target: nat) -> (i: int)
    requires
        rates.len() > 0,
    ensures
        selects(rates, target, i),
{
    lemma_first_beyond(rates, target, rates.len() - 1)
}

proof fn lemma_first_beyond(rates: Seq<u64>, target: nat, n: int) -> (i: int)
    requires
        0 <= n < rates.len(),
    ensures
        0 <= i <= n,
        prefix_sum(rates, i) <= target,
        target < prefix_sum(rates, i + 1) || i == n,
    decreases n,
{
    if n == 0 {
        0
    } else {
        let i = lemma_first_beyond(rates, target, n - 1);
        if target < prefix_sum(rates, i + 1) {
            i
        } else {
            n
        }
    }
}

/// Picks the entry that fires for `target` by walking the rates in order and
/// subtracting each from what is left of the target; the walk stops at the
/// first entry that what is left falls short of, and at the last entry at the
/// latest.
pub fn select(rates: &[u64], target: u128) -> (choice: Option<usize>)
    ensures
        match choice {
            Some(i) => selects(rates@, target as nat, i as int),
            None => rates@.len() == 0,
        },
        choice matches Some(i) ==> selection(rates@, target as nat) == Some(i as int),
        choice is None ==> selection(rates@, target as nat) is None,
{
    let n: usize = rates.len();
    if n == 0 {
        return None;
    }
    let mut left: u128 = target;
    let mut i: usize = 0;
    while i + 1 < n && left >= rates[i] as u128
        invariant
            n == rates@.len(),
            0 <= i < n,
            left as nat + prefix_sum(rates@, i as int) == target as nat,
        decreases n - i,
    {
        left = left - rates[i] as u128;
        i = i + 1;
    }
    proof {
        lemma_selection_is(rates@, target as nat, i as int);
    }
    Some(i)
}

/// Scales a uniform variate to a total rate: the selection target.
pub fn target_for(point: u64, total: u128) -> (target: u128)
    requires
        point < LATTICE,
    ensures
        target == scaled(point as nat, total as nat),
        total > 0 ==> target < total,
{
    let point: u128 = point as u128;
    let high: u128 = total / 0x1_0000_0000_0000_0000;
    let low: u128 = total % 0x1_0000_0000_0000_0000;
    proof {
        lemma_scaled_split(point as nat, high as nat, low as nat);
    }
    (point * high) * 0x800 + (point * low) / (LATTICE as u128)
}

/// Keeps a uniform variate away from 0, for a waiting time.
pub fn waiting_for(point: u64) -> (waiting: u64)
    ensures
        waiting == waiting_point(point as nat),
        0 < waiting,
        point < LATTICE ==> waiting < LATTICE,
{
    if point == 0 {
        1
    } else {
        point
    }
}

proof fn lemma_scaled_split(point: nat, high: nat, low: nat)
    requires
        point < 0x20_0000_0000_0000,
        high < 0x1_0000_0000_0000_0000,
        low < 0x1_0000_0000_0000_0000,
    ensures
        point * high < 0x20_0000_0000_0000_0000_0000_0000_0000,
        point * low < 0x20_0000_0000_0000_0000_0000_0000_0000,
        (point * high) * 0x800 + (point * low) / 0x20_0000_0000_0000 == (point * (high
            * 0x1_0000_0000_0000_0000 + low)) / 0x20_0000_0000_0000,
        high * 0x1_0000_0000_0000_0000 + low > 0 ==> (point * (high * 0x1_0000_0000_0000_0000
            + low)) / 0x20_0000_0000_0000 < high * 0x1_0000_0000_0000_0000 + low,
{
    let total = high * 0x1_0000_0000_0000_0000 + low;
    assert(point * high < 0x20_0000_0000_0000_0000_0000_0000_0000) by (nonlinear_arith)
        requires
            point < 0x20_0000_0000_0000,
            high < 0x1_0000_0000_0000_0000,
    ;
    assert(point * low < 0x20_0000_0000_0000_0000_0000_0000_0000) by (nonlinear_arith)
        requires
            point < 0x20_0000_0000_0000,
            low < 0x1_0000_0000_0000_0000,
    ;
    assert(point * total == ((point * high) * 0x800) * 0x20_0000_0000_0000 + point * low)
        by (nonlinear_arith)
        requires
            total == high * 0x1_0000_0000_0000_0000 + low,
    ;
    lemma_hoist_over_denominator(
        (point * low) as int,
        ((point * high) * 0x800) as int,
        0x20_0000_0000_0000,
    );
    if total > 0 {
        assert((point * total) / 0x20_0000_0000_0000 < total) by (nonlinear_arith)
            requires
                point < 0x20_0000_0000_0000,
                total > 0,
        ;
    }
}

} // verus!
