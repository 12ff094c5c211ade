use reactor::random::{DRAWS_PER_POINT, LATTICE};
use reactor::selection::{select, target_for, waiting_for};

#[test]
fn select_walks_the_running_sums() {
    let rates = [1u64, 4, 10];
    assert_eq!(select(&rates, 0), Some(0));
    assert_eq!(select(&rates, 1), Some(1));
    assert_eq!(select(&rates, 4), Some(1));
    assert_eq!(select(&rates, 5), Some(2));
    assert_eq!(select(&rates, 14), Some(2));
}

#[test]
fn select_falls_back_to_the_last_entry() {
    let rates = [1u64, 4, 10];
    assert_eq!(select(&rates, 15), Some(2));
    assert_eq!(select(&rates, u128::MAX), Some(2));
    assert_eq!(select(&[0u64, 3, 0], 3), Some(2));
    assert_eq!(select(&[0u64, 0], 0), Some(1));
}

#[test]
fn select_on_nothing_selects_nothing() {
    let rates: [u64; 0] = [];
    assert_eq!(select(&rates, 0), None);
    assert_eq!(select(&rates, 7), None);
}

#[test]
fn select_skips_inert_entries() {
    let rates = [0u64, 3, 0, 2];
    assert_eq!(select(&rates, 0), Some(1));
    assert_eq!(select(&rates, 2), Some(1));
    assert_eq!(select(&rates, 3), Some(3));
    assert_eq!(select(&rates, 4), Some(3));
}

#[test]
fn select_handles_rates_at_the_top_of_the_range() {
    let rates = [u64::MAX, u64::MAX, 1];
    let top = u64::MAX as u128;
    assert_eq!(select(&rates, top - 1), Some(0));
    assert_eq!(select(&rates, top), Some(1));
    assert_eq!(select(&rates, 2 * top - 1), Some(1));
    assert_eq!(select(&rates, 2 * top), Some(2));
}

#[test]
fn lattice_constants_are_powers_of_two() {
    assert_eq!(LATTICE, 1u64 << 53);
    assert_eq!(DRAWS_PER_POINT, 1u64 << 11);
}

#[test]
fn target_scales_the_variate_to_the_total() {
    let top = LATTICE - 1;
    assert_eq!(target_for(0, 15), 0);
    assert_eq!(target_for(1, 15), 0);
    assert_eq!(target_for(LATTICE / 2, 15), 7);
    assert_eq!(target_for(LATTICE / 3, 15), 4);
    assert_eq!(target_for(top, 15), 14);
    assert_eq!(target_for(top, 0), 0);
    assert_eq!(target_for(top, 1), 0);
}

#[test]
fn target_is_exact_for_wide_totals() {
    let top = LATTICE - 1;
    assert_eq!(target_for(top, 1u128 << 64), 18446744073709549568);
    assert_eq!(target_for(top, u128::MAX), 340282366920938425684442744474606501887);
    assert_eq!(
        target_for(12345678901234567890 >> 11, 1_000_000_000_000_000_000_000_000_000_000),
        669260594276348652620356460829
    );
}

#[test]
fn waiting_variate_is_never_zero() {
    assert_eq!(waiting_for(0), 1);
    assert_eq!(waiting_for(1), 1);
    assert_eq!(waiting_for(2), 2);
    assert_eq!(waiting_for(LATTICE - 1), LATTICE - 1);
}

#[test]
fn shares_of_the_unit_interval_follow_the_rates() {
    let rates = [1u64, 4, 10];
    let pick = |point: u64| select(&rates, target_for(point, 15));
    let second_share = 600479950316067;
    let third_share = 3002399751580331;
    assert_eq!(second_share, (LATTICE + 14) / 15);
    assert_eq!(third_share, (5 * LATTICE + 14) / 15);
    assert_eq!(pick(0), Some(0));
    assert_eq!(pick(second_share - 1), Some(0));
    assert_eq!(pick(second_share), Some(1));
    assert_eq!(pick(third_share - 1), Some(1));
    assert_eq!(pick(third_share), Some(2));
    assert_eq!(pick(LATTICE - 1), Some(2));
}
