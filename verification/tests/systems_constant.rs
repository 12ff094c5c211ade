use reactor::systems::constant::create;
use reactor::Outcome;

#[test]
fn create_registers_one_process_per_rate() {
    let (reactor, state) = create(42, &[1, 4, 10]);
    assert_eq!(reactor.len(), 3);
    assert_eq!(reactor.sequence(), 3);
    assert_eq!(reactor.steps(), 0);
    assert_eq!(state.counts, vec![0, 0, 0]);
}

#[test]
fn create_without_rates_gives_an_empty_system() {
    let (mut reactor, mut state) = create(42, &[]);
    assert_eq!(reactor.len(), 0);
    assert!(state.counts.is_empty());
    assert_eq!(reactor.step(&mut state), Outcome::Quiescent);
}

#[test]
fn pure_counters_follow_their_rates() {
    let (mut reactor, mut state) = create(42, &[1, 4, 10]);
    for _ in 0..1000 {
        let outcome = reactor.step(&mut state);
        assert!(matches!(outcome, Outcome::Fired { total_rate: 15, .. }));
    }
    assert_eq!(reactor.steps(), 1000);
    assert_eq!(state.counts.iter().sum::<u64>(), 1000);
    let share = |index: usize| state.counts[index] as f64 / 1000.0;
    assert!((share(0) - 1.0 / 15.0).abs() < 0.04);
    assert!((share(1) - 4.0 / 15.0).abs() < 0.07);
    assert!((share(2) - 10.0 / 15.0).abs() < 0.075);
    assert!(state.counts[0] < state.counts[1]);
    assert!(state.counts[1] < state.counts[2]);
}
