use reactor::systems::dimer::create;
use reactor::Outcome;

#[test]
fn create_registers_formation_and_dissociation() {
    let (reactor, state) = create(42, 2, 1, &[10, 10, 0]);
    assert_eq!(reactor.len(), 2);
    assert_eq!(reactor.sequence(), 2);
    assert_eq!(state.concentrations, vec![10, 10, 0]);
}

#[test]
fn the_first_step_can_only_form() {
    for seed in 0..50u128 {
        let (mut reactor, mut state) = create(seed, 2, 1, &[10, 10, 0]);
        let outcome = reactor.step(&mut state);
        assert!(matches!(outcome, Outcome::Fired { id: 0, total_rate: 200, .. }));
        assert_eq!(state.concentrations, vec![9, 9, 1]);
    }
}

#[test]
fn dimerization_conserves_both_species() {
    for seed in [1u128, 42, 4711] {
        let (mut reactor, mut state) = create(seed, 2, 1, &[10, 10, 0]);
        for _ in 0..500 {
            let before = state.concentrations.clone();
            let outcome = reactor.step(&mut state);
            let now = &state.concentrations;
            assert_eq!(now[0] + now[2], 10);
            assert_eq!(now[1] + now[2], 10);
            match outcome {
                Outcome::Fired { id: 0, total_rate, .. } => {
                    assert_eq!(total_rate, (2 * before[0] * before[1] + before[2]) as u128);
                    assert_eq!(now[2], before[2] + 1);
                }
                Outcome::Fired { id: 1, total_rate, .. } => {
                    assert_eq!(total_rate, (2 * before[0] * before[1] + before[2]) as u128);
                    assert_eq!(now[2] + 1, before[2]);
                }
                _ => panic!("one of the two reactions must fire"),
            }
        }
    }
}

#[test]
fn dissociation_alone_runs_dry() {
    let (mut reactor, mut state) = create(42, 2, 1, &[0, 0, 5]);
    reactor.remove(0);
    for n in 1..=5u64 {
        let outcome = reactor.step(&mut state);
        assert!(matches!(outcome, Outcome::Fired { id: 1, .. }));
        assert_eq!(state.concentrations, vec![n, n, 5 - n]);
    }
    for n in 6..=20u64 {
        assert_eq!(reactor.step(&mut state), Outcome::Quiescent);
        assert_eq!(reactor.steps(), n);
        assert_eq!(state.concentrations, vec![5, 5, 0]);
    }
}

#[test]
fn without_formation_the_dimers_run_out() {
    let (mut reactor, mut state) = create(42, 0, 3, &[0, 0, 5]);
    let mut time: f64 = 0.0;
    for n in 1..=5u64 {
        match reactor.step(&mut state) {
            Outcome::Fired { id, total_rate, waiting } => {
                assert_eq!(id, 1);
                assert_eq!(total_rate, (3 * (6 - n)) as u128);
                time += -(waiting as f64 / 9007199254740992.0).ln() / total_rate as f64;
            }
            Outcome::Quiescent => panic!("dimers are left"),
        }
    }
    assert_eq!(state.concentrations, vec![5, 5, 0]);
    let frozen = time;
    for n in 6..=30u64 {
        assert_eq!(reactor.step(&mut state), Outcome::Quiescent);
        assert_eq!(reactor.steps(), n);
    }
    assert_eq!(time, frozen);
    assert!(frozen > 0.0);
}

#[test]
fn starting_from_dimers_only_the_first_step_must_dissociate() {
    let (mut reactor, mut state) = create(7, 2, 1, &[0, 0, 5]);
    let outcome = reactor.step(&mut state);
    assert!(matches!(outcome, Outcome::Fired { id: 1, total_rate: 5, .. }));
    assert_eq!(state.concentrations, vec![1, 1, 4]);
}
