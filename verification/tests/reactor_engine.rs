use reactor::systems::constant::{create, IncrementingProcess, State};
use reactor::{Outcome, Reactor};

fn process(rate: u64, index: usize) -> IncrementingProcess {
    IncrementingProcess { rate, index }
}

#[test]
fn a_fresh_reactor_is_empty() {
    let reactor: Reactor<State, IncrementingProcess> = Reactor::new(42);
    assert_eq!(reactor.steps(), 0);
    assert_eq!(reactor.sequence(), 0);
    assert_eq!(reactor.len(), 0);
}

#[test]
fn ids_count_up_from_zero() {
    let mut reactor: Reactor<State, IncrementingProcess> = Reactor::new(42);
    assert_eq!(reactor.add(process(1, 0)), 0);
    assert_eq!(reactor.add(process(1, 0)), 1);
    assert_eq!(reactor.add(process(1, 0)), 2);
    assert_eq!(reactor.sequence(), 3);
    assert_eq!(reactor.len(), 3);
}

#[test]
fn ids_are_never_reused() {
    let mut reactor: Reactor<State, IncrementingProcess> = Reactor::new(42);
    let mut seen: Vec<u64> = Vec::new();
    for round in 0..50u64 {
        let id = reactor.add(process(1, 0));
        assert!(!seen.contains(&id));
        seen.push(id);
        if round % 2 == 0 {
            reactor.remove(id);
        }
        if round % 3 == 0 {
            reactor.remove(round / 3);
        }
    }
    assert_eq!(seen, (0..50u64).collect::<Vec<u64>>());
}

#[test]
fn removing_twice_is_removing_once() {
    let mut reactor: Reactor<State, IncrementingProcess> = Reactor::new(42);
    reactor.add(process(1, 0));
    let id = reactor.add(process(1, 0));
    reactor.remove(id);
    assert_eq!(reactor.len(), 1);
    reactor.remove(id);
    assert_eq!(reactor.len(), 1);
    reactor.remove(99);
    assert_eq!(reactor.len(), 1);
    assert_eq!(reactor.sequence(), 2);
}

#[test]
fn stepping_an_empty_reactor_only_counts() {
    let mut reactor: Reactor<State, IncrementingProcess> = Reactor::new(42);
    let mut state = State { counts: vec![7] };
    for n in 1..=5u64 {
        assert_eq!(reactor.step(&mut state), Outcome::Quiescent);
        assert_eq!(reactor.steps(), n);
    }
    assert_eq!(state.counts, vec![7]);
}

#[test]
fn inert_processes_leave_the_state_alone() {
    let (mut reactor, mut state) = create(42, &[0, 0, 0]);
    for n in 1..=10u64 {
        assert_eq!(reactor.step(&mut state), Outcome::Quiescent);
        assert_eq!(reactor.steps(), n);
        assert_eq!(reactor.len(), 3);
    }
    assert_eq!(state.counts, vec![0, 0, 0]);
}

#[test]
fn a_quiescent_step_draws_nothing() {
    let (mut idle, mut idle_state) = create(5, &[0, 0]);
    for _ in 0..10 {
        idle.step(&mut idle_state);
    }
    idle.add(process(3, 0));
    idle.add(process(4, 1));
    let mut fresh: Reactor<State, IncrementingProcess> = Reactor::new(5);
    let mut fresh_state = State { counts: vec![0, 0] };
    fresh.add(process(0, 0));
    fresh.add(process(0, 1));
    fresh.add(process(3, 0));
    fresh.add(process(4, 1));
    for _ in 0..20 {
        assert_eq!(idle.step(&mut idle_state), fresh.step(&mut fresh_state));
    }
    assert_eq!(idle_state.counts, fresh_state.counts);
}

#[test]
fn exactly_one_process_fires_per_step() {
    let (mut reactor, mut state) = create(9, &[3, 0, 5, 1]);
    for n in 1..=200u64 {
        let before = state.counts.clone();
        let outcome = reactor.step(&mut state);
        match outcome {
            Outcome::Fired { id, total_rate, waiting } => {
                assert_eq!(total_rate, 9);
                assert!(waiting > 0 && waiting < (1u64 << 53));
                assert!(id != 1);
                for index in 0..4usize {
                    let grown = if index as u64 == id { 1 } else { 0 };
                    assert_eq!(state.counts[index], before[index] + grown);
                }
            }
            Outcome::Quiescent => panic!("a positive total rate must fire"),
        }
        assert_eq!(state.counts.iter().sum::<u64>(), n);
        assert_eq!(reactor.steps(), n);
    }
    assert_eq!(state.counts[1], 0);
}

#[test]
fn equal_seeds_give_equal_runs() {
    let (mut one, mut one_state) = create(1234, &[2, 3, 5, 7]);
    let (mut two, mut two_state) = create(1234, &[2, 3, 5, 7]);
    for round in 0..300u64 {
        if round == 100 {
            one.remove(2);
            two.remove(2);
        }
        if round == 200 {
            assert_eq!(one.add(process(11, 0)), two.add(process(11, 0)));
        }
        assert_eq!(one.step(&mut one_state), two.step(&mut two_state));
        assert_eq!(one_state.counts, two_state.counts);
        assert_eq!(one.steps(), two.steps());
    }
}

#[test]
fn different_seeds_give_different_runs() {
    let (mut one, mut one_state) = create(1, &[1, 1, 1, 1]);
    let (mut two, mut two_state) = create(2, &[1, 1, 1, 1]);
    let mut same = true;
    for _ in 0..100 {
        if one.step(&mut one_state) != two.step(&mut two_state) {
            same = false;
        }
    }
    assert!(!same);
}

#[test]
fn a_step_follows_the_draws_of_the_generator() {
    for seed in 0..200u128 {
        let (mut reactor, mut state) = create(seed, &[1, 4, 10]);
        let mut reference = oorandom::Rand64::new(seed);
        for _ in 0..20 {
            let first = reference.rand_u64() >> 11;
            let second = reference.rand_u64() >> 11;
            let waiting = if first == 0 { 1 } else { first };
            let target = ((second as u128) * 15) >> 53;
            let id = if target < 1 {
                0
            } else if target < 5 {
                1
            } else {
                2
            };
            assert_eq!(
                reactor.step(&mut state),
                Outcome::Fired { id, total_rate: 15, waiting }
            );
        }
    }
}

#[test]
fn a_step_selects_as_the_floating_point_scan_does() {
    let rates: [f64; 3] = [0.5, 2.0, 5.0];
    for seed in 0..200u128 {
        let (mut reactor, mut state) = create(seed, &[1, 4, 10]);
        let mut reference = oorandom::Rand64::new(seed);
        let mut time: f64 = 0.0;
        let mut clock: f64 = 0.0;
        for _ in 0..20 {
            let total: f64 = rates.iter().sum();
            let elapsed = -reference.rand_float().ln() / total;
            let mut target = reference.rand_float() * total;
            let mut chosen = rates.len() - 1;
            for (index, rate) in rates.iter().enumerate() {
                if target < *rate {
                    chosen = index;
                    break;
                }
                target -= *rate;
            }
            time += elapsed;
            match reactor.step(&mut state) {
                Outcome::Fired { id, total_rate, waiting } => {
                    assert_eq!(id, chosen as u64);
                    let variate = waiting as f64 / 9007199254740992.0;
                    clock += -variate.ln() / (total_rate as f64 * 0.5);
                }
                Outcome::Quiescent => panic!("a positive total rate must fire"),
            }
            assert_eq!(clock, time);
        }
    }
}

#[test]
fn removed_processes_no_longer_fire() {
    let (mut reactor, mut state) = create(77, &[5, 5, 5]);
    reactor.remove(1);
    for _ in 0..100 {
        match reactor.step(&mut state) {
            Outcome::Fired { id, total_rate, .. } => {
                assert!(id == 0 || id == 2);
                assert_eq!(total_rate, 10);
            }
            Outcome::Quiescent => panic!("a positive total rate must fire"),
        }
    }
    assert_eq!(state.counts[1], 0);
    assert_eq!(state.counts[0] + state.counts[2], 100);
}

#[test]
fn time_never_runs_backwards() {
    let (mut reactor, mut state) = create(3, &[1, 0, 2]);
    let mut time: f64 = 0.0;
    for round in 0..100u64 {
        if round == 50 {
            reactor.remove(0);
            reactor.remove(2);
        }
        let before = time;
        match reactor.step(&mut state) {
            Outcome::Fired { total_rate, waiting, .. } => {
                let variate = waiting as f64 / 9007199254740992.0;
                let elapsed = -variate.ln() / total_rate as f64;
                assert!(elapsed > 0.0 && elapsed.is_finite());
                time += elapsed;
                assert!(time >= before);
            }
            Outcome::Quiescent => {
                assert!(round >= 50);
                assert_eq!(time, before);
            }
        }
        assert_eq!(reactor.steps(), round + 1);
    }
}

#[test]
fn the_walk_is_in_ascending_order_of_id() {
    for seed in 0..100u128 {
        let mut reactor: Reactor<State, IncrementingProcess> = Reactor::new(seed);
        let mut state = State { counts: vec![0; 5] };
        reactor.add(process(7, 0));
        reactor.add(process(100, 1));
        reactor.add(process(2, 2));
        reactor.add(process(5, 3));
        reactor.remove(1);
        reactor.add(process(1, 4));
        let walk: [(u64, u128); 4] = [(0, 7), (2, 2), (3, 5), (4, 1)];
        let mut reference = oorandom::Rand64::new(seed);
        for _ in 0..10 {
            let _waiting = reference.rand_u64();
            let mut target = (((reference.rand_u64() >> 11) as u128) * 15) >> 53;
            let mut expected = 4;
            for (id, rate) in walk {
                if target < rate {
                    expected = id;
                    break;
                }
                target -= rate;
            }
            match reactor.step(&mut state) {
                Outcome::Fired { id, total_rate, .. } => {
                    assert_eq!(id, expected);
                    assert_eq!(total_rate, 15);
                }
                Outcome::Quiescent => panic!("a positive total rate must fire"),
            }
        }
    }
}
