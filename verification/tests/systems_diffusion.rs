use reactor::systems::diffusion::{create, Lattice};
use reactor::Outcome;

#[test]
fn a_new_lattice_is_empty() {
    let lattice = Lattice::zeros(4);
    assert_eq!(lattice.dim(), (1, 4));
    assert_eq!(lattice.row(0), vec![0, 0, 0, 0]);
    assert_eq!(lattice.get(0, 3), Some(0));
    assert_eq!(lattice.get(0, 4), None);
    assert_eq!(lattice.get(1, 0), None);
}

#[test]
fn setting_a_cell_changes_that_cell_only() {
    let mut lattice = Lattice::zeros(3);
    lattice.set(0, 1, 9);
    assert_eq!(lattice.row(0), vec![0, 9, 0]);
    assert_eq!(lattice.get(0, 1), Some(9));
    lattice.set(0, 2, 4);
    lattice.set(0, 1, 8);
    assert_eq!(lattice.row(0), vec![0, 8, 4]);
}

#[test]
fn create_puts_all_particles_in_the_first_cell() {
    let (reactor, state) = create(42, 5, 10, 10_000, false);
    assert_eq!(reactor.len(), 20);
    assert_eq!(reactor.sequence(), 20);
    assert_eq!(reactor.steps(), 0);
    assert_eq!(state.row(0), vec![10_000, 0, 0, 0, 0, 0, 0, 0, 0, 0]);
}

#[test]
fn the_smallest_lattice_has_two_cells() {
    let (mut reactor, mut state) = create(42, 1, 2, 3, true);
    assert_eq!(reactor.len(), 4);
    for _ in 0..50 {
        let outcome = reactor.step(&mut state);
        assert!(matches!(outcome, Outcome::Fired { total_rate: 6, .. }));
        let row = state.row(0);
        assert_eq!(row[0] + row[1], 3);
    }
}

#[test]
fn walls_bounce_particles_back() {
    let (mut reactor, mut state) = create(42, 5, 10, 10_000, false);
    let outcome = reactor.step(&mut state);
    match outcome {
        Outcome::Fired { id, total_rate, .. } => {
            assert_eq!(total_rate, 100_000);
            assert!(id == 16 || id == 18);
            let row = state.row(0);
            if id == 16 {
                assert_eq!(row[0], 9_999);
                assert_eq!(row[1], 1);
            } else {
                assert_eq!(row[0], 10_000);
            }
        }
        Outcome::Quiescent => panic!("particles are there to hop"),
    }
}

#[test]
fn a_periodic_boundary_wraps_around() {
    let mut wrapped = false;
    for seed in 0..50u128 {
        let (mut reactor, mut state) = create(seed, 5, 10, 10_000, true);
        match reactor.step(&mut state) {
            Outcome::Fired { id: 18, .. } => {
                let row = state.row(0);
                assert_eq!(row[0], 9_999);
                assert_eq!(row[9], 1);
                wrapped = true;
            }
            Outcome::Fired { id: 16, .. } => {
                assert_eq!(state.row(0)[1], 1);
            }
            _ => panic!("only the first cell holds particles"),
        }
    }
    assert!(wrapped);
}

#[test]
fn diffusion_conserves_particles() {
    for periodic in [false, true] {
        let (mut reactor, mut state) = create(7, 5, 10, 10_000, periodic);
        for n in 1..=2000u64 {
            let outcome = reactor.step(&mut state);
            assert!(matches!(outcome, Outcome::Fired { total_rate: 100_000, .. }));
            assert_eq!(state.row(0).iter().sum::<u64>(), 10_000);
            assert_eq!(reactor.steps(), n);
        }
        assert!(state.row(0)[1] > 0);
    }
}
