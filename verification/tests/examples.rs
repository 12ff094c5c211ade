use reactor::example::{basic, constant, diffusion, dimer};
use reactor::Outcome;

#[test]
fn basic_takes_three_steps() {
    let frames = basic(42);
    assert_eq!(frames.len(), 4);
    assert_eq!(frames[0].outcome, None);
    assert_eq!((frames[0].steps, frames[0].sequence, frames[0].registered), (0, 0, 0));
    assert_eq!(frames[1].outcome, Some(Outcome::Quiescent));
    assert_eq!((frames[1].steps, frames[1].sequence, frames[1].registered), (1, 0, 0));
    assert!(matches!(frames[2].outcome, Some(Outcome::Fired { id: 0..=2, total_rate: 1196, .. })));
    assert_eq!((frames[2].steps, frames[2].sequence, frames[2].registered), (2, 3, 3));
    assert!(matches!(frames[3].outcome, Some(Outcome::Fired { id: 0 | 2, total_rate: 238, .. })));
    assert_eq!((frames[3].steps, frames[3].sequence, frames[3].registered), (3, 3, 2));
    assert!(frames.iter().all(|frame| frame.values.is_empty()));
}

#[test]
fn constant_counts_every_step() {
    let frames = constant(42);
    assert_eq!(frames.len(), 10);
    assert_eq!(frames[0].values, vec![0, 0, 0]);
    for (n, frame) in frames.iter().enumerate() {
        assert_eq!(frame.steps, n as u64);
        assert_eq!(frame.sequence, 3);
        assert_eq!(frame.registered, 3);
        assert_eq!(frame.values.iter().sum::<u64>(), n as u64);
        if n > 0 {
            match frame.outcome {
                Some(Outcome::Fired { id, total_rate, .. }) => {
                    assert_eq!(total_rate, 15);
                    let index = id as usize;
                    assert_eq!(frame.values[index], frames[n - 1].values[index] + 1);
                }
                _ => panic!("every step of the constant example fires"),
            }
        }
    }
}

#[test]
fn dimer_keeps_the_conservation_law() {
    let frames = dimer(42);
    assert_eq!(frames.len(), 100);
    assert_eq!(frames[0].values, vec![10, 10, 0]);
    for (n, frame) in frames.iter().enumerate() {
        assert_eq!(frame.steps, n as u64);
        assert_eq!(frame.registered, 2);
        assert_eq!(frame.values[0] + frame.values[2], 10);
        assert_eq!(frame.values[1] + frame.values[2], 10);
        assert_eq!(frame.outcome.is_none(), n == 0);
    }
}

#[test]
fn diffusion_stops_after_a_hundred_and_one_steps() {
    for periodic in [false, true] {
        let frames = diffusion(42, periodic);
        assert_eq!(frames.len(), 102);
        assert_eq!(frames[0].values, vec![10_000, 0, 0, 0, 0, 0, 0, 0, 0, 0]);
        assert_eq!(frames[101].steps, 101);
        for frame in frames.iter() {
            assert_eq!(frame.registered, 20);
            assert_eq!(frame.values.iter().sum::<u64>(), 10_000);
        }
    }
}

#[test]
fn examples_repeat_for_a_seed() {
    let one = dimer(99);
    let two = dimer(99);
    for (a, b) in one.iter().zip(two.iter()) {
        assert_eq!(a.outcome, b.outcome);
        assert_eq!(a.values, b.values);
    }
}
