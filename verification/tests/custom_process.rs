use reactor::{Outcome, Process, Reactor};

struct Tally {
    hits: Vec<u64>,
}

struct Weighted {
    weight: u64,
    slot: usize,
}

impl Process<Tally> for Weighted {
    fn admits(&self, state: &Tally) -> bool {
        self.slot < state.hits.len()
    }

    fn rate_of(&self, _state: &Tally) -> u64 {
        self.weight
    }

    fn fires(&self, state: &Tally, next: &Self, after: &Tally) -> bool {
        next.weight == self.weight
            && next.slot == self.slot
            && after.hits.len() == state.hits.len()
            && after.hits[self.slot] == state.hits[self.slot] + 1
    }

    fn rate(&self, _state: &Tally) -> u64 {
        self.weight
    }

    fn perform(&mut self, state: &mut Tally) {
        state.hits[self.slot] += 1;
    }
}

#[test]
fn a_process_written_outside_the_library_fires() {
    let mut reactor: Reactor<Tally, Weighted> = Reactor::new(1);
    let mut tally = Tally { hits: vec![0, 0] };
    let first = reactor.add(Weighted { weight: 0, slot: 0 });
    let second = reactor.add(Weighted { weight: 3, slot: 1 });
    assert_eq!(first, 0);
    assert_eq!(second, 1);
    let outcome = reactor.step(&mut tally);
    assert!(matches!(outcome, Outcome::Fired { id: 1, total_rate: 3, .. }));
    assert_eq!(tally.hits, vec![0, 1]);
    assert_eq!(reactor.steps(), 1);
}
