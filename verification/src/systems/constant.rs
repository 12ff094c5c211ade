//! Processes with constant rates that count how often each of them fired.

use vstd::prelude::*;
use crate::laws::{is_determined_by, lemma_one_fires, lemma_only_one_changes};
use crate::order::lemma_ascending_unique;
use crate::process::Process;
use crate::random::RandomSource;
use crate::reactor::{Model, Outcome, Reactor};
use crate::sums::{lemma_sum_after_increment, lemma_sum_bounds_entry, sum};

verus! {

/// One counter per process.
#[derive(Debug)]
pub struct State {
    pub counts: Vec<u64>,
}

/// A process with a fixed rate that adds one to its own counter when it
/// fires.
pub struct IncrementingProcess {
    pub rate: u64,
    pub index: usize,
}

impl Process<State> for IncrementingProcess {
    open spec fn admits(&self, state: &State) -> bool {
        &&& self.index < state.counts@.len()
        &&& self.rate > 0 ==> state.counts@[self.index as int] < u64::MAX
    }

    open spec fn rate_of(&self, state: &State) -> u64 {
        self.rate
    }

    open spec fn fires(&self, state: &State, next: &Self, after: &State) -> bool {
        &&& next == self
        &&& after.counts@ == state.counts@.update(
            self.index as int,
            (state.counts@[self.index as int] + 1) as u64,
        )
    }

    fn rate(&self, state: &State) -> (rate: u64) {
        self.rate
    }

    fn perform(&mut self, state: &mut State) {
        state.counts[self.index] += 1;
    }
}

/// How many firings the counters record: their sum.
pub open spec fn fired(counts: Seq<u64>) -> nat {
    sum(counts)
}

/// The processes of a constant system: process `i` has rate `rates[i]` and
/// counts in counter `i`.
pub open spec fn registry(rates: Seq<u64>) -> Map<u64, IncrementingProcess> {
    Map::new(
        |id: u64| id < rates.len(),
        |id: u64| IncrementingProcess { rate: rates[id as int], index: id as usize },
    )
}

/// The model of a constant system that has not taken a step.
pub open spec fn system(seed: u128, rates: Seq<u64>) -> Model<IncrementingProcess> {
    Model {
        sequence: rates.len(),
        generator: RandomSource::seeded(seed),
        steps: 0,
        processes: registry(rates),
    }
}

/// Creates a reactor with one incrementing process per rate, registered in
/// the order of the rates, and a state of as many counters, all 0.
pub fn create(seed: u128, rates: &[u64]) -> (made: (Reactor<State, IncrementingProcess>, State))
    ensures
        made.0@ == system(seed, rates@),
        made.0@.valid(),
        made.1.counts@ == Seq::new(rates@.len(), |i: int| 0u64),
{
    let mut reactor: Reactor<State, IncrementingProcess> = Reactor::new(seed);
    let state = State { counts: vec![0u64; rates.len()] };
    let mut index: usize = 0;
    proof {
        assert(registry(rates@.take(0)) =~= Map::empty());
    }
    while index < rates.len()
        invariant
            index <= rates@.len(),
            reactor@ == system(seed, rates@.take(index as int)),
            reactor@.valid(),
        decreases rates@.len() - index,
    {
        let process = IncrementingProcess { rate: rates[index], index };
        reactor.add(process);
        index = index + 1;
        proof {
            assert(reactor@.processes =~= registry(rates@.take(index as int)));
        }
    }
    proof {
        assert(rates@.take(index as int) =~= rates@);
        assert(state.counts@ =~= Seq::new(rates@.len(), |i: int| 0u64));
    }
    (reactor, state)
}

/// The rates that a step of a constant system sees are the rates that the
/// system was made with, whatever the counters hold.
pub proof fn lemma_rates(model: Model<IncrementingProcess>, rates: Seq<u64>, state: State)
    requires
        model.processes == registry(rates),
        rates.len() <= usize::MAX,
    ensures
        model.ids() == Seq::new(rates.len(), |i: int| i as u64),
        model.rates(state) == rates,
{
    let ids = Seq::new(rates.len(), |i: int| i as u64);
    assert forall|id: u64| model.processes.dom().contains(id) implies ids.contains(id) by {
        assert(ids[id as int] == id);
    }
    lemma_ascending_unique(ids, model.processes.dom());
    assert(model.rates(state) =~= rates);
}

/// Every step of a constant system with a positive total rate fires one of
/// its processes, which adds one to one counter: the counters then record one
/// firing more, and the processes stay as they are.
pub proof fn lemma_step_counts_one(
    model: Model<IncrementingProcess>,
    rates: Seq<u64>,
    state: State,
    next: Model<IncrementingProcess>,
    after: State,
    outcome: Outcome,
)
    requires
        model.processes == registry(rates),
        rates.len() <= usize::MAX,
        sum(rates) > 0,
        state.counts@.len() == rates.len(),
        fired(state.counts@) < u64::MAX,
        model.steps_to(state, next, after, outcome),
    ensures
        next.processes == registry(rates),
        after.counts@.len() == rates.len(),
        fired(after.counts@) == fired(state.counts@) + 1,
        outcome matches Outcome::Fired { id, total_rate, .. } && id < rates.len() && total_rate
            == sum(rates),
{
    lemma_rates(model, rates, state);
    lemma_one_fires(model, state);
    lemma_only_one_changes(model, state, next, after, outcome);
    let id = outcome->id;
    lemma_sum_bounds_entry(state.counts@, id as int);
    lemma_sum_after_increment(state.counts@, id as int);
    assert(next.processes =~= model.processes);
}

/// The processes of a constant system are defined on every state with one
/// counter for each of them whose counters have room to count on.
pub proof fn lemma_admits(model: Model<IncrementingProcess>, rates: Seq<u64>, state: State)
    requires
        model.processes == registry(rates),
        rates.len() <= usize::MAX,
        state.counts@.len() == rates.len(),
        fired(state.counts@) < u64::MAX,
    ensures
        model.admits(state),
{
    assert forall|id: u64| model.processes.contains_key(id) implies model.processes[id].admits(
        &state,
    ) by {
        lemma_sum_bounds_entry(state.counts@, id as int);
    }
}

/// An incrementing process is determined by what the counters hold.
pub proof fn lemma_is_determined(process: IncrementingProcess)
    ensures
        is_determined_by(process, |state: State| state.counts@),
{
}

} // verus!
