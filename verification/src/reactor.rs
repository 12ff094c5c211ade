//! The reactor: a registry of processes, a step counter and a random source,
//! advanced one sampled event at a time.

use vstd::prelude::*;
use std::collections::BTreeMap;
use std::marker::PhantomData;
use vstd::std_specs::iter::IteratorSpec;
use crate::order::{
    ascending, lemma_ascending, lemma_ascending_len, lemma_ascending_unique,
    lemma_ids_are_ordered, lemma_increasing_is_ascending,
};
use crate::process::Process;
use crate::random::RandomSource;
use crate::selection::{
    lemma_selected_is_live, scaled, select, selection, target_for, total_rate, waiting_for,
    waiting_point,
};
use crate::sums::{lemma_prefix_sum_agrees, lemma_prefix_sum_bound, prefix_sum};

verus! {

/// What one step did.
#[derive(Clone, Copy, Debug, PartialEq, Eq)]
pub enum Outcome {
    /// The total rate was 0: no process fired and no time passes.
    Quiescent,
    /// Exactly one process fired.
    Fired {
        /// The id of the process that fired.
        id: u64,
        /// The sum of all rates when the step began; positive.
        total_rate: u128,
        /// The numerator over 2^53 of the waiting-time variate `u`, with
        /// `0 < u < 1`; the time that passes is `-ln(u) / total_rate`.
        waiting: u64,
    },
}

/// The mathematical content of a reactor.
pub struct Model<P> {
    /// The id that the next registration is given.
    pub sequence: nat,
    /// The random source.
    pub generator: RandomSource,
    /// How many steps were taken.
    pub steps: nat,
    /// The registered processes by id.
    pub processes: Map<u64, P>,
}

impl<P> Model<P> {
    /// The model of a fresh reactor.
    pub open spec fn initial(seed: u128) -> Self {
        Model {
            sequence: 0,
            generator: RandomSource::seeded(seed),
            steps: 0,
            processes: Map::empty(),
        }
    }

    /// Every registered id was handed out before: it lies below the sequence
    /// counter.
    pub open spec fn valid(self) -> bool {
        forall|id: u64| self.processes.contains_key(id) ==> id < self.sequence
    }

    /// The registered ids in the order in which a step walks them.
    pub open spec fn ids(self) -> Seq<u64> {
        ascending(self.processes.dom())
    }

    /// The model after registering `process`, and the id it was given.
    pub open spec fn added(self, process: P) -> (Self, u64) {
        (
            Model {
                sequence: self.sequence + 1,
                processes: self.processes.insert(self.sequence as u64, process),
                ..self
            },
            self.sequence as u64,
        )
    }

    /// The model after removing `id`, whether or not it was registered.
    pub open spec fn removed(self, id: u64) -> Self {
        Model { processes: self.processes.remove(id), ..self }
    }

    /// Whether every registered process is defined on `state`.
    pub open spec fn admits<S>(self, state: S) -> bool where P: Process<S> {
        forall|id: u64| self.processes.contains_key(id) ==> self.processes[id].admits(&state)
    }

    /// The rates of the registered processes under `state`, in walking order.
    pub open spec fn rates<S>(self, state: S) -> Seq<u64> where P: Process<S> {
        Seq::new(self.ids().len(), |i: int| self.processes[self.ids()[i]].rate_of(&state))
    }

    /// What a step does under `state`.
    ///
    /// With a total rate of 0 nothing fires. Otherwise two uniform variates
    /// are drawn: the first is kept for the waiting time, the second selects
    /// the process that fires, with a probability proportional to its rate.
    pub open spec fn outcome<S>(self, state: S) -> Outcome where P: Process<S> {
        let rates = self.rates(state);
        let total = total_rate(rates);
        if total == 0 {
            Outcome::Quiescent
        } else {
            let target = scaled(self.generator.advanced().point(), total);
            Outcome::Fired {
                id: self.ids()[selection(rates, target).unwrap()],
                total_rate: total as u128,
                waiting: waiting_point(self.generator.point()) as u64,
            }
        }
    }

    /// The model after a step that reported `outcome` and left the process
    /// that fired, if one did, as it was.
    pub open spec fn stepped(self, outcome: Outcome) -> Self {
        Model {
            steps: self.steps + 1,
            generator: if outcome is Fired {
                self.generator.advanced().advanced()
            } else {
                self.generator
            },
            ..self
        }
    }

    /// Whether one step under `state` may lead to the model `next` and the
    /// state `after`, with `outcome` as its report.
    ///
    /// The step counter goes up by one. A quiescent step changes nothing
    /// else. A step that fires uses up two draws and lets exactly one process
    /// act on the state; every other process, and the set of registered ids,
    /// stay as they are.
    pub open spec fn steps_to<S>(self, state: S, next: Self, after: S, outcome: Outcome) -> bool
        where P: Process<S> {
        &&& outcome == self.outcome(state)
        &&& next.sequence == self.sequence
        &&& next.steps == self.steps + 1
        &&& match outcome {
            Outcome::Quiescent => {
                &&& next.generator == self.generator
                &&& next.processes == self.processes
                &&& after == state
            },
            Outcome::Fired { id, .. } => {
                &&& next.generator == self.generator.advanced().advanced()
                &&& next.processes == self.processes.insert(id, next.processes[id])
                &&& self.processes[id].fires(&state, &next.processes[id], &after)
            },
        }
    }
}

/// One step of a recorded run: the model and the state that the step left
/// behind, and what the step did.
pub struct Moment<S, P> {
    pub model: Model<P>,
    pub state: S,
    pub outcome: Outcome,
}

/// Whether `run` records consecutive steps that start from `model` and
/// `state`.
pub open spec fn is_run<S, P: Process<S>>(
    model: Model<P>,
    state: S,
    run: Seq<Moment<S, P>>,
) -> bool {
    &&& run.len() > 0 ==> model.steps_to(state, run[0].model, run[0].state, run[0].outcome)
    &&& forall|i: int|
        0 < i < run.len() ==> run[i - 1].model.steps_to(
            run[i - 1].state,
            (#[trigger] run[i]).model,
            run[i].state,
            run[i].outcome,
        )
}

/// A run followed by one more step is a run.
pub proof fn lemma_run_extends<S, P: Process<S>>(
    model: Model<P>,
    state: S,
    run: Seq<Moment<S, P>>,
    moment: Moment<S, P>,
)
    requires
        is_run(model, state, run),
        if run.len() == 0 {
            model.steps_to(state, moment.model, moment.state, moment.outcome)
        } else {
            run.last().model.steps_to(run.last().state, moment.model, moment.state, moment.outcome)
        },
    ensures
        is_run(model, state, run.push(moment)),
{
    let longer = run.push(moment);
    assert forall|i: int| 0 < i < longer.len() implies longer[i - 1].model.steps_to(
        longer[i - 1].state,
        (#[trigger] longer[i]).model,
        longer[i].state,
        longer[i].outcome,
    ) by {
        if i < run.len() {
            assert(longer[i] == run[i]);
        }
    }
}

/// The first `n` steps of a run are a run.
pub proof fn lemma_run_prefix<S, P: Process<S>>(
    model: Model<P>,
    state: S,
    run: Seq<Moment<S, P>>,
    n: int,
)
    requires
        is_run(model, state, run),
        0 <= n <= run.len(),
    ensures
        is_run(model, state, run.take(n)),
{
    let shorter = run.take(n);
    assert forall|i: int| 0 < i < shorter.len() implies shorter[i - 1].model.steps_to(
        shorter[i - 1].state,
        (#[trigger] shorter[i]).model,
        shorter[i].state,
        shorter[i].outcome,
    ) by {
        assert(shorter[i] == run[i]);
    }
}

/// A registry of processes over a state of type `S`, with the step counter
/// and the random source that drive the simulation.
#[verifier::reject_recursive_types(S)]
pub struct Reactor<S, P: Process<S>> {
    sequence: u64,
    generator: RandomSource,
    steps: u64,
    processes: BTreeMap<u64, P>,
    marker: PhantomData<S>,
}

/// The frozen rates of one step.
struct Census {
    ids: Vec<u64>,
    rates: Vec<u64>,
    total: u128,
}

impl<S, P: Process<S>> View for Reactor<S, P> {
    type V = Model<P>;

    closed spec fn view(&self) -> Model<P> {
        Model {
            sequence: self.sequence as nat,
            generator: self.generator,
            steps: self.steps as nat,
            processes: self.processes@,
        }
    }
}

impl<S, P: Process<S>> Reactor<S, P> {
    /// Creates a reactor without processes: 0 steps taken, 0 ids handed out.
    pub fn new(seed: u128) -> (reactor: Self)
        ensures
            reactor@ == Model::<P>::initial(seed),
            reactor@.valid(),
    {
        Reactor {
            sequence: 0,
            generator: RandomSource::new(seed),
            steps: 0,
            processes: BTreeMap::new(),
            marker: PhantomData,
        }
    }

    /// The id that the next registration will be given.
    pub fn sequence(&self) -> (sequence: u64)
        ensures
            sequence == self@.sequence,
    {
        self.sequence
    }

    /// How many times `step` was called, steps without an event included.
    pub fn steps(&self) -> (steps: u64)
        ensures
            steps == self@.steps,
    {
        self.steps
    }

    /// The number of processes that are registered.
    pub fn len(&self) -> (count: usize)
        ensures
            count == self@.processes.len(),
            count == self@.ids().len(),
    {
        broadcast use vstd::std_specs::btree::group_btree_axioms;

        proof {
            lemma_ids_are_ordered();
            lemma_ascending_len(self@.processes.dom());
        }
        self.processes.len()
    }

    /// Registers a process under a fresh id and returns the id.
    pub fn add(&mut self, process: P) -> (id: u64)
        requires
            old(self)@.valid(),
            old(self)@.sequence < u64::MAX,
        ensures
            (final(self)@, id) == old(self)@.added(process),
            !old(self)@.processes.contains_key(id),
            final(self)@.valid(),
    {
        broadcast use vstd::std_specs::btree::group_btree_axioms;

        proof {
            lemma_ids_are_ordered();
        }

        let id: u64 = self.sequence;
        self.sequence = self.sequence + 1;
        self.processes.insert(id, process);
        id
    }

    /// Evaluates every rate once, in ascending order of id, and sums them.
    fn census(&self, state: &S) -> (census: Census)
        requires
            self@.admits(*state),
        ensures
            census.ids@ == self@.ids(),
            census.rates@ == self@.rates(*state),
            census.total == total_rate(census.rates@),
    {
        broadcast use vstd::std_specs::btree::group_btree_axioms;

        proof {
            lemma_ids_are_ordered();
        }

        let count: usize = self.processes.len();
        let mut ids: Vec<u64> = Vec::new();
        let mut rates: Vec<u64> = Vec::new();
        let mut total: u128 = 0;
        for entry in walk: self.processes.iter()
            invariant
                self@.admits(*state),
                walk.seq().len() == count,
                walk.seq() == self.processes.iter().remaining(),
                ids@.len() == walk.index(),
                rates@.len() == walk.index(),
                forall|i: int|
                    0 <= i < walk.index() ==> {
                        &&& ids@[i] == *walk.seq()[i].0
                        &&& rates@[i] == walk.seq()[i].1.rate_of(state)
                    },
                total == prefix_sum(rates@, walk.index()),
        {
            proof {
                let i = walk.index();
                assert(self@.processes.contains_key(*entry.0));
                assert(self@.processes[*entry.0] == *entry.1);
                lemma_prefix_sum_bound(rates@, i);
                assert(i * 0xFFFF_FFFF_FFFF_FFFF <= 0xFFFF_FFFF_FFFF_FFFF
                    * 0xFFFF_FFFF_FFFF_FFFF) by (nonlinear_arith)
                    requires
                        0 <= i <= 0xFFFF_FFFF_FFFF_FFFF,
                ;
            }
            let rate: u64 = entry.1.rate(state);
            let ghost before = rates@;
            total = total + rate as u128;
            ids.push(*entry.0);
            rates.push(rate);
            proof {
                lemma_prefix_sum_agrees(before, rates@, before.len() as int);
            }
        }
        proof {
            let entries = self.processes.iter().remaining();
            let domain = self.processes@.dom();
            assert(ids@ =~= entries.map_values(|entry: (&u64, &P)| *entry.0));
            lemma_increasing_is_ascending(ids@);
            assert forall|id: u64| domain.contains(id) implies ids@.contains(id) by {
                let i = choose|i: int|
                    0 <= i < entries.len() && entries[i] == (&id, &self.processes@[id]);
                assert(ids@[i] == id);
            }
            lemma_ascending_unique(ids@, domain);
            assert(rates@ =~= self@.rates(*state));
        }
        Census { ids, rates, total }
    }

    /// Takes one step of the simulation.
    ///
    /// Every rate is evaluated once under the state as it is. When their sum
    /// is 0 nothing fires. Otherwise one draw is set aside for the waiting
    /// time, a second draw selects one process with a probability
    /// proportional to its rate, and that process fires. The step counter
    /// goes up by one either way, and the set of registered ids stays as it
    /// is.
    pub fn step(&mut self, state: &mut S) -> (outcome: Outcome)
        requires
            old(self)@.valid(),
            old(self)@.steps < u64::MAX,
            old(self)@.admits(*old(state)),
        ensures
            old(self)@.steps_to(*old(state), final(self)@, *final(state), outcome),
            final(self)@.valid(),
    {
        broadcast use vstd::std_specs::btree::group_btree_axioms;

        proof {
            lemma_ids_are_ordered();
        }

        let census = self.census(state);
        self.steps = self.steps + 1;
        if census.total == 0 {
            return Outcome::Quiescent;
        }
        let waiting: u64 = waiting_for(self.generator.uniform());
        let target: u128 = target_for(self.generator.uniform(), census.total);
        let index: usize = select(census.rates.as_slice(), target).unwrap();
        proof {
            lemma_ascending(old(self)@.processes.dom());
            lemma_selected_is_live(census.rates@, target as nat, index as int);
        }
        let id: u64 = census.ids[index];
        let mut fired = self.processes.remove(&id).unwrap();
        fired.perform(state);
        self.processes.insert(id, fired);
        proof {
            assert(self@.processes =~= old(self)@.processes.insert(id, self@.processes[id]));
            assert forall|other: u64| self@.processes.contains_key(other) implies other
                < self@.sequence by {
                assert(old(self)@.processes.contains_key(other));
            }
        }
        Outcome::Fired { id, total_rate: census.total, waiting }
    }

    /// Removes the process registered under `id`, if there is one.
    pub fn remove(&mut self, id: u64)
        requires
            old(self)@.valid(),
        ensures
            final(self)@ == old(self)@.removed(id),
            final(self)@.valid(),
    {
        broadcast use vstd::std_specs::btree::group_btree_axioms;

        proof {
            lemma_ids_are_ordered();
        }

        self.processes.remove(&id);
        proof {
            assert forall|other: u64| self@.processes.contains_key(other) implies other
                < self@.sequence by {
                assert(old(self)@.processes.contains_key(other));
            }
        }
    }
}

} // verus!
