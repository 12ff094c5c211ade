//! Short runs of the example systems, recorded frame by frame.

use vstd::prelude::*;
use crate::laws::{is_determined_by, lemma_one_fires, lemma_only_one_changes, lemma_total_is_zero};
use crate::order::lemma_ascending_unique;
use crate::process::Process;
use crate::reactor::{is_run, lemma_run_extends, Model, Moment, Outcome, Reactor};
use crate::selection::total_rate;
use crate::sums::{lemma_sum_of_zeros, prefix_sum, sum};
use crate::systems::{constant, diffusion, dimer};

verus! {

/// What a run shows of a reactor and its state at one point: before the
/// first step, or after one of the steps.
#[derive(Debug)]
pub struct Frame {
    /// The steps taken so far.
    pub steps: u64,
    /// The id that the next registration would be given.
    pub sequence: u64,
    /// The number of registered processes.
    pub registered: usize,
    /// What the step that led here did; `None` before the first step.
    pub outcome: Option<Outcome>,
    /// The values that the state holds.
    pub values: Vec<u64>,
}

impl Frame {
    /// Whether the step that led here fired a process with an id below
    /// `bound`.
    pub open spec fn fired_below(self, bound: u64) -> bool {
        self.outcome matches Some(Outcome::Fired { id, .. }) && id < bound
    }

    /// Whether the step that led here fired the process `id`.
    pub open spec fn fired(self, id: u64) -> bool {
        self.outcome matches Some(Outcome::Fired { id: fired, .. }) && fired == id
    }

    /// Whether the step that led here fired a process out of a total rate of
    /// `total`.
    pub open spec fn fired_out_of(self, total: u128) -> bool {
        self.outcome matches Some(Outcome::Fired { total_rate, .. }) && total_rate == total
    }

    /// Whether the frame shows `model` with a state that holds `values`,
    /// reached as `outcome` says.
    pub open spec fn shows<P>(
        self,
        model: Model<P>,
        values: Seq<u64>,
        outcome: Option<Outcome>,
    ) -> bool {
        &&& self.steps == model.steps
        &&& self.sequence == model.sequence
        &&& self.registered == model.processes.len()
        &&& self.outcome == outcome
        &&& self.values@ == values
    }
}

/// A state that nothing changes.
#[derive(Debug)]
pub struct Static;

/// A process with a fixed rate that leaves every state as it is.
pub struct Steady {
    pub rate: u64,
}

impl<S> Process<S> for Steady {
    open spec fn admits(&self, state: &S) -> bool {
        true
    }

    open spec fn rate_of(&self, state: &S) -> u64 {
        self.rate
    }

    open spec fn fires(&self, state: &S, next: &Self, after: &S) -> bool {
        next == self && after == state
    }

    fn rate(&self, state: &S) -> (rate: u64) {
        self.rate
    }

    fn perform(&mut self, state: &mut S) {
    }
}

/// A steady process is determined by the state itself.
pub proof fn lemma_steady_is_determined<S>(process: Steady)
    ensures
        is_determined_by(process, |state: S| state),
{
}

/// The model of the basic example at each of its four frames, with what
/// the step that led there did.
///
/// The first step is taken by a fresh reactor. Three steady processes with
/// rates of 13, 958 and 225 hundredths of an event per unit of time are
/// registered before the second step, and the second of them is removed
/// before the third step.
pub open spec fn basic_frames(seed: u128) -> Seq<(Model<Steady>, Option<Outcome>)> {
    let fresh = Model::<Steady>::initial(seed);
    let first = fresh.stepped(fresh.outcome(Static));
    let filled = first.added(Steady { rate: 13 }).0.added(Steady { rate: 958 }).0.added(
        Steady { rate: 225 },
    ).0;
    let second = filled.stepped(filled.outcome(Static));
    let thinned = second.removed(1);
    let third = thinned.stepped(thinned.outcome(Static));
    seq![
        (fresh, None),
        (first, Some(fresh.outcome(Static))),
        (second, Some(filled.outcome(Static))),
        (third, Some(thinned.outcome(Static))),
    ]
}

/// Runs the basic example: one step of an empty reactor, one step with three
/// steady processes registered, and one step after the second of them was
/// removed.
///
/// The first step is quiescent. The second fires one of the three out of a
/// total rate of 1196, the third one of the two that are left out of a total
/// rate of 238.
pub fn basic(seed: u128) -> (frames: Vec<Frame>)
    ensures
        frames@.len() == 4,
        forall|n: int|
            0 <= n < 4 ==> (#[trigger] frames[n]).shows(
                basic_frames(seed)[n].0,
                Seq::empty(),
                basic_frames(seed)[n].1,
            ),
        frames[1].outcome == Some(Outcome::Quiescent),
        frames[2].fired_below(3) && frames[2].fired_out_of(1196),
        (frames[3].fired(0) || frames[3].fired(2)) && frames[3].fired_out_of(238),
{
    let mut state = Static;
    let mut reactor: Reactor<Static, Steady> = Reactor::new(seed);
    let mut frames: Vec<Frame> = Vec::new();
    frames.push(frame_of(&reactor, None, Vec::new()));

    let ghost fresh = reactor@;
    proof {
        lemma_total_is_zero(fresh, state);
    }
    let outcome = reactor.step(&mut state);
    frames.push(frame_of(&reactor, Some(outcome), Vec::new()));

    reactor.add(Steady { rate: 13 });
    let pid = reactor.add(Steady { rate: 958 });
    reactor.add(Steady { rate: 225 });
    let ghost filled = reactor@;
    proof {
        let ids = seq![0u64, 1u64, 2u64];
        assert forall|id: u64| filled.processes.dom().contains(id) implies ids.contains(id) by {
            assert(ids[id as int] == id);
        }
        lemma_ascending_unique(ids, filled.processes.dom());
        assert(filled.rates(state) =~= seq![13u64, 958u64, 225u64]);
        reveal_with_fuel(prefix_sum, 4);
        lemma_one_fires(filled, state);
    }
    let outcome = reactor.step(&mut state);
    proof {
        lemma_only_one_changes(filled, Static, reactor@, state, outcome);
        assert(reactor@.processes =~= filled.processes);
    }
    frames.push(frame_of(&reactor, Some(outcome), Vec::new()));

    reactor.remove(pid);
    let ghost thinned = reactor@;
    proof {
        let ids = seq![0u64, 2u64];
        assert forall|id: u64| thinned.processes.dom().contains(id) implies ids.contains(id) by {
            if id == 0 {
                assert(ids[0] == id);
            } else {
                assert(ids[1] == id);
            }
        }
        lemma_ascending_unique(ids, thinned.processes.dom());
        assert(thinned.rates(state) =~= seq![13u64, 225u64]);
        reveal_with_fuel(prefix_sum, 3);
        lemma_one_fires(thinned, state);
    }
    let outcome = reactor.step(&mut state);
    proof {
        lemma_only_one_changes(thinned, Static, reactor@, state, outcome);
        assert(reactor@.processes =~= thinned.processes);
    }
    frames.push(frame_of(&reactor, Some(outcome), Vec::new()));
    frames
}

/// The frame of a reactor whose state holds `values`, reached as `outcome`
/// says.
fn frame_of<S, P: Process<S>>(
    reactor: &Reactor<S, P>,
    outcome: Option<Outcome>,
    values: Vec<u64>,
) -> (frame: Frame)
    ensures
        frame.shows(reactor@, values@, outcome),
{
    Frame {
        steps: reactor.steps(),
        sequence: reactor.sequence(),
        registered: reactor.len(),
        outcome,
        values,
    }
}

/// The rates of the constant example, in halves of an event per unit of
/// time.
pub open spec fn constant_rates() -> Seq<u64> {
    seq![1u64, 4u64, 10u64]
}

/// Whether `frames` records `run`, a run that starts from `model` and
/// `start`: the frame before the first step in front, then one frame for each
/// step. `values` says which values a frame shows of a state.
pub open spec fn records<S, P: Process<S>>(
    frames: Seq<Frame>,
    model: Model<P>,
    start: S,
    run: Seq<Moment<S, P>>,
    values: spec_fn(S) -> Seq<u64>,
) -> bool {
    &&& is_run(model, start, run)
    &&& frames.len() == run.len() + 1
    &&& frames[0].shows(model, values(start), None)
    &&& forall|i: int|
        0 <= i < run.len() ==> (#[trigger] frames[i + 1]).shows(
            run[i].model,
            values(run[i].state),
            Some(run[i].outcome),
        )
}

/// Frames that record a run, with one more frame for one more step, record
/// the longer run.
pub proof fn lemma_records_extend<S, P: Process<S>>(
    frames: Seq<Frame>,
    model: Model<P>,
    start: S,
    run: Seq<Moment<S, P>>,
    values: spec_fn(S) -> Seq<u64>,
    frame: Frame,
    moment: Moment<S, P>,
)
    requires
        records(frames, model, start, run, values),
        if run.len() == 0 {
            model.steps_to(start, moment.model, moment.state, moment.outcome)
        } else {
            run.last().model.steps_to(run.last().state, moment.model, moment.state, moment.outcome)
        },
        frame.shows(moment.model, values(moment.state), Some(moment.outcome)),
    ensures
        records(frames.push(frame), model, start, run.push(moment), values),
{
    lemma_run_extends(model, start, run, moment);
    let longer = frames.push(frame);
    let more = run.push(moment);
    assert forall|i: int| 0 <= i < more.len() implies (#[trigger] longer[i + 1]).shows(
        more[i].model,
        values(more[i].state),
        Some(more[i].outcome),
    ) by {
        if i < run.len() {
            assert(longer[i + 1] == frames[i + 1]);
        }
    }
}

/// Whether `frames` records `run` as a run of the constant example from
/// `start`, showing the counters.
pub open spec fn records_constant(
    frames: Seq<Frame>,
    seed: u128,
    start: constant::State,
    run: Seq<Moment<constant::State, constant::IncrementingProcess>>,
) -> bool {
    &&& start.counts@ == Seq::new(3, |i: int| 0u64)
    &&& records(
        frames,
        constant::system(seed, constant_rates()),
        start,
        run,
        |state: constant::State| state.counts@,
    )
}

/// Runs the constant example for 9 steps: three counting processes with
/// rates in the proportion 1 : 4 : 10.
///
/// Every step fires one of the three, so after `n` steps the counters sum to
/// `n`.
pub fn constant(seed: u128) -> (frames: Vec<Frame>)
    ensures
        frames@.len() == 10,
        exists|
            start: constant::State,
            run: Seq<Moment<constant::State, constant::IncrementingProcess>>,
        |
            records_constant(frames@, seed, start, run),
        forall|n: int|
            0 <= n < 10 ==> {
                &&& (#[trigger] frames[n]).steps == n
                &&& frames[n].values@.len() == 3
                &&& constant::fired(frames[n].values@) == n
            },
        forall|n: int|
            1 <= n < 10 ==> (#[trigger] frames[n]).fired_below(3) && frames[n].fired_out_of(15),
{
    let rates: Vec<u64> = vec![1, 4, 10];
    assert(rates@ =~= constant_rates());
    let (mut reactor, mut state) = constant::create(seed, rates.as_slice());
    let ghost start = state;
    let ghost mut run: Seq<Moment<constant::State, constant::IncrementingProcess>> = Seq::empty();
    let mut frames: Vec<Frame> = Vec::new();
    proof {
        lemma_sum_of_zeros(state.counts@, 3);
    }
    frames.push(frame_of(&reactor, None, state.counts.clone()));
    let mut n: u64 = 0;
    while n < 9
        invariant
            n <= 9,
            reactor@.valid(),
            reactor@.steps == n,
            reactor@.sequence == 3,
            reactor@.processes == constant::registry(constant_rates()),
            state.counts@.len() == 3,
            constant::fired(state.counts@) == n,
            run.len() == n,
            n > 0 ==> run[n - 1].model == reactor@ && run[n - 1].state == state,
            n == 0 ==> reactor@ == constant::system(seed, constant_rates()) && state == start,
            records_constant(frames@, seed, start, run),
            forall|k: int|
                0 <= k <= n ==> {
                    &&& (#[trigger] frames[k]).steps == k
                    &&& frames[k].values@.len() == 3
                    &&& constant::fired(frames[k].values@) == k
                },
            forall|k: int|
                1 <= k <= n ==> (#[trigger] frames[k]).fired_below(3) && frames[k].fired_out_of(15),
        decreases 9 - n,
    {
        let ghost before = reactor@;
        let ghost held = state;
        proof {
            constant::lemma_admits(before, constant_rates(), state);
        }
        let outcome = reactor.step(&mut state);
        proof {
            lemma_fifteen();
            constant::lemma_step_counts_one(
                before,
                constant_rates(),
                held,
                reactor@,
                state,
                outcome,
            );
        }
        let frame = frame_of(&reactor, Some(outcome), state.counts.clone());
        proof {
            let moment = Moment { model: reactor@, state, outcome };
            lemma_records_extend(
                frames@,
                constant::system(seed, constant_rates()),
                start,
                run,
                |state: constant::State| state.counts@,
                frame,
                moment,
            );
            run = run.push(moment);
        }
        frames.push(frame);
        n = n + 1;
    }
    frames
}

/// Whether `frames` records `run` as a run of the dimerization example from
/// `system` and `start`, showing the concentrations.
pub open spec fn records_dimer(
    frames: Seq<Frame>,
    seed: u128,
    system: Model<dimer::Reaction>,
    start: dimer::State,
    run: Seq<Moment<dimer::State, dimer::Reaction>>,
) -> bool {
    &&& dimer::is_system(system, seed, 2, 1)
    &&& start.concentrations@ == seq![10u64, 10u64, 0u64]
    &&& records(frames, system, start, run, |state: dimer::State| state.concentrations@)
}

/// Runs the dimerization example for 99 steps: `A + B -> AB` with rate
/// constant 2 and `AB -> A + B` with rate constant 1, from 10 of `A`, 10 of
/// `B` and no `AB`.
///
/// Every step fires one of the two reactions, and every frame keeps the
/// conservation law: `A + AB == 10` and `B + AB == 10`.
pub fn dimer(seed: u128) -> (frames: Vec<Frame>)
    ensures
        frames@.len() == 100,
        exists|
            system: Model<dimer::Reaction>,
            start: dimer::State,
            run: Seq<Moment<dimer::State, dimer::Reaction>>,
        |
            records_dimer(frames@, seed, system, start, run),
        forall|n: int|
            0 <= n < 100 ==> {
                &&& (#[trigger] frames[n]).steps == n
                &&& dimer::conserved(frames[n].values@, 10, 10)
            },
        forall|n: int| 1 <= n < 100 ==> (#[trigger] frames[n]).fired_below(2),
{
    let concentrations: Vec<u64> = vec![10, 10, 0];
    assert(concentrations@ =~= seq![10u64, 10u64, 0u64]);
    let (mut reactor, mut state) = dimer::create(seed, 2, 1, concentrations.as_slice());
    let ghost start = state;
    let ghost system = reactor@;
    let ghost mut run: Seq<Moment<dimer::State, dimer::Reaction>> = Seq::empty();
    let mut frames: Vec<Frame> = Vec::new();
    frames.push(frame_of(&reactor, None, state.concentrations.clone()));
    let mut n: u64 = 0;
    while n < 99
        invariant
            n <= 99,
            reactor@.valid(),
            reactor@.steps == n,
            dimer::is_registry(reactor@.processes, 2, 1),
            dimer::conserved(state.concentrations@, 10, 10),
            run.len() == n,
            n > 0 ==> run[n - 1].model == reactor@ && run[n - 1].state == state,
            n == 0 ==> reactor@ == system && state == start,
            records_dimer(frames@, seed, system, start, run),
            forall|k: int|
                0 <= k <= n ==> {
                    &&& (#[trigger] frames[k]).steps == k
                    &&& dimer::conserved(frames[k].values@, 10, 10)
                },
            forall|k: int| 1 <= k <= n ==> (#[trigger] frames[k]).fired_below(2),
        decreases 99 - n,
    {
        let ghost before = reactor@;
        let ghost held = state;
        proof {
            assert(dimer::bounded(2, 1, 10, 10));
            dimer::lemma_rates(before, 2, 1, state, 10, 10);
            dimer::lemma_never_quiescent(before, 2, 1, state, 10, 10);
            lemma_one_fires(before, state);
        }
        let outcome = reactor.step(&mut state);
        proof {
            dimer::lemma_step_conserves(before, 2, 1, held, 10, 10, reactor@, state, outcome);
        }
        let frame = frame_of(&reactor, Some(outcome), state.concentrations.clone());
        proof {
            let moment = Moment { model: reactor@, state, outcome };
            lemma_records_extend(
                frames@,
                system,
                start,
                run,
                |state: dimer::State| state.concentrations@,
                frame,
                moment,
            );
            run = run.push(moment);
        }
        frames.push(frame);
        n = n + 1;
    }
    frames
}

/// Whether `frames` records `run` as a run of the diffusion example from
/// `start`, showing the row of cells.
pub open spec fn records_diffusion(
    frames: Seq<Frame>,
    seed: u128,
    periodic: bool,
    start: diffusion::Lattice,
    run: Seq<Moment<diffusion::Lattice, diffusion::Diffusion>>,
) -> bool {
    &&& start@ == diffusion::all_in_first(10, 10_000)
    &&& records(
        frames,
        diffusion::system(seed, 5, 10, periodic),
        start,
        run,
        |state: diffusion::Lattice| state@[0],
    )
}

/// Runs the diffusion example for 101 steps: a row of 10 cells with 10000
/// particles in the first, and hops between neighbours with rate constant 5.
/// With `periodic` a particle at a wall may hop to the other end; otherwise
/// it bounces back.
///
/// Every step fires a hop, and every frame holds all 10000 particles.
pub fn diffusion(seed: u128, periodic: bool) -> (frames: Vec<Frame>)
    ensures
        frames@.len() == 102,
        exists|
            start: diffusion::Lattice,
            run: Seq<Moment<diffusion::Lattice, diffusion::Diffusion>>,
        |
            records_diffusion(frames@, seed, periodic, start, run),
        forall|n: int|
            0 <= n < 102 ==> {
                &&& (#[trigger] frames[n]).steps == n
                &&& frames[n].values@.len() == 10
                &&& sum(frames[n].values@) == 10_000
            },
        forall|n: int| 1 <= n < 102 ==> (#[trigger] frames[n]).fired_below(20),
{
    let (mut reactor, mut state) = diffusion::create(seed, 5, 10, 10_000, periodic);
    let ghost start = state;
    let ghost mut run: Seq<Moment<diffusion::Lattice, diffusion::Diffusion>> = Seq::empty();
    let ghost system = diffusion::system(seed, 5, 10, periodic);
    let mut frames: Vec<Frame> = Vec::new();
    proof {
        lemma_all_in_first(state@[0], 10, 10_000);
    }
    frames.push(frame_of(&reactor, None, state.row(0)));
    let mut n: u64 = 0;
    loop
        invariant
            n <= 101,
            reactor@.valid(),
            reactor@.steps == n,
            reactor@.processes == system.processes,
            system == diffusion::system(seed, 5, 10, periodic),
            diffusion::holds(state@, 10, 10_000),
            run.len() == n,
            n > 0 ==> run[n - 1].model == reactor@ && run[n - 1].state == state,
            n == 0 ==> reactor@ == system && state == start,
            records_diffusion(frames@, seed, periodic, start, run),
            forall|k: int|
                0 <= k <= n ==> {
                    &&& (#[trigger] frames[k]).steps == k
                    &&& frames[k].values@.len() == 10
                    &&& sum(frames[k].values@) == 10_000
                },
            forall|k: int| 1 <= k <= n ==> (#[trigger] frames[k]).fired_below(20),
        ensures
            n == 101,
        decreases 101 - n,
    {
        if reactor.steps() > 100 {
            break ;
        }
        let ghost before = reactor@;
        let ghost held = state;
        proof {
            diffusion::lemma_admits(before, 5, 10, periodic, state, 10_000);
            diffusion::lemma_never_quiescent(before, 5, 10, periodic, state, 10_000);
            lemma_one_fires(before, state);
        }
        let outcome = reactor.step(&mut state);
        proof {
            diffusion::lemma_step_conserves(
                before,
                5,
                10,
                periodic,
                held,
                10_000,
                reactor@,
                state,
                outcome,
            );
        }
        let frame = frame_of(&reactor, Some(outcome), state.row(0));
        proof {
            let moment = Moment { model: reactor@, state, outcome };
            lemma_records_extend(
                frames@,
                system,
                start,
                run,
                |state: diffusion::Lattice| state@[0],
                frame,
                moment,
            );
            run = run.push(moment);
        }
        frames.push(frame);
        n = n + 1;
    }
    frames
}

/// A row that holds particles in its first cell only holds as many as that
/// cell does.
proof fn lemma_all_in_first(row: Seq<u64>, size: nat, start: u64)
    requires
        size > 0,
        row == diffusion::all_in_first(size, start)[0],
    ensures
        sum(row) == start,
{
    let zeros = row.update(0, 0);
    lemma_sum_of_zeros(zeros, zeros.len() as int);
    if start > 0 {
        lemma_first_cell(zeros, row, start as nat, row.len() as int);
    } else {
        assert(row =~= zeros);
    }
}

proof fn lemma_first_cell(zeros: Seq<u64>, row: Seq<u64>, start: nat, n: int)
    requires
        0 < n <= row.len(),
        zeros.len() == row.len(),
        row[0] == start,
        zeros[0] == 0,
        forall|i: int| 0 < i < row.len() ==> row[i] == zeros[i],
    ensures
        prefix_sum(row, n) == prefix_sum(zeros, n) + start,
    decreases n,
{
    if n > 1 {
        lemma_first_cell(zeros, row, start, n - 1);
    } else {
        assert(prefix_sum(row, 0) == 0);
        assert(prefix_sum(zeros, 0) == 0);
    }
}

proof fn lemma_fifteen()
    ensures
        total_rate(constant_rates()) == 15,
{
    reveal_with_fuel(prefix_sum, 4);
}

} // verus!
