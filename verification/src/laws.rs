//! What holds of every step of every reactor.

use vstd::prelude::*;
use crate::order::{lemma_ascending, lemma_position_bound};
use crate::process::Process;
use crate::reactor::{is_run, lemma_run_prefix, Model, Moment, Outcome};
use crate::random::LATTICE;
use crate::selection::{
    lemma_selected_is_live, lemma_selection_exists, lemma_selection_is, scaled, total_rate,
};
use crate::sums::{lemma_prefix_sum_bound, lemma_prefix_sum_monotonic, lemma_sum_of_zeros};

verus! {

/// The total rate is 0 exactly when every registered process has rate 0.
pub proof fn lemma_total_is_zero<S, P: Process<S>>(model: Model<P>, state: S)
    ensures
        total_rate(model.rates(state)) == 0 <==> forall|id: u64|
            model.processes.contains_key(id) ==> model.processes[id].rate_of(&state) == 0,
{
    let ids = model.ids();
    let rates = model.rates(state);
    lemma_ascending(model.processes.dom());
    if total_rate(rates) == 0 {
        assert forall|id: u64| model.processes.contains_key(id) implies model.processes[id].rate_of(
            &state,
        ) == 0 by {
            let i = choose|i: int| 0 <= i < ids.len() && ids[i] == id;
            lemma_prefix_sum_monotonic(rates, i + 1, rates.len() as int);
            lemma_prefix_sum_monotonic(rates, 0, i);
            assert(rates[i] == model.processes[id].rate_of(&state));
        }
    }
    if forall|id: u64|
        model.processes.contains_key(id) ==> model.processes[id].rate_of(&state) == 0 {
        lemma_sum_of_zeros(rates, rates.len() as int);
    }
}

/// The total rate of a registry fits in 128 bits.
pub proof fn lemma_total_fits<S, P: Process<S>>(model: Model<P>, state: S)
    ensures
        total_rate(model.rates(state)) <= u128::MAX,
{
    let ids = model.ids();
    let rates = model.rates(state);
    lemma_ascending(model.processes.dom());
    lemma_prefix_sum_bound(rates, rates.len() as int);
    if ids.len() > 0 {
        lemma_position_bound(ids, ids.len() - 1);
    }
    assert(rates.len() * 0xFFFF_FFFF_FFFF_FFFF <= 0x1_0000_0000_0000_0000 * 0xFFFF_FFFF_FFFF_FFFF)
        by (nonlinear_arith)
        requires
            rates.len() <= 0x1_0000_0000_0000_0000,
    ;
}

/// When every registered process has rate 0, a step fires nothing. It leaves
/// the state, the registry and the random source as they are, and still
/// counts as a step.
pub proof fn lemma_quiescence<S, P: Process<S>>(
    model: Model<P>,
    state: S,
    next: Model<P>,
    after: S,
    outcome: Outcome,
)
    requires
        forall|id: u64|
            model.processes.contains_key(id) ==> model.processes[id].rate_of(&state) == 0,
        model.steps_to(state, next, after, outcome),
    ensures
        outcome == Outcome::Quiescent,
        after == state,
        next == (Model { steps: model.steps + 1, ..model }),
{
    lemma_total_is_zero(model, state);
}

/// When the total rate is positive, a step reports the firing of one
/// registered process whose rate is positive, the total rate as it was, and a
/// waiting-time variate strictly between 0 and 1, so that the time that
/// passes is positive and finite.
pub proof fn lemma_one_fires<S, P: Process<S>>(model: Model<P>, state: S)
    requires
        total_rate(model.rates(state)) > 0,
    ensures
        model.outcome(state) matches Outcome::Fired { id, total_rate: total, waiting } && {
            &&& model.processes.contains_key(id)
            &&& model.processes[id].rate_of(&state) > 0
            &&& total == total_rate(model.rates(state))
            &&& 0 < waiting < LATTICE
        },
{
    let ids = model.ids();
    let rates = model.rates(state);
    let total = total_rate(rates);
    let target = scaled(model.generator.advanced().point(), total);
    lemma_ascending(model.processes.dom());
    lemma_total_fits(model, state);
    lemma_scaled_is_below(model.generator.advanced().point(), total);
    let i = lemma_selection_exists(rates, target);
    lemma_selection_is(rates, target, i);
    lemma_selected_is_live(rates, target, i);
}

/// A selection target lies below the total rate it was scaled to.
pub proof fn lemma_scaled_is_below(point: nat, total: nat)
    requires
        point < LATTICE,
        total > 0,
    ensures
        scaled(point, total) < total,
{
    assert((point * total) / 0x20_0000_0000_0000 < total) by (nonlinear_arith)
        requires
            point < 0x20_0000_0000_0000,
            total > 0,
    ;
}

/// A step that fires leaves every registration but that of the fired
/// process, and the set of registered ids, as they were, and lets the fired
/// process act on the state once: never none, never more than one.
pub proof fn lemma_only_one_changes<S, P: Process<S>>(
    model: Model<P>,
    state: S,
    next: Model<P>,
    after: S,
    outcome: Outcome,
)
    requires
        model.steps_to(state, next, after, outcome),
        outcome is Fired,
    ensures
        model.processes.contains_key(outcome->id),
        next.processes.dom() == model.processes.dom(),
        forall|other: u64|
            model.processes.contains_key(other) && other != outcome->id ==> next.processes[other]
                == model.processes[other],
        model.processes[outcome->id].fires(&state, &next.processes[outcome->id], &after),
{
    lemma_one_fires(model, state);
    assert(next.processes.dom() =~= model.processes.dom());
}

/// Every step adds exactly one to the step counter, whatever it does, and
/// leaves the sequence counter and the set of registered ids as they are.
pub proof fn lemma_step_counts<S, P: Process<S>>(
    model: Model<P>,
    state: S,
    next: Model<P>,
    after: S,
    outcome: Outcome,
)
    requires
        model.steps_to(state, next, after, outcome),
    ensures
        next.steps == model.steps + 1,
        next.sequence == model.sequence,
        next.processes.dom() == model.processes.dom(),
        model.valid() ==> next.valid(),
{
    if outcome is Fired {
        lemma_only_one_changes(model, state, next, after, outcome);
    }
}

/// Whether `process` sees of a state only its `picture`, and settles from it
/// what firing leaves behind: the process as it will be, and the picture of
/// the state as it will be.
pub open spec fn is_determined_by<S, P: Process<S>, T>(
    process: P,
    picture: spec_fn(S) -> T,
) -> bool {
    &&& forall|state: S, other: S|
        picture(state) == picture(other) ==> #[trigger] process.rate_of(&state)
            == #[trigger] process.rate_of(&other)
    &&& forall|state: S, other: S, next: P, after: S, other_next: P, other_after: S|
        picture(state) == picture(other) && #[trigger] process.fires(&state, &next, &after)
            && #[trigger] process.fires(&other, &other_next, &other_after) ==> next == other_next
            && picture(after) == picture(other_after)
}

/// A step is determined by where it starts: two steps from the same model,
/// under states with the same picture, report the same outcome and lead to
/// the same model and to states with the same picture, where every registered
/// process is determined by the picture.
pub proof fn lemma_step_is_determined<S, P: Process<S>, T>(
    picture: spec_fn(S) -> T,
    model: Model<P>,
    state: S,
    next: Model<P>,
    after: S,
    outcome: Outcome,
    other_state: S,
    other_next: Model<P>,
    other_after: S,
    other_outcome: Outcome,
)
    requires
        picture(state) == picture(other_state),
        forall|id: u64|
            model.processes.contains_key(id) ==> is_determined_by(
                #[trigger] model.processes[id],
                picture,
            ),
        model.steps_to(state, next, after, outcome),
        model.steps_to(other_state, other_next, other_after, other_outcome),
    ensures
        outcome == other_outcome,
        next == other_next,
        picture(after) == picture(other_after),
{
    lemma_ascending(model.processes.dom());
    assert(model.rates(state) =~= model.rates(other_state)) by {
        assert forall|i: int| 0 <= i < model.ids().len() implies model.rates(state)[i]
            == model.rates(other_state)[i] by {
            let process = model.processes[model.ids()[i]];
            assert(is_determined_by(process, picture));
            assert(process.rate_of(&state) == process.rate_of(&other_state));
        }
    }
    if outcome is Fired {
        let id = outcome->id;
        lemma_only_one_changes(model, state, next, after, outcome);
        lemma_only_one_changes(model, other_state, other_next, other_after, other_outcome);
        let process = model.processes[id];
        assert(is_determined_by(process, picture));
        assert(process.fires(&state, &next.processes[id], &after));
        assert(process.fires(&other_state, &other_next.processes[id], &other_after));
        assert(next.processes =~= other_next.processes);
    }
}

/// A run is determined by where it starts: two runs of equal length from the
/// same model, under states with the same picture, report the same outcomes
/// and pass through the same models and through states with the same
/// pictures, where every process of the reactor's kind is determined by the
/// picture.
pub proof fn lemma_run_is_determined<S, P: Process<S>, T>(
    picture: spec_fn(S) -> T,
    model: Model<P>,
    state: S,
    run: Seq<Moment<S, P>>,
    other_state: S,
    other: Seq<Moment<S, P>>,
)
    requires
        picture(state) == picture(other_state),
        forall|process: P| #[trigger] is_determined_by(process, picture),
        is_run(model, state, run),
        is_run(model, other_state, other),
        run.len() == other.len(),
    ensures
        forall|i: int|
            0 <= i < run.len() ==> {
                &&& (#[trigger] run[i]).model == other[i].model
                &&& run[i].outcome == other[i].outcome
                &&& picture(run[i].state) == picture(other[i].state)
            },
    decreases run.len(),
{
    if run.len() > 0 {
        let n = run.len() - 1;
        lemma_run_prefix(model, state, run, n);
        lemma_run_prefix(model, other_state, other, n);
        lemma_run_is_determined(picture, model, state, run.take(n), other_state, other.take(n));
        if n == 0 {
            lemma_step_is_determined(
                picture,
                model,
                state,
                run[0].model,
                run[0].state,
                run[0].outcome,
                other_state,
                other[0].model,
                other[0].state,
                other[0].outcome,
            );
        } else {
            assert(run.take(n)[n - 1] == run[n - 1]);
            assert(other.take(n)[n - 1] == other[n - 1]);
            assert(run[n - 1].model.steps_to(
                run[n - 1].state,
                run[n].model,
                run[n].state,
                run[n].outcome,
            ));
            assert(other[n - 1].model.steps_to(
                other[n - 1].state,
                other[n].model,
                other[n].state,
                other[n].outcome,
            ));
            lemma_step_is_determined(
                picture,
                run[n - 1].model,
                run[n - 1].state,
                run[n].model,
                run[n].state,
                run[n].outcome,
                other[n - 1].state,
                other[n].model,
                other[n].state,
                other[n].outcome,
            );
        }
        assert forall|i: int| 0 <= i < run.len() implies {
            &&& (#[trigger] run[i]).model == other[i].model
            &&& run[i].outcome == other[i].outcome
            &&& picture(run[i].state) == picture(other[i].state)
        } by {
            if i < n {
                assert(run.take(n)[i] == run[i]);
                assert(other.take(n)[i] == other[i]);
            }
        }
    }
}

/// Whether `after` is what one operation of a reactor makes of `before`:
/// a registration, a removal, or a step under some state.
pub open spec fn is_operation<S, P: Process<S>>(before: Model<P>, after: Model<P>) -> bool {
    ||| exists|process: P| after == #[trigger] before.added(process).0
    ||| exists|id: u64| after == #[trigger] before.removed(id)
    ||| exists|state: S, left: S, outcome: Outcome|
        #[trigger] before.steps_to(state, after, left, outcome)
}

/// Whether each model of `models` is what one operation makes of the model
/// before it.
pub open spec fn is_history<S, P: Process<S>>(models: Seq<Model<P>>) -> bool {
    forall|i: int|
        0 <= i < models.len() - 1 ==> is_operation::<S, P>(#[trigger] models[i], models[i + 1])
}

/// No operation lowers the sequence counter, and none breaks the rule that
/// registered ids lie below it.
pub proof fn lemma_operation_keeps<S, P: Process<S>>(before: Model<P>, after: Model<P>)
    requires
        is_operation::<S, P>(before, after),
    ensures
        before.sequence <= after.sequence,
        before.valid() && before.sequence < u64::MAX ==> after.valid(),
{
    if exists|state: S, left: S, outcome: Outcome|
        #[trigger] before.steps_to(state, after, left, outcome) {
        let (state, left, outcome) = choose|state: S, left: S, outcome: Outcome|
            #[trigger] before.steps_to(state, after, left, outcome);
        lemma_step_counts(before, state, after, left, outcome);
    }
}

/// Over a history the sequence counter never falls.
pub proof fn lemma_sequence_never_falls<S, P: Process<S>>(models: Seq<Model<P>>, i: int, j: int)
    requires
        is_history::<S, P>(models),
        0 <= i <= j < models.len(),
    ensures
        models[i].sequence <= models[j].sequence,
    decreases j - i,
{
    if i < j {
        lemma_sequence_never_falls::<S, P>(models, i, j - 1);
        lemma_operation_keeps::<S, P>(models[j - 1], models[j]);
    }
}

/// Two registrations at different points of a history are given different
/// ids, whatever was removed or stepped in between: the later registration
/// gets the larger id, as long as the sequence counter has not run out of
/// ids to hand out.
pub proof fn lemma_ids_are_unique<S, P: Process<S>>(
    models: Seq<Model<P>>,
    i: int,
    j: int,
    first: P,
    second: P,
)
    requires
        is_history::<S, P>(models),
        0 <= i < j < models.len() - 1,
        models[i + 1] == models[i].added(first).0,
        models[j + 1] == models[j].added(second).0,
        models[j].sequence <= u64::MAX,
    ensures
        models[i].added(first).1 < models[j].added(second).1,
{
    lemma_sequence_never_falls::<S, P>(models, i + 1, j);
    lemma_sequence_never_falls::<S, P>(models, i, j);
}

/// The id that a registration is given is not registered at that point, and
/// names the new process afterwards.
pub proof fn lemma_added_id_is_fresh<P>(model: Model<P>, process: P)
    requires
        model.valid(),
        model.sequence <= u64::MAX,
    ensures
        !model.processes.contains_key(model.added(process).1),
        model.added(process).0.processes.contains_key(model.added(process).1),
        model.added(process).0.processes[model.added(process).1] == process,
{
}

/// Removal is idempotent, and removing an id that is not registered changes
/// nothing.
pub proof fn lemma_removal_is_idempotent<P>(model: Model<P>, id: u64)
    ensures
        model.removed(id).removed(id) == model.removed(id),
        !model.processes.contains_key(id) ==> model.removed(id) == model,
{
    assert(model.removed(id).processes.remove(id) =~= model.removed(id).processes);
    if !model.processes.contains_key(id) {
        assert(model.processes.remove(id) =~= model.processes);
    }
}

} // verus!
