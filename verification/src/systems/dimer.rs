//! Reactions that turn counted reactants into counted products, as in the
//! dimerization `A + B -> AB` and its reverse.

use vstd::prelude::*;
use vstd::slice::slice_to_vec;
use crate::laws::{is_determined_by, lemma_one_fires, lemma_only_one_changes};
use crate::order::lemma_ascending_unique;
use crate::process::Process;
use crate::random::RandomSource;
use crate::reactor::{is_run, lemma_run_prefix, Model, Moment, Outcome, Reactor};
use crate::selection::total_rate;
use crate::sums::prefix_sum;

verus! {

/// How many there are of each species.
#[derive(Debug)]
pub struct State {
    pub concentrations: Vec<u64>,
}

/// A reaction that uses up one of each reactant and yields one of each
/// product, at a rate of `k` times the concentration of every reactant.
pub struct Reaction {
    pub k: u64,
    pub reactants: Vec<usize>,
    pub products: Vec<usize>,
}

/// How often `species` occurs among the first `n` entries of `list`.
pub open spec fn occurrences(list: Seq<usize>, species: int, n: int) -> nat
    decreases n,
{
    if n <= 0 {
        0
    } else {
        occurrences(list, species, n - 1) + if list[n - 1] == species {
            1nat
        } else {
            0nat
        }
    }
}

/// `k` times the concentrations of the first `n` reactants.
pub open spec fn propensity(k: u64, concentrations: Seq<u64>, reactants: Seq<usize>, n: int) -> nat
    decreases n,
{
    if n <= 0 {
        k as nat
    } else {
        propensity(k, concentrations, reactants, n - 1) * concentrations[reactants[n
            - 1] as int] as nat
    }
}

/// What a reaction makes of the concentration of `species`.
pub open spec fn reacted(
    concentrations: Seq<u64>,
    reactants: Seq<usize>,
    products: Seq<usize>,
    species: int,
) -> int {
    concentrations[species] - occurrences(reactants, species, reactants.len() as int)
        + occurrences(products, species, products.len() as int)
}

impl Reaction {
    /// Whether every reactant and product is a species of the state.
    pub open spec fn in_range(&self, state: &State) -> bool {
        &&& forall|j: int|
            0 <= j < self.reactants@.len() ==> self.reactants@[j] < state.concentrations@.len()
        &&& forall|j: int|
            0 <= j < self.products@.len() ==> self.products@[j] < state.concentrations@.len()
    }

    /// Whether the rate can be computed in 64 bits, factor by factor.
    pub open spec fn computable(&self, state: &State) -> bool {
        forall|n: int|
            0 <= n <= self.reactants@.len() ==> propensity(
                self.k,
                state.concentrations@,
                self.reactants@,
                n,
            ) <= u64::MAX
    }

    /// Whether the state holds the reactants that one firing uses up, and
    /// has room for the products.
    pub open spec fn feasible(&self, state: &State) -> bool {
        forall|species: int|
            0 <= species < state.concentrations@.len() ==> {
                &&& occurrences(self.reactants@, species, self.reactants@.len() as int)
                    <= state.concentrations@[species]
                &&& reacted(state.concentrations@, self.reactants@, self.products@, species)
                    <= u64::MAX
            }
    }
}

impl Process<State> for Reaction {
    open spec fn admits(&self, state: &State) -> bool {
        &&& self.in_range(state)
        &&& self.computable(state)
        &&& self.rate_of(state) > 0 ==> self.feasible(state)
    }

    open spec fn rate_of(&self, state: &State) -> u64 {
        propensity(
            self.k,
            state.concentrations@,
            self.reactants@,
            self.reactants@.len() as int,
        ) as u64
    }

    open spec fn fires(&self, state: &State, next: &Self, after: &State) -> bool {
        &&& next == self
        &&& after.concentrations@.len() == state.concentrations@.len()
        &&& forall|species: int|
            0 <= species < state.concentrations@.len() ==> after.concentrations@[species]
                == reacted(state.concentrations@, self.reactants@, self.products@, species)
    }

    fn rate(&self, state: &State) -> (rate: u64) {
        let mut rate: u64 = self.k;
        let mut j: usize = 0;
        while j < self.reactants.len()
            invariant
                j <= self.reactants@.len(),
                self.in_range(state),
                self.computable(state),
                rate == propensity(self.k, state.concentrations@, self.reactants@, j as int),
            decreases self.reactants@.len() - j,
        {
            assert(propensity(self.k, state.concentrations@, self.reactants@, j + 1) <= u64::MAX);
            rate = rate * state.concentrations[self.reactants[j]];
            j = j + 1;
        }
        rate
    }

    fn perform(&mut self, state: &mut State) {
        let ghost before = state.concentrations@;
        let mut j: usize = 0;
        while j < self.reactants.len()
            invariant
                *self == *old(self),
                j <= self.reactants@.len(),
                self.in_range(old(state)),
                self.feasible(old(state)),
                before == old(state).concentrations@,
                state.concentrations@.len() == before.len(),
                forall|species: int|
                    0 <= species < before.len() ==> state.concentrations@[species]
                        == before[species] - occurrences(self.reactants@, species, j as int),
            decreases self.reactants@.len() - j,
        {
            let species: usize = self.reactants[j];
            proof {
                lemma_occurrences_grow(
                    self.reactants@,
                    species as int,
                    j + 1,
                    self.reactants@.len() as int,
                );
            }
            state.concentrations[species] -= 1;
            j = j + 1;
        }
        let mut j: usize = 0;
        while j < self.products.len()
            invariant
                *self == *old(self),
                j <= self.products@.len(),
                self.in_range(old(state)),
                self.feasible(old(state)),
                before == old(state).concentrations@,
                state.concentrations@.len() == before.len(),
                forall|species: int|
                    0 <= species < before.len() ==> state.concentrations@[species]
                        == before[species] - occurrences(
                        self.reactants@,
                        species,
                        self.reactants@.len() as int,
                    ) + occurrences(self.products@, species, j as int),
            decreases self.products@.len() - j,
        {
            let species: usize = self.products[j];
            proof {
                lemma_occurrences_grow(
                    self.products@,
                    species as int,
                    j + 1,
                    self.products@.len() as int,
                );
            }
            state.concentrations[species] += 1;
            j = j + 1;
        }
    }
}

/// Whether `processes` are the two reactions of a dimerization over the
/// species `A`, `B` and `AB`, in this order: under id 0 the formation
/// `A + B -> AB` with rate constant `k_formation`, under id 1 the
/// dissociation `AB -> A + B` with rate constant `k_dissociation`.
pub open spec fn is_registry(
    processes: Map<u64, Reaction>,
    k_formation: u64,
    k_dissociation: u64,
) -> bool {
    &&& processes.dom() =~= set![0u64, 1u64]
    &&& processes[0].k == k_formation
    &&& processes[0].reactants@ == seq![0usize, 1usize]
    &&& processes[0].products@ == seq![2usize]
    &&& processes[1].k == k_dissociation
    &&& processes[1].reactants@ == seq![2usize]
    &&& processes[1].products@ == seq![0usize, 1usize]
}

/// Whether `model` is a dimerization system that has not taken a step.
pub open spec fn is_system(
    model: Model<Reaction>,
    seed: u128,
    k_formation: u64,
    k_dissociation: u64,
) -> bool {
    &&& model.sequence == 2
    &&& model.steps == 0
    &&& model.generator == RandomSource::seeded(seed)
    &&& is_registry(model.processes, k_formation, k_dissociation)
}

/// The conservation law of a dimerization: there are three species, `a`
/// units of `A` free or bound, and `b` units of `B` free or bound.
pub open spec fn conserved(concentrations: Seq<u64>, a: nat, b: nat) -> bool {
    &&& concentrations.len() == 3
    &&& concentrations[0] + concentrations[2] == a
    &&& concentrations[1] + concentrations[2] == b
}

/// Whether the rates of a dimerization that conserves `a` and `b` can be
/// computed in 64 bits, whatever is bound.
pub open spec fn bounded(k_formation: u64, k_dissociation: u64, a: nat, b: nat) -> bool {
    &&& a <= u64::MAX
    &&& b <= u64::MAX
    &&& k_formation * a * b <= u64::MAX
    &&& k_formation * a <= u64::MAX
    &&& k_dissociation * a <= u64::MAX
}

/// Creates a reactor with the two reactions of a dimerization, the
/// formation `A + B -> AB` first, and a state that holds a copy of
/// `concentrations`.
pub fn create(seed: u128, k_formation: u64, k_dissociation: u64, concentrations: &[u64]) -> (made: (
    Reactor<State, Reaction>,
    State,
))
    ensures
        is_system(made.0@, seed, k_formation, k_dissociation),
        made.0@.valid(),
        made.1.concentrations@ == concentrations@,
{
    let mut reactor: Reactor<State, Reaction> = Reactor::new(seed);
    let state = State { concentrations: slice_to_vec(concentrations) };
    let formation = Reaction { k: k_formation, reactants: vec![0, 1], products: vec![2] };
    proof {
        assert(formation.reactants@ =~= seq![0usize, 1usize]);
        assert(formation.products@ =~= seq![2usize]);
    }
    reactor.add(formation);
    let dissociation = Reaction { k: k_dissociation, reactants: vec![2], products: vec![0, 1] };
    proof {
        assert(dissociation.reactants@ =~= seq![2usize]);
        assert(dissociation.products@ =~= seq![0usize, 1usize]);
    }
    reactor.add(dissociation);
    (reactor, state)
}

/// The rates that a step of a dimerization sees: `k_formation * A * B` for
/// the formation, then `k_dissociation * AB` for the dissociation. Both
/// reactions are defined on every state that keeps the conservation law.
pub proof fn lemma_rates(
    model: Model<Reaction>,
    k_formation: u64,
    k_dissociation: u64,
    state: State,
    a: nat,
    b: nat,
)
    requires
        is_registry(model.processes, k_formation, k_dissociation),
        conserved(state.concentrations@, a, b),
        bounded(k_formation, k_dissociation, a, b),
    ensures
        model.admits(state),
        model.ids() == seq![0u64, 1u64],
        model.rates(state) == seq![
            (k_formation * state.concentrations@[0] * state.concentrations@[1]) as u64,
            (k_dissociation * state.concentrations@[2]) as u64,
        ],
        k_formation * state.concentrations@[0] * state.concentrations@[1] <= u64::MAX,
        k_dissociation * state.concentrations@[2] <= u64::MAX,
{
    let c = state.concentrations@;
    let ids = seq![0u64, 1u64];
    reveal_with_fuel(propensity, 3);
    reveal_with_fuel(occurrences, 3);
    lemma_product_bounds(
        k_formation as nat,
        k_dissociation as nat,
        c[0] as nat,
        c[1] as nat,
        c[2] as nat,
        a,
        b,
    );
    assert forall|id: u64| model.processes.dom().contains(id) implies ids.contains(id) by {
        assert(ids[id as int] == id);
    }
    lemma_ascending_unique(ids, model.processes.dom());
    let formation = model.processes[0];
    let dissociation = model.processes[1];
    assert(formation.rate_of(&state) == k_formation * c[0] * c[1]);
    assert(dissociation.rate_of(&state) == k_dissociation * c[2]);
    assert(formation.admits(&state)) by {
        if formation.rate_of(&state) > 0 {
            assert(c[0] > 0 && c[1] > 0) by (nonlinear_arith)
                requires
                    k_formation * c[0] * c[1] > 0,
            ;
        }
    }
    assert(dissociation.admits(&state)) by {
        if dissociation.rate_of(&state) > 0 {
            assert(c[2] > 0) by (nonlinear_arith)
                requires
                    k_dissociation * c[2] > 0,
            ;
        }
    }
    assert(model.rates(state) =~= seq![
        (k_formation * c[0] * c[1]) as u64,
        (k_dissociation * c[2]) as u64,
    ]);
}

proof fn lemma_product_bounds(kf: nat, kd: nat, x: nat, y: nat, z: nat, a: nat, b: nat)
    by (nonlinear_arith)
    requires
        x + z == a,
        y + z == b,
    ensures
        kf * x <= kf * a,
        kf * x * y <= kf * a * b,
        kd * z <= kd * a,
{
    assert(kf * x <= kf * a);
    assert((kf * x) * y <= (kf * a) * y);
    assert((kf * a) * y <= (kf * a) * b);
}

/// The conservation law: a step of a dimerization leaves the two reactions
/// registered, and keeps `A + AB` and `B + AB` as they were.
pub proof fn lemma_step_conserves(
    model: Model<Reaction>,
    k_formation: u64,
    k_dissociation: u64,
    state: State,
    a: nat,
    b: nat,
    next: Model<Reaction>,
    after: State,
    outcome: Outcome,
)
    requires
        is_registry(model.processes, k_formation, k_dissociation),
        conserved(state.concentrations@, a, b),
        bounded(k_formation, k_dissociation, a, b),
        model.steps_to(state, next, after, outcome),
    ensures
        is_registry(next.processes, k_formation, k_dissociation),
        conserved(after.concentrations@, a, b),
        outcome matches Outcome::Fired { id, .. } ==> id < 2,
{
    reveal_with_fuel(occurrences, 3);
    if outcome is Fired {
        lemma_only_one_changes(model, state, next, after, outcome);
        let id = outcome->id;
        assert(id == 0 || id == 1);
        assert(next.processes[id] == model.processes[id]);
        assert(next.processes =~= model.processes);
    }
}

/// A dimerization with positive rate constants that holds some of both `A`
/// and `B`, free or bound, is never quiescent.
pub proof fn lemma_never_quiescent(
    model: Model<Reaction>,
    k_formation: u64,
    k_dissociation: u64,
    state: State,
    a: nat,
    b: nat,
)
    requires
        is_registry(model.processes, k_formation, k_dissociation),
        conserved(state.concentrations@, a, b),
        bounded(k_formation, k_dissociation, a, b),
        k_formation > 0,
        k_dissociation > 0,
        a > 0,
        b > 0,
    ensures
        total_rate(model.rates(state)) > 0,
{
    let c = state.concentrations@;
    lemma_rates(model, k_formation, k_dissociation, state, a, b);
    reveal_with_fuel(prefix_sum, 3);
    if c[2] > 0 {
        assert(k_dissociation * c[2] > 0) by (nonlinear_arith)
            requires
                k_dissociation > 0,
                c[2] > 0,
        ;
    } else {
        assert(k_formation * c[0] * c[1] > 0) by (nonlinear_arith)
            requires
                k_formation > 0,
                c[0] > 0,
                c[1] > 0,
        ;
    }
}

/// Without formation a dimerization runs dry: where the rate constant of the
/// formation is 0, a step dissociates one `AB` as long as there is one, and
/// is quiescent once there is none.
pub proof fn lemma_dissociation_alone(
    model: Model<Reaction>,
    k_dissociation: u64,
    state: State,
    a: nat,
    b: nat,
    next: Model<Reaction>,
    after: State,
    outcome: Outcome,
)
    requires
        is_registry(model.processes, 0, k_dissociation),
        conserved(state.concentrations@, a, b),
        bounded(0, k_dissociation, a, b),
        k_dissociation > 0,
        model.steps_to(state, next, after, outcome),
    ensures
        is_registry(next.processes, 0, k_dissociation),
        conserved(after.concentrations@, a, b),
        state.concentrations@[2] > 0 ==> outcome is Fired && outcome->id == 1
            && after.concentrations@[2] == state.concentrations@[2] - 1,
        state.concentrations@[2] == 0 ==> outcome is Quiescent && after == state,
{
    let c = state.concentrations@;
    reveal_with_fuel(occurrences, 3);
    reveal_with_fuel(prefix_sum, 3);
    lemma_rates(model, 0, k_dissociation, state, a, b);
    lemma_step_conserves(model, 0, k_dissociation, state, a, b, next, after, outcome);
    assert(0 * c[0] * c[1] == 0) by (nonlinear_arith);
    if c[2] > 0 {
        assert(k_dissociation * c[2] > 0) by (nonlinear_arith)
            requires
                k_dissociation > 0,
                c[2] > 0,
        ;
        lemma_one_fires(model, state);
        lemma_only_one_changes(model, state, next, after, outcome);
    } else {
        assert(k_dissociation * c[2] == 0) by (nonlinear_arith)
            requires
                c[2] == 0,
        ;
    }
}

/// Without formation a dimerization that starts with `c` of `AB` takes
/// exactly `c` steps that dissociate one `AB` each, and is quiescent ever
/// after.
pub proof fn lemma_runs_dry(
    model: Model<Reaction>,
    k_dissociation: u64,
    state: State,
    a: nat,
    b: nat,
    run: Seq<Moment<State, Reaction>>,
)
    requires
        is_registry(model.processes, 0, k_dissociation),
        conserved(state.concentrations@, a, b),
        bounded(0, k_dissociation, a, b),
        k_dissociation > 0,
        is_run(model, state, run),
    ensures
        forall|i: int|
            0 <= i < run.len() ==> {
                let start = state.concentrations@[2];
                &&& is_registry((#[trigger] run[i]).model.processes, 0, k_dissociation)
                &&& conserved(run[i].state.concentrations@, a, b)
                &&& run[i].state.concentrations@[2] == if i < start {
                    start - i - 1
                } else {
                    0
                }
                &&& run[i].outcome is Quiescent <==> i >= start
            },
    decreases run.len(),
{
    if run.len() > 0 {
        let n = run.len() - 1;
        lemma_run_prefix(model, state, run, n);
        lemma_runs_dry(model, k_dissociation, state, a, b, run.take(n));
        if n == 0 {
            lemma_dissociation_alone(
                model,
                k_dissociation,
                state,
                a,
                b,
                run[0].model,
                run[0].state,
                run[0].outcome,
            );
        } else {
            assert(run.take(n)[n - 1] == run[n - 1]);
            assert(run[n - 1].model.steps_to(
                run[n - 1].state,
                run[n].model,
                run[n].state,
                run[n].outcome,
            ));
            lemma_dissociation_alone(
                run[n - 1].model,
                k_dissociation,
                run[n - 1].state,
                a,
                b,
                run[n].model,
                run[n].state,
                run[n].outcome,
            );
        }
        assert forall|i: int| 0 <= i < run.len() implies {
            let start = state.concentrations@[2];
            &&& is_registry((#[trigger] run[i]).model.processes, 0, k_dissociation)
            &&& conserved(run[i].state.concentrations@, a, b)
            &&& run[i].state.concentrations@[2] == if i < start {
                start - i - 1
            } else {
                0
            }
            &&& run[i].outcome is Quiescent <==> i >= start
        } by {
            if i < n {
                assert(run.take(n)[i] == run[i]);
            }
        }
    }
}

/// A reaction is determined by the concentrations.
pub proof fn lemma_is_determined(reaction: Reaction)
    ensures
        is_determined_by(reaction, |state: State| state.concentrations@),
{
    let picture = |state: State| state.concentrations@;
    assert forall|
        state: State,
        other: State,
        next: Reaction,
        after: State,
        other_next: Reaction,
        other_after: State,
    |
        picture(state) == picture(other) && #[trigger] reaction.fires(&state, &next, &after)
            && #[trigger] reaction.fires(&other, &other_next, &other_after) implies next
        == other_next && picture(after) == picture(other_after) by {
        assert(after.concentrations@ =~= other_after.concentrations@);
    }
}

/// A species occurs no less often in a longer part of a list.
pub proof fn lemma_occurrences_grow(list: Seq<usize>, species: int, m: int, n: int)
    requires
        0 <= m <= n,
    ensures
        occurrences(list, species, m) <= occurrences(list, species, n),
    decreases n - m,
{
    if m < n {
        lemma_occurrences_grow(list, species, m, n - 1);
    }
}

} // verus!
