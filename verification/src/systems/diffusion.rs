//! Diffusion of counted particles between the cells of a lattice.

use vstd::prelude::*;
use crate::laws::{is_determined_by, lemma_one_fires, lemma_only_one_changes, lemma_total_is_zero};
use crate::process::Process;
use crate::random::RandomSource;
use crate::reactor::{Model, Outcome, Reactor};
use crate::selection::total_rate;
use crate::sums::{
    lemma_sum_after_decrement, lemma_sum_after_increment, lemma_sum_bounds_entry,
    lemma_sum_has_positive_entry, sum,
};

verus! {

/// A lattice of particle counts in rows of cells, kept in an
/// `ndarray::Array2<u64>`.
#[verifier::external_body]
pub struct Lattice {
    cells: ndarray::Array2<u64>,
}

/// What a lattice holds: its rows, each with the counts of its cells in
/// order.
pub uninterp spec fn rows(lattice: Lattice) -> Seq<Seq<u64>>;

impl View for Lattice {
    type V = Seq<Seq<u64>>;

    open spec fn view(&self) -> Seq<Seq<u64>> {
        rows(*self)
    }
}

/// Calls `ndarray::Array2::zeros` with the shape `(1, columns)`, which gives
/// one row of `columns` cells that all hold 0. The call panics where the
/// number of cells, or the bytes they take, exceed `isize::MAX`; the
/// precondition keeps both below it.
#[verifier::external_body]
fn array_zeros(columns: usize) -> (lattice: Lattice)
    requires
        columns <= isize::MAX / 8,
    ensures
        rows(lattice) == seq![Seq::new(columns as nat, |i: int| 0u64)],
{
    Lattice { cells: ndarray::Array2::zeros((1, columns)) }
}

/// Calls `ndarray::ArrayBase::dim`, which gives the numbers of rows and of
/// columns. Every row has that number of columns.
#[verifier::external_body]
fn array_dim(lattice: &Lattice) -> (shape: (usize, usize))
    ensures
        shape.0 == rows(*lattice).len(),
        forall|row: int|
            0 <= row < rows(*lattice).len() ==> (#[trigger] rows(*lattice)[row]).len() == shape.1,
{
    lattice.cells.dim()
}

/// Indexes the array with `(row, column)`, which gives the count in that
/// cell. Indexing panics out of bounds; the precondition keeps within them.
#[verifier::external_body]
fn array_get(lattice: &Lattice, row: usize, column: usize) -> (count: u64)
    requires
        row < rows(*lattice).len(),
        column < rows(*lattice)[row as int].len(),
    ensures
        count == rows(*lattice)[row as int][column as int],
{
    lattice.cells[(row, column)]
}

/// Assigns to the array at `(row, column)`, which replaces the count in that
/// cell and leaves every other cell as it is. Indexing panics out of bounds;
/// the precondition keeps within them.
#[verifier::external_body]
fn array_set(lattice: &mut Lattice, row: usize, column: usize, count: u64)
    requires
        row < rows(*old(lattice)).len(),
        column < rows(*old(lattice))[row as int].len(),
    ensures
        rows(*final(lattice)) == put(rows(*old(lattice)), (row, column), count),
{
    lattice.cells[(row, column)] = count;
}

/// Whether `at` names a cell of the lattice.
pub open spec fn within(rows: Seq<Seq<u64>>, at: (usize, usize)) -> bool {
    at.0 < rows.len() && at.1 < rows[at.0 as int].len()
}

/// The count in the cell `at`.
pub open spec fn count_at(rows: Seq<Seq<u64>>, at: (usize, usize)) -> u64 {
    rows[at.0 as int][at.1 as int]
}

/// The lattice with `count` in the cell `at`.
pub open spec fn put(rows: Seq<Seq<u64>>, at: (usize, usize), count: u64) -> Seq<Seq<u64>> {
    rows.update(at.0 as int, rows[at.0 as int].update(at.1 as int, count))
}

/// The lattice after one particle went from the cell `from` to the cell
/// `to`.
pub open spec fn moved(rows: Seq<Seq<u64>>, from: (usize, usize), to: (usize, usize)) -> Seq<
    Seq<u64>,
> {
    let taken = put(rows, from, (count_at(rows, from) - 1) as u64);
    put(taken, to, (count_at(taken, to) + 1) as u64)
}

impl Lattice {
    /// Creates a lattice of one row of `columns` cells, all empty.
    pub fn zeros(columns: usize) -> (lattice: Self)
        requires
            columns <= isize::MAX / 8,
        ensures
            lattice@ == seq![Seq::new(columns as nat, |i: int| 0u64)],
    {
        array_zeros(columns)
    }

    /// The numbers of rows and of columns.
    pub fn dim(&self) -> (shape: (usize, usize))
        ensures
            shape.0 == self@.len(),
            forall|row: int| 0 <= row < self@.len() ==> (#[trigger] self@[row]).len() == shape.1,
    {
        array_dim(self)
    }

    /// The count in a cell, or `None` where there is no such cell.
    pub fn get(&self, row: usize, column: usize) -> (count: Option<u64>)
        ensures
            count == if within(self@, (row, column)) {
                Some(count_at(self@, (row, column)))
            } else {
                None
            },
    {
        let shape = array_dim(self);
        if row < shape.0 && column < shape.1 {
            Some(array_get(self, row, column))
        } else {
            None
        }
    }

    /// Replaces the count in a cell.
    pub fn set(&mut self, row: usize, column: usize, count: u64)
        requires
            within(old(self)@, (row, column)),
        ensures
            final(self)@ == put(old(self)@, (row, column), count),
    {
        array_set(self, row, column, count)
    }

    /// A copy of the counts in one row.
    pub fn row(&self, row: usize) -> (counts: Vec<u64>)
        requires
            row < self@.len(),
        ensures
            counts@ == self@[row as int],
    {
        let shape = array_dim(self);
        let mut counts: Vec<u64> = Vec::new();
        let mut column: usize = 0;
        while column < shape.1
            invariant
                row < self@.len(),
                self@[row as int].len() == shape.1,
                column <= shape.1,
                counts@ == self@[row as int].take(column as int),
            decreases shape.1 - column,
        {
            counts.push(array_get(self, row, column));
            column = column + 1;
            proof {
                assert(counts@ =~= self@[row as int].take(column as int));
            }
        }
        proof {
            assert(counts@ =~= self@[row as int]);
        }
        counts
    }
}

/// The hop of a particle from one cell to another, at a rate of `k` times
/// the count in the cell it leaves.
pub struct Diffusion {
    pub k: u64,
    pub from: (usize, usize),
    pub to: (usize, usize),
}

impl Process<Lattice> for Diffusion {
    open spec fn admits(&self, state: &Lattice) -> bool {
        &&& within(state@, self.from)
        &&& within(state@, self.to)
        &&& self.k * count_at(state@, self.from) <= u64::MAX
        &&& self.from != self.to ==> count_at(state@, self.to) < u64::MAX
    }

    open spec fn rate_of(&self, state: &Lattice) -> u64 {
        (self.k * count_at(state@, self.from)) as u64
    }

    open spec fn fires(&self, state: &Lattice, next: &Self, after: &Lattice) -> bool {
        &&& next == self
        &&& after@ == moved(state@, self.from, self.to)
    }

    fn rate(&self, state: &Lattice) -> (rate: u64) {
        self.k * array_get(state, self.from.0, self.from.1)
    }

    fn perform(&mut self, state: &mut Lattice) {
        proof {
            assert(count_at(state@, self.from) > 0) by (nonlinear_arith)
                requires
                    self.k * count_at(state@, self.from) > 0,
            ;
        }
        let leaving: u64 = array_get(state, self.from.0, self.from.1);
        array_set(state, self.from.0, self.from.1, leaving - 1);
        let arriving: u64 = array_get(state, self.to.0, self.to.1);
        array_set(state, self.to.0, self.to.1, arriving + 1);
    }
}

/// The hop that a lattice system of `size` cells registers under `id`.
///
/// Each inner cell comes first, with a hop to its left and a hop to its
/// right. Then come the hop inwards from the first cell and the hop inwards
/// from the last cell. The last two hops are those at the walls: with a
/// periodic boundary from each end to the other end, otherwise from each end
/// back to itself.
pub open spec fn hop(k: u64, size: nat, periodic: bool, id: nat) -> Diffusion {
    let inner = 2 * (size - 2);
    let last = (size - 1) as usize;
    if id < inner {
        let cell = (1 + id / 2) as usize;
        if id % 2 == 0 {
            Diffusion { k, from: (0, cell), to: (0, (cell - 1) as usize) }
        } else {
            Diffusion { k, from: (0, cell), to: (0, (cell + 1) as usize) }
        }
    } else if id == inner {
        Diffusion { k, from: (0, 0), to: (0, 1) }
    } else if id == inner + 1 {
        Diffusion { k, from: (0, last), to: (0, (last - 1) as usize) }
    } else if id == inner + 2 {
        Diffusion { k, from: (0, 0), to: (0, if periodic { last } else { 0 }) }
    } else {
        Diffusion { k, from: (0, last), to: (0, if periodic { 0 } else { last }) }
    }
}

/// The first `count` hops of a lattice system, by id.
pub open spec fn hops(k: u64, size: nat, periodic: bool, count: nat) -> Map<u64, Diffusion> {
    Map::new(|id: u64| id < count, |id: u64| hop(k, size, periodic, id as nat))
}

/// The model of a reactor that holds the first `count` hops of a lattice
/// system and has not taken a step.
pub open spec fn partial_system(seed: u128, k: u64, size: nat, periodic: bool, count: nat) -> Model<
    Diffusion,
> {
    Model {
        sequence: count,
        generator: RandomSource::seeded(seed),
        steps: 0,
        processes: hops(k, size, periodic, count),
    }
}

/// The model of a lattice system of `size` cells that has not taken a step.
pub open spec fn system(seed: u128, k: u64, size: nat, periodic: bool) -> Model<Diffusion> {
    partial_system(seed, k, size, periodic, 2 * size)
}

/// One row of `size` cells with `start` particles in the first cell and
/// none in the others.
pub open spec fn all_in_first(size: nat, start: u64) -> Seq<Seq<u64>> {
    seq![Seq::new(size, |i: int| if i == 0 { start } else { 0u64 })]
}

/// Creates a reactor with the hops of a lattice of one row of `size` cells,
/// and that lattice with `start` particles in its first cell.
pub fn create(
    seed: u128,
    k_diffusion: u64,
    size: usize,
    start: u64,
    periodic_boundary: bool,
) -> (made: (Reactor<Lattice, Diffusion>, Lattice))
    requires
        2 <= size <= isize::MAX / 8,
    ensures
        made.0@ == system(seed, k_diffusion, size as nat, periodic_boundary),
        made.0@.valid(),
        made.1@ == all_in_first(size as nat, start),
{
    let mut reactor: Reactor<Lattice, Diffusion> = Reactor::new(seed);
    let mut state = array_zeros(size);
    array_set(&mut state, 0, 0, start);
    proof {
        assert(state@[0] =~= all_in_first(size as nat, start)[0]);
        assert(state@ =~= all_in_first(size as nat, start));
        assert(hops(k_diffusion, size as nat, periodic_boundary, 0) =~= Map::empty());
    }
    let mut index: usize = 1;
    while index < size - 1
        invariant
            2 <= size <= isize::MAX / 8,
            1 <= index <= size - 1,
            reactor@ == partial_system(
                seed,
                k_diffusion,
                size as nat,
                periodic_boundary,
                (2 * (index - 1)) as nat,
            ),
            reactor@.valid(),
        decreases size - index,
    {
        let ghost before = reactor@;
        reactor.add(Diffusion { k: k_diffusion, from: (0, index), to: (0, index - 1) });
        reactor.add(Diffusion { k: k_diffusion, from: (0, index), to: (0, index + 1) });
        proof {
            assert(reactor@.processes =~= hops(
                k_diffusion,
                size as nat,
                periodic_boundary,
                (2 * index) as nat,
            ));
        }
        index = index + 1;
    }
    let last: usize = size - 1;
    reactor.add(Diffusion { k: k_diffusion, from: (0, 0), to: (0, 1) });
    reactor.add(Diffusion { k: k_diffusion, from: (0, last), to: (0, last - 1) });
    if periodic_boundary {
        reactor.add(Diffusion { k: k_diffusion, from: (0, 0), to: (0, last) });
        reactor.add(Diffusion { k: k_diffusion, from: (0, last), to: (0, 0) });
    } else {
        reactor.add(Diffusion { k: k_diffusion, from: (0, 0), to: (0, 0) });
        reactor.add(Diffusion { k: k_diffusion, from: (0, last), to: (0, last) });
    }
    proof {
        assert(reactor@.processes =~= hops(
            k_diffusion,
            size as nat,
            periodic_boundary,
            (2 * size) as nat,
        ));
    }
    (reactor, state)
}

/// Whether the lattice is one row of `size` cells that hold `total`
/// particles between them.
pub open spec fn holds(rows: Seq<Seq<u64>>, size: nat, total: nat) -> bool {
    &&& rows.len() == 1
    &&& rows[0].len() == size
    &&& sum(rows[0]) == total
}

/// Every hop of a lattice system leaves a cell of the lattice for a cell of
/// the lattice.
pub proof fn lemma_hop_is_within(k: u64, size: nat, periodic: bool, id: nat)
    requires
        2 <= size <= usize::MAX,
        id < 2 * size,
    ensures
        hop(k, size, periodic, id).k == k,
        hop(k, size, periodic, id).from.0 == 0,
        hop(k, size, periodic, id).from.1 < size,
        hop(k, size, periodic, id).to.0 == 0,
        hop(k, size, periodic, id).to.1 < size,
{
}

/// The hops of a lattice system are defined on every state that holds
/// `total` particles, where `k * total` fits in 64 bits.
pub proof fn lemma_admits(
    model: Model<Diffusion>,
    k: u64,
    size: nat,
    periodic: bool,
    state: Lattice,
    total: nat,
)
    requires
        model.processes == hops(k, size, periodic, 2 * size),
        2 <= size <= usize::MAX,
        holds(state@, size, total),
        k * total <= u64::MAX,
        total < u64::MAX,
    ensures
        model.admits(state),
{
    assert forall|id: u64| model.processes.contains_key(id) implies model.processes[id].admits(
        &state,
    ) by {
        let process = model.processes[id];
        lemma_hop_is_within(k, size, periodic, id as nat);
        lemma_sum_bounds_entry(state@[0], process.from.1 as int);
        lemma_sum_bounds_entry(state@[0], process.to.1 as int);
        let count = count_at(state@, process.from);
        assert(k * count <= k * total) by (nonlinear_arith)
            requires
                count <= total,
        ;
    }
}

/// Conservation of particles: a step of a lattice system leaves the hops
/// registered and the number of particles as they were.
pub proof fn lemma_step_conserves(
    model: Model<Diffusion>,
    k: u64,
    size: nat,
    periodic: bool,
    state: Lattice,
    total: nat,
    next: Model<Diffusion>,
    after: Lattice,
    outcome: Outcome,
)
    requires
        model.processes == hops(k, size, periodic, 2 * size),
        2 <= size <= usize::MAX,
        holds(state@, size, total),
        k * total <= u64::MAX,
        total < u64::MAX,
        model.steps_to(state, next, after, outcome),
    ensures
        next.processes == model.processes,
        holds(after@, size, total),
        outcome matches Outcome::Fired { id, .. } ==> id < 2 * size,
{
    if outcome is Fired {
        lemma_only_one_changes(model, state, next, after, outcome);
        lemma_one_fires_here(model, state);
        let id = outcome->id;
        let process = model.processes[id];
        lemma_hop_is_within(k, size, periodic, id as nat);
        assert(next.processes =~= model.processes);
        let row = state@[0];
        let from = process.from.1 as int;
        let to = process.to.1 as int;
        assert(row[from] > 0) by (nonlinear_arith)
            requires
                k * row[from] > 0,
        ;
        let taken = row.update(from, (row[from] - 1) as u64);
        lemma_sum_after_decrement(row, from);
        lemma_sum_bounds_entry(taken, to);
        lemma_sum_after_increment(taken, to);
        assert(after@[0] =~= taken.update(to, (taken[to] + 1) as u64));
    }
}

proof fn lemma_one_fires_here(model: Model<Diffusion>, state: Lattice)
    requires
        model.outcome(state) is Fired,
    ensures
        model.processes[model.outcome(state)->id].rate_of(&state) > 0,
{
    lemma_one_fires(model, state);
}

/// A hop is determined by what the cells hold.
pub proof fn lemma_is_determined(process: Diffusion)
    ensures
        is_determined_by(process, |state: Lattice| state@),
{
}

/// A lattice system with a positive rate constant that holds a particle is
/// never quiescent.
pub proof fn lemma_never_quiescent(
    model: Model<Diffusion>,
    k: u64,
    size: nat,
    periodic: bool,
    state: Lattice,
    total: nat,
)
    requires
        model.processes == hops(k, size, periodic, 2 * size),
        2 <= size <= usize::MAX,
        2 * size <= u64::MAX,
        holds(state@, size, total),
        k * total <= u64::MAX,
        k > 0,
        total > 0,
    ensures
        total_rate(model.rates(state)) > 0,
{
    let row = state@[0];
    let cell = lemma_sum_has_positive_entry(row);
    let id: u64 = if cell == 0 {
        (2 * (size - 2)) as u64
    } else if cell == size - 1 {
        (2 * (size - 2) + 1) as u64
    } else {
        (2 * (cell - 1)) as u64
    };
    let process = model.processes[id];
    assert(model.processes.contains_key(id));
    assert(process.from == (0usize, cell as usize));
    lemma_sum_bounds_entry(row, cell);
    assert(0 < k * row[cell] <= k * total) by (nonlinear_arith)
        requires
            k > 0,
            0 < row[cell] <= total,
    ;
    assert(process.rate_of(&state) > 0);
    lemma_total_is_zero(model, state);
}

} // verus!
