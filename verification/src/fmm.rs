//! Travel times over a grid: the fast marching method.
//!
//! A field holds one value per cell: zero in a source, positive infinity
//! where nothing is known yet, a NaN in a blocked cell. A wavefront spreads
//! from the sources. Its queue hands out the cell of least value, which is
//! then final, and the four neighbours of that cell get a new value where the
//! equation yields a lesser one than they have. A cell may stand in the queue
//! several times, once for each value it ever had; an entry for a cell that is
//! final already is dropped when it comes out.

use crate::front::{
    adjacent, candidate_at, candidate_for, lemma_dropping_keeps_sound,
    lemma_finalizing_keeps_sound, lemma_march_keeps_final_cells, lemma_offer_keeps_sound,
    lemma_setting_out_is_sound, lemma_solution_is_not_below_zero, lemma_step_keeps_final_cells,
    lemma_weight_is_natural, lent, march, marches, never_below_zero, none_below_zero, reachable,
    same_shape, seed, sets_out, ways, weight, Front,
};
use crate::grid::{inside, shaped, Field, Mask};
use crate::heap::{Cell, MinHeap};
use crate::scalar::Scalar;
use vstd::prelude::*;

verus! {

/// The arithmetic of the discretised equation.
pub trait Eikonal {
    /// `scale_factor * cost`: what it takes to cross one cell.
    fn slowness(&self, scale_factor: Scalar, cost: Scalar) -> Scalar;

    /// `u + step`: the arrival from one axis alone.
    fn one_sided(&self, u: Scalar, step: Scalar) -> Scalar;

    /// `2 * step * step - (ux - uy) * (ux - uy)`: what stands under the root
    /// in the solution of the quadratic.
    fn discriminant(&self, ux: Scalar, uy: Scalar, step: Scalar) -> Scalar;

    /// `(ux + uy + sqrt(discriminant)) / 2`: the arrival from both axes.
    fn two_sided(&self, ux: Scalar, uy: Scalar, discriminant: Scalar) -> Scalar;
}

/// The cell that lies `delta` from `index`, if a grid of the shape `dim` has
/// it.
pub fn index_add(index: (usize, usize), delta: (isize, isize), dim: (usize, usize)) -> (moved:
    Option<(usize, usize)>)
    ensures
        moved.is_some() == (0 <= index.0 + delta.0 < dim.0 && 0 <= index.1 + delta.1 < dim.1),
        moved matches Some(to) ==> to.0 == index.0 + delta.0 && to.1 == index.1 + delta.1,
{
    match (shifted(index.0, delta.0), shifted(index.1, delta.1)) {
        (Some(y), Some(x)) => {
            if y < dim.0 && x < dim.1 {
                Some((y, x))
            } else {
                None
            }
        },
        _ => None,
    }
}

/// `at + by`, if that is a `usize`.
fn shifted(at: usize, by: isize) -> (moved: Option<usize>)
    ensures
        moved.is_some() == (0 <= at + by <= usize::MAX),
        moved matches Some(to) ==> to == at + by,
{
    if by >= 0 {
        let up: usize = by as usize;
        if at > usize::MAX - up {
            None
        } else {
            Some(at + up)
        }
    } else {
        // `-(by + 1)` is a `usize` even where `-by` is none.
        let down: usize = (-(by + 1)) as usize;
        if at <= down {
            None
        } else {
            Some(at - down - 1)
        }
    }
}

/// What the neighbour of `index` that lies `delta` from it lends to the
/// equation.
pub fn neighbor(field: &Field, index: (usize, usize), delta: (isize, isize)) -> (u: Scalar)
    ensures
        u == lent(field@, index.0 + delta.0, index.1 + delta.1),
{
    let dim = field.dim();
    match index_add(index, delta, dim) {
        Some(i) => {
            let v = field.at(i.0, i.1);
            if v.is_nan() {
                Scalar::infinity()
            } else {
                v
            }
        },
        None => Scalar::infinity(),
    }
}

/// A wavefront on its way over a field.
pub struct Wavefront {
    field: Field,
    fixed: Mask,
    heap: MinHeap,
    origin: Ghost<Seq<Seq<Scalar>>>,
}

impl View for Wavefront {
    type V = Front;

    closed spec fn view(&self) -> Front {
        Front { cells: self.field@, fixed: self.fixed@, queue: self.heap@ }
    }
}

impl Wavefront {
    /// What the field held when the wavefront set out.
    pub closed spec fn origin(&self) -> Seq<Seq<Scalar>> {
        self.origin@
    }

    /// How many cells a row of the field has.
    pub closed spec fn width(&self) -> nat {
        self.field.width()
    }

    /// The wavefront is in order.
    pub open spec fn wf(&self) -> bool {
        self@.sound(self.origin())
    }

    /// A wavefront that sets out over `field`: no cell is final, and the
    /// queue holds the sources, each once.
    pub fn new(field: Field) -> (front: Wavefront)
        ensures
            front.wf(),
            front.origin() == field@,
            front.width() == field.width(),
            front@.cells == field@,
            same_shape(front@.fixed, field@),
            forall|r: int, c: int| inside(field@, r, c) ==> !(#[trigger] front@.fixed[r][c]),
            forall|cell: Cell|
                #[trigger] front@.queue.count(cell) == (if seed(field@, cell) {
                    1nat
                } else {
                    0nat
                }),
    {
        broadcast use vstd::multiset::group_multiset_axioms;

        let (rows, cols) = field.dim();
        let fixed = Mask::from_elem(rows, cols, false);
        let mut heap = MinHeap::new();
        let mut r: usize = 0;
        while r < rows
            invariant
                r <= rows,
                shaped(field@, rows as int, cols as int),
                forall|cell: Cell|
                    #[trigger] heap@.count(cell) == (if seed(field@, cell) && cell.index.0
                        < r {
                        1nat
                    } else {
                        0nat
                    }),
            decreases rows - r,
        {
            let mut c: usize = 0;
            while c < cols
                invariant
                    r < rows,
                    c <= cols,
                    shaped(field@, rows as int, cols as int),
                    forall|cell: Cell|
                        #[trigger] heap@.count(cell) == (if seed(field@, cell) && (
                        cell.index.0 < r || (cell.index.0 == r && cell.index.1 < c)) {
                            1nat
                        } else {
                            0nat
                        }),
                decreases cols - c,
            {
                let u = field.at(r, c);
                if u.is_zero() {
                    heap.push(Cell::new(u, (r, c)));
                }
                c += 1;
            }
            r += 1;
        }
        let front = Wavefront { field, fixed, heap, origin: Ghost(field@) };
        proof {
            assert(sets_out(field@, front@));
            lemma_setting_out_is_sound(field@, front@);
        }
        front
    }

    /// Whether the cell `(row, col)` is final. A place off the grid is not.
    pub fn is_final(&self, row: usize, col: usize) -> (r: bool)
        requires
            self.wf(),
        ensures
            r == (inside(self@.cells, row as int, col as int)
                && self@.fixed[row as int][col as int]),
    {
        let (rows, cols) = self.field.dim();
        if row < rows && col < cols {
            assert(self@.cells[row as int].len() == cols);
            self.fixed.at(row, col)
        } else {
            false
        }
    }

    /// How many entries the queue holds.
    pub fn pending(&self) -> (n: usize)
        ensures
            n == self@.queue.len(),
    {
        self.heap.len()
    }

    /// The field as it stands.
    pub fn field(&self) -> (field: &Field)
        ensures
            field@ == self@.cells,
            field.width() == self.width(),
    {
        &self.field
    }

    /// The field, the wavefront being given up.
    pub fn finish(self) -> (field: Field)
        ensures
            field@ == self@.cells,
            field.width() == self.width(),
    {
        self.field
    }

    /// Relaxes the cell `index`, a neighbour of `from`.
    fn relax<N: Fn((usize, usize)) -> Scalar, E: Eikonal>(
        &mut self,
        index: (usize, usize),
        Ghost(from): Ghost<(int, int)>,
        scale_factor: Scalar,
        n: &N,
        e: &E,
    )
        requires
            old(self).wf(),
            inside(old(self)@.cells, index.0 as int, index.1 as int),
            reachable(old(self).origin(), from.0, from.1),
            adjacent(from, (index.0 as int, index.1 as int)),
            forall|i: (usize, usize)|
                inside(old(self).origin(), i.0 as int, i.1 as int) ==> call_requires(*n, (i,)),
        ensures
            final(self).wf(),
            final(self).origin() == old(self).origin(),
            final(self).width() == old(self).width(),
            old(self)@.relaxed_to(
                n,
                e,
                scale_factor,
                index.0 as int,
                index.1 as int,
                final(self)@,
            ),
            final(self)@ == old(self)@ || weight(final(self)@.cells) < weight(old(self)@.cells),
    {
        let ghost before = self@;
        let ghost origin = self.origin@;
        let ghost r = index.0 as int;
        let ghost c = index.1 as int;
        assert(before.fixed[r].len() == before.cells[r].len());
        if self.fixed.at(index.0, index.1) {
            return ;
        }
        let current = self.field.at(index.0, index.1);
        if current.is_nan() {
            return ;
        }
        let ux = neighbor(&self.field, index, (-1, 0)).min(neighbor(&self.field, index, (1, 0)));
        let uy = neighbor(&self.field, index, (0, -1)).min(neighbor(&self.field, index, (0, 1)));
        assert(inside(origin, r, c)) by {
            assert(before.cells[r].len() == origin[r].len());
        }
        let cost = n(index);
        let step = e.slowness(scale_factor, cost);
        let u_candidate = if ux.is_infinite() {
            e.one_sided(uy, step)
        } else if uy.is_infinite() {
            e.one_sided(ux, step)
        } else {
            let sq = e.discriminant(ux, uy, step);
            if (Scalar { bits: 0 }).le(sq) {
                e.two_sided(ux, uy, sq)
            } else {
                e.one_sided(ux.min(uy), step)
            }
        };
        assert(candidate_for(e, scale_factor, cost, before.cells, r, c, u_candidate));
        assert(candidate_at(n, e, scale_factor, before.cells, r, c, u_candidate));
        if u_candidate.lt(current) {
            self.field.put(index.0, index.1, u_candidate);
            self.heap.push(Cell::new(u_candidate, index));
            proof {
                assert(self@ == before.offered(r, c, u_candidate));
                lemma_offer_keeps_sound(before, origin, from, r, c, u_candidate);
            }
        }
    }

    /// Relaxes the cell that lies `delta` from `index`, if the field has it.
    fn relax_beside<N: Fn((usize, usize)) -> Scalar, E: Eikonal>(
        &mut self,
        index: (usize, usize),
        delta: (isize, isize),
        scale_factor: Scalar,
        n: &N,
        e: &E,
    )
        requires
            old(self).wf(),
            reachable(old(self).origin(), index.0 as int, index.1 as int),
            adjacent((index.0 as int, index.1 as int), (index.0 + delta.0, index.1 + delta.1)),
            forall|i: (usize, usize)|
                inside(old(self).origin(), i.0 as int, i.1 as int) ==> call_requires(*n, (i,)),
        ensures
            final(self).wf(),
            final(self).origin() == old(self).origin(),
            final(self).width() == old(self).width(),
            old(self)@.relaxed_to(
                n,
                e,
                scale_factor,
                index.0 + delta.0,
                index.1 + delta.1,
                final(self)@,
            ),
            final(self)@ == old(self)@ || weight(final(self)@.cells) < weight(old(self)@.cells),
    {
        let dim = self.field.dim();
        match index_add(index, delta, dim) {
            Some(beside) => {
                self.relax(
                    beside,
                    Ghost((index.0 as int, index.1 as int)),
                    scale_factor,
                    n,
                    e,
                );
            },
            None => {},
        }
    }

    /// One step: takes a cell of least value from the queue, makes it final
    /// unless it is final already, and relaxes its neighbours. Returns whether
    /// there was a cell to take. A cell that is final stays final and keeps
    /// its value.
    pub fn step<N: Fn((usize, usize)) -> Scalar, E: Eikonal>(
        &mut self,
        scale_factor: Scalar,
        n: &N,
        e: &E,
    ) -> (more: bool)
        requires
            old(self).wf(),
            forall|i: (usize, usize)|
                inside(old(self).origin(), i.0 as int, i.1 as int) ==> call_requires(*n, (i,)),
        ensures
            final(self).wf(),
            final(self).origin() == old(self).origin(),
            final(self).width() == old(self).width(),
            more == (old(self)@.queue.len() > 0),
            old(self)@.stepped_to(n, e, scale_factor, final(self)@),
            more ==> weight(final(self)@.cells) < weight(old(self)@.cells) || (weight(
                final(self)@.cells,
            ) == weight(old(self)@.cells) && final(self)@.queue.len() < old(self)@.queue.len()),
            forall|r: int, c: int|
                inside(old(self)@.cells, r, c) && old(self)@.fixed[r][c] ==> (
                #[trigger] final(self)@.fixed[r][c]) && final(self)@.cells[r][c]
                    == old(self)@.cells[r][c],
    {
        let ghost before = self@;
        let more = self.take(scale_factor, n, e);
        proof {
            lemma_step_keeps_final_cells(before, n, e, scale_factor, self@);
        }
        more
    }

    /// What a step does.
    fn take<N: Fn((usize, usize)) -> Scalar, E: Eikonal>(
        &mut self,
        scale_factor: Scalar,
        n: &N,
        e: &E,
    ) -> (more: bool)
        requires
            old(self).wf(),
            forall|i: (usize, usize)|
                inside(old(self).origin(), i.0 as int, i.1 as int) ==> call_requires(*n, (i,)),
        ensures
            final(self).wf(),
            final(self).origin() == old(self).origin(),
            final(self).width() == old(self).width(),
            more == (old(self)@.queue.len() > 0),
            old(self)@.stepped_to(n, e, scale_factor, final(self)@),
            more ==> weight(final(self)@.cells) < weight(old(self)@.cells) || (weight(
                final(self)@.cells,
            ) == weight(old(self)@.cells) && final(self)@.queue.len() < old(self)@.queue.len()),
    {
        let ghost before = self@;
        let ghost origin = self.origin@;
        match self.heap.pop() {
            None => false,
            Some(cell) => {
                let index = cell.index;
                let ghost r = index.0 as int;
                let ghost c = index.1 as int;
                assert(before.least(cell));
                assert(before.fixed[r].len() == before.cells[r].len());
                if self.fixed.at(index.0, index.1) {
                    proof {
                        lemma_dropping_keeps_sound(before, origin, cell);
                        assert(before.stepped_with(n, e, scale_factor, cell, self@));
                    }
                    return true;
                }
                self.fixed.put(index.0, index.1, true);
                proof {
                    assert(self@ == before.finalized(cell));
                    lemma_finalizing_keeps_sound(before, origin, cell);
                }
                let ghost f0 = self@;
                let ghost mut fronts: Seq<Front> = seq![f0];
                let deltas: [(isize, isize); 4] = [(-1, 0), (1, 0), (0, -1), (0, 1)];
                assert forall|k: int| 0 <= k < 4 implies deltas[k].0 == (#[trigger] ways()[k]).0
                    && deltas[k].1 == ways()[k].1 && adjacent(
                    (r, c),
                    (r + ways()[k].0, c + ways()[k].1),
                ) by {
                    assert(ways()[0] == (-1int, 0int));
                    assert(ways()[1] == (1int, 0int));
                    assert(ways()[2] == (0int, -1int));
                    assert(ways()[3] == (0int, 1int));
                }
                let mut k: usize = 0;
                while k < 4
                    invariant
                        k <= 4,
                        ways().len() == 4,
                        self.wf(),
                        self.origin() == old(self).origin(),
                        self.width() == old(self).width(),
                        forall|i: (usize, usize)|
                            inside(self.origin(), i.0 as int, i.1 as int) ==> call_requires(*n, (i,)),
                        r == index.0,
                        c == index.1,
                        reachable(self.origin(), r, c),
                        forall|k: int|
                            0 <= k < 4 ==> deltas[k].0 == (#[trigger] ways()[k]).0 && deltas[k].1
                                == ways()[k].1 && adjacent(
                                (r, c),
                                (r + ways()[k].0, c + ways()[k].1),
                            ),
                        fronts.len() == k + 1,
                        fronts.last() == self@,
                        f0.rounds(n, e, scale_factor, r, c, fronts),
                        self@ == f0 || weight(self@.cells) < weight(f0.cells),
                    decreases 4 - k,
                {
                    let delta = deltas[k];
                    assert(delta.0 == ways()[k as int].0 && delta.1 == ways()[k as int].1);
                    self.relax_beside(index, delta, scale_factor, n, e);
                    proof {
                        let longer = fronts.push(self@);
                        assert forall|j: int| 0 <= j < longer.len() - 1 implies (
                        #[trigger] longer[j]).relaxed_to(
                            n,
                            e,
                            scale_factor,
                            r + ways()[j].0,
                            c + ways()[j].1,
                            longer[j + 1],
                        ) by {
                            if j < fronts.len() - 1 {
                                assert(longer[j] == fronts[j]);
                                assert(longer[j + 1] == fronts[j + 1]);
                            }
                        }
                        fronts = longer;
                    }
                    k += 1;
                }
                assert(f0.relaxed_around(n, e, scale_factor, r, c, self@));
                assert(before.stepped_with(n, e, scale_factor, cell, self@));
                true
            },
        }
    }

    /// Steps until the queue is empty. A cell that is final stays final and
    /// keeps its value.
    pub fn run<N: Fn((usize, usize)) -> Scalar, E: Eikonal>(
        &mut self,
        scale_factor: Scalar,
        n: &N,
        e: &E,
    )
        requires
            old(self).wf(),
            forall|i: (usize, usize)|
                inside(old(self).origin(), i.0 as int, i.1 as int) ==> call_requires(*n, (i,)),
        ensures
            final(self).wf(),
            final(self).origin() == old(self).origin(),
            final(self).width() == old(self).width(),
            marches(n, e, scale_factor, old(self)@, final(self)@),
            forall|r: int, c: int|
                inside(old(self)@.cells, r, c) && old(self)@.fixed[r][c] ==> (
                #[trigger] final(self)@.fixed[r][c]) && final(self)@.cells[r][c]
                    == old(self)@.cells[r][c],
    {
        let ghost mut fronts: Seq<Front> = seq![self@];
        loop
            invariant
                self.wf(),
                self.origin() == old(self).origin(),
                self.width() == old(self).width(),
                forall|i: (usize, usize)|
                    inside(self.origin(), i.0 as int, i.1 as int) ==> call_requires(*n, (i,)),
                march(n, e, scale_factor, fronts),
                fronts[0] == old(self)@,
                fronts.last() == self@,
            ensures
                self.wf(),
                self.origin() == old(self).origin(),
                self.width() == old(self).width(),
                march(n, e, scale_factor, fronts),
                fronts[0] == old(self)@,
                fronts.last() == self@,
                self@.queue.len() == 0,
            decreases weight(self@.cells), self@.queue.len(),
        {
            let ghost earlier = self@;
            let more = self.step(scale_factor, n, e);
            if !more {
                break ;
            }
            proof {
                lemma_weight_is_natural(earlier.cells);
                lemma_weight_is_natural(self@.cells);
                let longer = fronts.push(self@);
                assert forall|i: int| 0 <= i < longer.len() - 1 implies (
                #[trigger] longer[i]).stepped_to(n, e, scale_factor, longer[i + 1]) by {
                    if i < fronts.len() - 1 {
                        assert(longer[i] == fronts[i]);
                        assert(longer[i + 1] == fronts[i + 1]);
                    }
                }
                fronts = longer;
            }
        }
        proof {
            lemma_march_keeps_final_cells(n, e, scale_factor, fronts, 0, fronts.len() - 1);
        }
    }
}

/// Solves the equation over `field`: a wavefront sets out from the sources
/// and spreads until nothing is left in its queue. `n` gives the cost of a
/// cell and `scale_factor` the width of one.
///
/// The field keeps its shape. No value grows; a blocked cell stays as it is
/// and no other cell becomes one. A cell that the wavefront cannot reach from
/// a source without passing a blocked cell keeps its value. Where the
/// arithmetic answers with no arrival time below zero and nothing in the field
/// is below zero, a source is not lowered and nothing falls below zero.
pub fn apply_fmm<N: Fn((usize, usize)) -> Scalar, E: Eikonal>(
    field: &mut Field,
    scale_factor: Scalar,
    n: N,
    e: &E,
)
    requires
        forall|i: (usize, usize)|
            inside(old(field)@, i.0 as int, i.1 as int) ==> call_requires(n, (i,)),
    ensures
        exists|start: Front, end: Front|
            #![trigger marches(&n, e, scale_factor, start, end)]
            sets_out(old(field)@, start) && marches(&n, e, scale_factor, start, end) && end.cells
                == final(field)@,
        same_shape(final(field)@, old(field)@),
        final(field).width() == old(field).width(),
        forall|r: int, c: int|
            inside(final(field)@, r, c) ==> (#[trigger] final(field)@[r][c]) == old(field)@[r][c]
                || final(field)@[r][c].spec_lt(old(field)@[r][c]),
        forall|r: int, c: int|
            inside(final(field)@, r, c) ==> (#[trigger] final(field)@[r][c]).nan() == old(
                field,
            )@[r][c].nan(),
        forall|r: int, c: int|
            inside(final(field)@, r, c) && (#[trigger] final(field)@[r][c]) != old(field)@[r][c]
                ==> reachable(old(field)@, r, c),
        never_below_zero(e) && none_below_zero(old(field)@) ==> forall|r: int, c: int|
            inside(final(field)@, r, c) ==> {
                &&& old(field)@[r][c].zero() ==> (#[trigger] final(field)@[r][c]) == old(
                    field,
                )@[r][c]
                &&& !final(field)@[r][c].spec_lt(Scalar { bits: 0 })
            },
{
    let dim = field.dim();
    let mut taken = Field::from_elem(0, 0, Scalar { bits: 0 });
    std::mem::swap(field, &mut taken);
    let mut front = Wavefront::new(taken);
    let ghost start = front@;
    front.run(scale_factor, &n, e);
    let ghost end = front@;
    *field = front.finish();
    proof {
        let cells = old(field)@;
        assert(sets_out(cells, start) && marches(&n, e, scale_factor, start, end));
        if never_below_zero(e) && none_below_zero(cells) {
            lemma_solution_is_not_below_zero(cells, &n, e, scale_factor, start, end);
            assert forall|r: int, c: int| inside(end.cells, r, c) implies (cells[r][c].zero() ==> (
            #[trigger] end.cells[r][c]) == cells[r][c]) && !end.cells[r][c].spec_lt(
                Scalar { bits: 0 },
            ) by {
                assert(inside(cells, r, c));
                assert(end.cells[r][c] == cells[r][c] || end.cells[r][c].spec_lt(cells[r][c]));
            }
        }
    }
}

} // verus!
