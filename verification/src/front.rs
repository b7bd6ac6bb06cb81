//! A wavefront as the proofs see it: the state of a solver, the steps that
//! lead from one state to the next, and what holds along the way.

use crate::fmm::Eikonal;
use crate::grid::inside;
use crate::heap::Cell;
use crate::scalar::Scalar;
use vstd::multiset::Multiset;
use vstd::prelude::*;

verus! {

/// The state of a wavefront: what the field holds, which cells are final, and
/// what stands in the queue.
pub struct Front {
    pub cells: Seq<Seq<Scalar>>,
    pub fixed: Seq<Seq<bool>>,
    pub queue: Multiset<Cell>,
}

/// The value that a neighbour at `(r, c)` lends to the equation: what the cell
/// holds, and positive infinity where there is no such cell or it is blocked.
pub open spec fn lent(cells: Seq<Seq<Scalar>>, r: int, c: int) -> Scalar {
    if inside(cells, r, c) && !cells[r][c].nan() {
        cells[r][c]
    } else {
        Scalar { bits: crate::scalar::INFINITY_BITS }
    }
}

/// The lesser of the values that the two neighbours of `(r, c)` along the
/// rows lend.
pub open spec fn along_rows(cells: Seq<Seq<Scalar>>, r: int, c: int) -> Scalar {
    lent(cells, r - 1, c).spec_min(lent(cells, r + 1, c))
}

/// The lesser of the values that the two neighbours of `(r, c)` along the
/// columns lend.
pub open spec fn along_cols(cells: Seq<Seq<Scalar>>, r: int, c: int) -> Scalar {
    lent(cells, r, c - 1).spec_min(lent(cells, r, c + 1))
}

/// `candidate` is an arrival time at a cell whose neighbours lend `ux` along
/// one axis and `uy` along the other, and which takes `step` to cross. With
/// nothing known along one axis the wave comes along the other. With both
/// known it comes from both, unless the quadratic has no solution: then it
/// comes along the axis with the lesser value.
pub open spec fn arrival<E: Eikonal>(
    e: &E,
    ux: Scalar,
    uy: Scalar,
    step: Scalar,
    candidate: Scalar,
) -> bool {
    if ux.infinite() {
        call_ensures(E::one_sided, (e, uy, step), candidate)
    } else if uy.infinite() {
        call_ensures(E::one_sided, (e, ux, step), candidate)
    } else {
        exists|sq: Scalar| #[trigger]
            call_ensures(E::discriminant, (e, ux, uy, step), sq) && if (Scalar {
                bits: 0,
            }).spec_le(sq) {
                call_ensures(E::two_sided, (e, ux, uy, sq), candidate)
            } else {
                call_ensures(E::one_sided, (e, ux.spec_min(uy), step), candidate)
            }
    }
}

/// `candidate` is an arrival time at the cell `(r, c)` of `cells`, which has
/// the cost `cost`.
pub open spec fn candidate_for<E: Eikonal>(
    e: &E,
    scale_factor: Scalar,
    cost: Scalar,
    cells: Seq<Seq<Scalar>>,
    r: int,
    c: int,
    candidate: Scalar,
) -> bool {
    exists|step: Scalar| #[trigger]
        call_ensures(E::slowness, (e, scale_factor, cost), step) && arrival(
            e,
            along_rows(cells, r, c),
            along_cols(cells, r, c),
            step,
            candidate,
        )
}

/// `candidate` is an arrival time at the cell `(r, c)` of `cells`, for the
/// cost that `n` gives of the cell.
pub open spec fn candidate_at<N: Fn((usize, usize)) -> Scalar, E: Eikonal>(
    n: &N,
    e: &E,
    scale_factor: Scalar,
    cells: Seq<Seq<Scalar>>,
    r: int,
    c: int,
    candidate: Scalar,
) -> bool {
    exists|cost: Scalar| #[trigger]
        call_ensures(*n, ((r as usize, c as usize),), cost) && candidate_for(
            e,
            scale_factor,
            cost,
            cells,
            r,
            c,
            candidate,
        )
}

/// The ways from a cell to its four neighbours, in the order in which the
/// neighbours are relaxed: up, down, left, right.
pub open spec fn ways() -> Seq<(int, int)> {
    seq![(-1, 0), (1, 0), (0, -1), (0, 1)]
}

/// The cell `(r, c)` of `rows` holds `value`, and every other cell what it
/// held.
pub open spec fn with_cell<T>(rows: Seq<Seq<T>>, r: int, c: int, value: T) -> Seq<Seq<T>> {
    rows.update(r, rows[r].update(c, value))
}

/// Two grids have the same cells.
pub open spec fn same_shape<S, T>(a: Seq<Seq<S>>, b: Seq<Seq<T>>) -> bool {
    &&& a.len() == b.len()
    &&& forall|r: int| 0 <= r < a.len() ==> (#[trigger] a[r]).len() == b[r].len()
}

/// Two places on a grid are neighbours: one step apart along one axis.
pub open spec fn adjacent(a: (int, int), b: (int, int)) -> bool {
    ||| a.0 == b.0 && (a.1 == b.1 + 1 || b.1 == a.1 + 1)
    ||| a.1 == b.1 && (a.0 == b.0 + 1 || b.0 == a.0 + 1)
}

/// `path` leads from a source of `cells` from neighbour to neighbour over
/// cells that are not blocked.
pub open spec fn open_path(cells: Seq<Seq<Scalar>>, path: Seq<(int, int)>) -> bool {
    &&& path.len() > 0
    &&& cells[path[0].0][path[0].1].zero()
    &&& forall|i: int|
        0 <= i < path.len() ==> inside(cells, (#[trigger] path[i]).0, path[i].1)
            && !cells[path[i].0][path[i].1].nan()
    &&& forall|i: int| 1 <= i < path.len() ==> adjacent(path[i - 1], #[trigger] path[i])
}

/// The cell `(r, c)` can be reached from a source of `cells` without passing
/// a blocked cell.
pub open spec fn reachable(cells: Seq<Seq<Scalar>>, r: int, c: int) -> bool {
    exists|path: Seq<(int, int)>| #[trigger] open_path(cells, path) && path.last() == (r, c)
}

/// A source can be reached.
pub proof fn lemma_source_is_reachable(cells: Seq<Seq<Scalar>>, r: int, c: int)
    requires
        inside(cells, r, c),
        cells[r][c].zero(),
    ensures
        reachable(cells, r, c),
{
    let path = seq![(r, c)];
    assert(open_path(cells, path) && path.last() == (r, c));
}

/// A cell that is not blocked and has a neighbour that can be reached can be
/// reached.
pub proof fn lemma_neighbour_is_reachable(
    cells: Seq<Seq<Scalar>>,
    from: (int, int),
    r: int,
    c: int,
)
    requires
        reachable(cells, from.0, from.1),
        adjacent(from, (r, c)),
        inside(cells, r, c),
        !cells[r][c].nan(),
    ensures
        reachable(cells, r, c),
{
    let path = choose|path: Seq<(int, int)>| #[trigger]
        open_path(cells, path) && path.last() == from;
    let longer = path.push((r, c));
    assert forall|i: int| 0 <= i < longer.len() implies inside(
        cells,
        (#[trigger] longer[i]).0,
        longer[i].1,
    ) && !cells[longer[i].0][longer[i].1].nan() by {
        if i < path.len() {
            assert(longer[i] == path[i]);
        }
    }
    assert forall|i: int| 1 <= i < longer.len() implies adjacent(
        longer[i - 1],
        #[trigger] longer[i],
    ) by {
        if i < path.len() {
            assert(longer[i] == path[i]);
            assert(longer[i - 1] == path[i - 1]);
        }
    }
    assert(open_path(cells, longer) && longer.last() == (r, c));
}

impl Front {
    /// The cell `(r, c)` takes a new value: it may, being neither final nor
    /// blocked.
    pub open spec fn open_at(self, r: int, c: int) -> bool {
        inside(self.cells, r, c) && !self.fixed[r][c] && !self.cells[r][c].nan()
    }

    /// The front after `candidate` was offered to the cell `(r, c)`: a
    /// candidate below the cell's value replaces it and enters the queue, and
    /// any other changes nothing.
    pub open spec fn offered(self, r: int, c: int, candidate: Scalar) -> Front {
        if candidate.spec_lt(self.cells[r][c]) {
            Front {
                cells: with_cell(self.cells, r, c, candidate),
                fixed: self.fixed,
                queue: self.queue.insert(Cell { u: candidate, index: (r as usize, c as usize) }),
            }
        } else {
            self
        }
    }

    /// `after` is this front once the cell `(r, c)` was relaxed: a cell that
    /// may take a new value was offered an arrival time, and another one, or
    /// a place off the grid, changed nothing.
    pub open spec fn relaxed_to<N: Fn((usize, usize)) -> Scalar, E: Eikonal>(
        self,
        n: &N,
        e: &E,
        scale_factor: Scalar,
        r: int,
        c: int,
        after: Front,
    ) -> bool {
        if self.open_at(r, c) {
            exists|candidate: Scalar| #[trigger]
                candidate_at(n, e, scale_factor, self.cells, r, c, candidate) && after
                    == self.offered(r, c, candidate)
        } else {
            after == self
        }
    }

    /// `fronts` is the course of the work on the neighbours of the cell
    /// `(r, c)`, from this front on: each front is the one before it with one
    /// neighbour more relaxed, in the order of `ways`.
    pub open spec fn rounds<N: Fn((usize, usize)) -> Scalar, E: Eikonal>(
        self,
        n: &N,
        e: &E,
        scale_factor: Scalar,
        r: int,
        c: int,
        fronts: Seq<Front>,
    ) -> bool {
        &&& 0 < fronts.len() <= ways().len() + 1
        &&& fronts[0] == self
        &&& forall|k: int|
            0 <= k < fronts.len() - 1 ==> (#[trigger] fronts[k]).relaxed_to(
                n,
                e,
                scale_factor,
                r + ways()[k].0,
                c + ways()[k].1,
                fronts[k + 1],
            )
    }

    /// `after` is this front once the four neighbours of the cell `(r, c)`
    /// were relaxed.
    pub open spec fn relaxed_around<N: Fn((usize, usize)) -> Scalar, E: Eikonal>(
        self,
        n: &N,
        e: &E,
        scale_factor: Scalar,
        r: int,
        c: int,
        after: Front,
    ) -> bool {
        exists|fronts: Seq<Front>| #[trigger]
            self.rounds(n, e, scale_factor, r, c, fronts) && fronts.len() == ways().len() + 1
                && fronts.last() == after
    }

    /// `cell` stands in the queue and nothing there has a lesser value.
    pub open spec fn least(self, cell: Cell) -> bool {
        &&& self.queue.contains(cell)
        &&& forall|other: Cell| #[trigger] self.queue.contains(other) ==> cell.key() <= other.key()
    }

    /// The front after `cell` left the queue and its cell became final.
    pub open spec fn finalized(self, cell: Cell) -> Front {
        Front {
            cells: self.cells,
            fixed: with_cell(self.fixed, cell.index.0 as int, cell.index.1 as int, true),
            queue: self.queue.remove(cell),
        }
    }

    /// `after` is this front one step on, `cell` being what came out of the
    /// queue. An entry for a cell that is final already is dropped. Otherwise
    /// the cell becomes final and its four neighbours are relaxed.
    pub open spec fn stepped_with<N: Fn((usize, usize)) -> Scalar, E: Eikonal>(
        self,
        n: &N,
        e: &E,
        scale_factor: Scalar,
        cell: Cell,
        after: Front,
    ) -> bool {
        let r = cell.index.0 as int;
        let c = cell.index.1 as int;
        if self.fixed[r][c] {
            after == (Front {
                cells: self.cells,
                fixed: self.fixed,
                queue: self.queue.remove(cell),
            })
        } else {
            self.finalized(cell).relaxed_around(n, e, scale_factor, r, c, after)
        }
    }

    /// `after` is this front one step on: with an empty queue it is this
    /// front, and else a cell of least value came out of the queue.
    pub open spec fn stepped_to<N: Fn((usize, usize)) -> Scalar, E: Eikonal>(
        self,
        n: &N,
        e: &E,
        scale_factor: Scalar,
        after: Front,
    ) -> bool {
        if self.queue.len() == 0 {
            after == self
        } else {
            exists|cell: Cell| #[trigger]
                self.least(cell) && self.stepped_with(n, e, scale_factor, cell, after)
        }
    }

    /// The field and the mask have the same cells, and the queue speaks of
    /// cells of the field only.
    pub open spec fn tidy(self) -> bool {
        &&& same_shape(self.cells, self.fixed)
        &&& self.cells.len() <= usize::MAX
        &&& forall|r: int|
            0 <= r < self.cells.len() ==> (#[trigger] self.cells[r]).len() <= usize::MAX
        &&& forall|cell: Cell| #[trigger]
            self.queue.contains(cell) ==> inside(
                self.cells,
                cell.index.0 as int,
                cell.index.1 as int,
            )
    }

    /// What holds of a front that spreads over a field that was `origin`
    /// when it set out.
    pub open spec fn sound(self, origin: Seq<Seq<Scalar>>) -> bool {
        &&& self.tidy()
        &&& same_shape(self.cells, origin)
        // No value has grown, and a blocked cell is as it was.
        &&& forall|r: int, c: int|
            inside(self.cells, r, c) ==> (#[trigger] self.cells[r][c]) == origin[r][c]
                || self.cells[r][c].spec_lt(origin[r][c])
        // Only a cell that can be reached stands in the queue or has a new value.
        &&& forall|cell: Cell| #[trigger]
            self.queue.contains(cell) ==> reachable(
                origin,
                cell.index.0 as int,
                cell.index.1 as int,
            )
        &&& forall|r: int, c: int|
            inside(self.cells, r, c) && (#[trigger] self.cells[r][c]) != origin[r][c]
                ==> reachable(origin, r, c)
        &&& forall|r: int, c: int|
            inside(self.cells, r, c) && #[trigger] self.fixed[r][c] ==> reachable(origin, r, c)
        // A source, and a cell that has a new value, is final or stands in the
        // queue with the value it has.
        &&& forall|r: int, c: int|
            inside(self.cells, r, c) && !(#[trigger] self.fixed[r][c]) && (self.cells[r][c]
                != origin[r][c] || origin[r][c].zero()) ==> self.queue.contains(
                Cell { u: self.cells[r][c], index: (r as usize, c as usize) },
            )
    }
}

/// `fronts` is the course of a wavefront: each front is the one before it,
/// one step on.
pub open spec fn march<N: Fn((usize, usize)) -> Scalar, E: Eikonal>(
    n: &N,
    e: &E,
    scale_factor: Scalar,
    fronts: Seq<Front>,
) -> bool {
    &&& fronts.len() > 0
    &&& forall|i: int|
        0 <= i < fronts.len() - 1 ==> (#[trigger] fronts[i]).stepped_to(
            n,
            e,
            scale_factor,
            fronts[i + 1],
        )
}

/// A wavefront gets from `start` to `end` step by step, and at `end` its
/// queue is empty.
pub open spec fn marches<N: Fn((usize, usize)) -> Scalar, E: Eikonal>(
    n: &N,
    e: &E,
    scale_factor: Scalar,
    start: Front,
    end: Front,
) -> bool {
    exists|fronts: Seq<Front>| #[trigger]
        march(n, e, scale_factor, fronts) && fronts[0] == start && fronts.last() == end
            && end.queue.len() == 0
}

/// `cell` is a source of `cells`, with the value that it has there.
pub open spec fn seed(cells: Seq<Seq<Scalar>>, cell: Cell) -> bool {
    &&& inside(cells, cell.index.0 as int, cell.index.1 as int)
    &&& cells[cell.index.0 as int][cell.index.1 as int].zero()
    &&& cell.u == cells[cell.index.0 as int][cell.index.1 as int]
}

/// `front` is a wavefront that sets out over `cells`: the field is `cells`,
/// no cell is final, and the queue holds the sources of `cells`, each once
/// and with its value.
pub open spec fn sets_out(cells: Seq<Seq<Scalar>>, front: Front) -> bool {
    &&& front.cells == cells
    &&& same_shape(front.fixed, cells)
    &&& forall|r: int, c: int| inside(cells, r, c) ==> !(#[trigger] front.fixed[r][c])
    &&& forall|cell: Cell|
        #[trigger] front.queue.count(cell) == (if seed(cells, cell) {
            1nat
        } else {
            0nat
        })
}

/// The sum of the ordinals of a row of values.
pub open spec fn row_weight(row: Seq<Scalar>) -> int
    decreases row.len(),
{
    if row.len() == 0 {
        0
    } else {
        row_weight(row.drop_last()) + row.last().ordinal_spec()
    }
}

/// The sum of the ordinals of all values of a field. No value of a field
/// grows while a wavefront spreads, and so this sum bounds the work left.
pub open spec fn weight(cells: Seq<Seq<Scalar>>) -> int
    decreases cells.len(),
{
    if cells.len() == 0 {
        0
    } else {
        weight(cells.drop_last()) + row_weight(cells.last())
    }
}

/// The weight of a row is not negative.
pub(crate) proof fn lemma_row_weight_is_natural(row: Seq<Scalar>)
    ensures
        row_weight(row) >= 0,
    decreases row.len(),
{
    if row.len() > 0 {
        lemma_row_weight_is_natural(row.drop_last());
    }
}

/// The weight of a field is not negative.
pub(crate) proof fn lemma_weight_is_natural(cells: Seq<Seq<Scalar>>)
    ensures
        weight(cells) >= 0,
    decreases cells.len(),
{
    if cells.len() > 0 {
        lemma_weight_is_natural(cells.drop_last());
        lemma_row_weight_is_natural(cells.last());
    }
}

/// A new value in a row changes the weight of the row by the difference of
/// the ordinals.
pub(crate) proof fn lemma_row_weight_update(row: Seq<Scalar>, c: int, value: Scalar)
    requires
        0 <= c < row.len(),
    ensures
        row_weight(row.update(c, value)) == row_weight(row) - row[c].ordinal_spec()
            + value.ordinal_spec(),
    decreases row.len(),
{
    let changed = row.update(c, value);
    if c == row.len() - 1 {
        assert(changed.drop_last() =~= row.drop_last());
    } else {
        assert(changed.drop_last() =~= row.drop_last().update(c, value));
        lemma_row_weight_update(row.drop_last(), c, value);
    }
}

/// A new value in a cell changes the weight of the field by the difference
/// of the ordinals.
pub(crate) proof fn lemma_weight_update(cells: Seq<Seq<Scalar>>, r: int, c: int, value: Scalar)
    requires
        inside(cells, r, c),
    ensures
        weight(with_cell(cells, r, c, value)) == weight(cells) - cells[r][c].ordinal_spec()
            + value.ordinal_spec(),
    decreases cells.len(),
{
    let changed = with_cell(cells, r, c, value);
    if r == cells.len() - 1 {
        assert(changed.drop_last() =~= cells.drop_last());
        lemma_row_weight_update(cells[r], c, value);
    } else {
        assert(changed.drop_last() =~= with_cell(cells.drop_last(), r, c, value));
        lemma_weight_update(cells.drop_last(), r, c, value);
    }
}

/// A front that sets out over a field is sound.
pub proof fn lemma_setting_out_is_sound(cells: Seq<Seq<Scalar>>, start: Front)
    requires
        sets_out(cells, start),
        cells.len() <= usize::MAX,
        forall|r: int| 0 <= r < cells.len() ==> (#[trigger] cells[r]).len() <= usize::MAX,
    ensures
        start.sound(cells),
{
    broadcast use vstd::multiset::group_multiset_axioms;

    assert forall|cell: Cell| #[trigger] start.queue.contains(cell) implies inside(
        start.cells,
        cell.index.0 as int,
        cell.index.1 as int,
    ) && reachable(cells, cell.index.0 as int, cell.index.1 as int) by {
        assert(start.queue.count(cell) > 0);
        lemma_source_is_reachable(cells, cell.index.0 as int, cell.index.1 as int);
    }
    assert forall|r: int, c: int|
        inside(start.cells, r, c) && !(#[trigger] start.fixed[r][c]) && (start.cells[r][c]
            != cells[r][c] || cells[r][c].zero()) implies start.queue.contains(
        Cell { u: start.cells[r][c], index: (r as usize, c as usize) },
    ) by {
        let cell = Cell { u: start.cells[r][c], index: (r as usize, c as usize) };
        assert(seed(cells, cell));
        assert(start.queue.count(cell) == 1);
    }
}

/// Dropping an entry for a cell that is final keeps a front sound.
pub proof fn lemma_dropping_keeps_sound(before: Front, origin: Seq<Seq<Scalar>>, cell: Cell)
    requires
        before.sound(origin),
        before.queue.contains(cell),
        before.fixed[cell.index.0 as int][cell.index.1 as int],
    ensures
        (Front { cells: before.cells, fixed: before.fixed, queue: before.queue.remove(cell) }).sound(
            origin,
        ),
{
    broadcast use vstd::multiset::group_multiset_axioms;

    let after = Front { cells: before.cells, fixed: before.fixed, queue: before.queue.remove(cell) };
    let r = cell.index.0 as int;
    let c = cell.index.1 as int;
    assert forall|other: Cell| #[trigger] after.queue.contains(other) implies before.queue.contains(
        other,
    ) by {}
    assert forall|row: int, col: int|
        inside(after.cells, row, col) && !(#[trigger] after.fixed[row][col]) && (
        after.cells[row][col] != origin[row][col]
            || origin[row][col].zero()) implies after.queue.contains(
        Cell { u: after.cells[row][col], index: (row as usize, col as usize) },
    ) by {
        let entry = Cell { u: after.cells[row][col], index: (row as usize, col as usize) };
        assert(before.queue.contains(entry));
        assert(row != r || col != c);
        assert(after.cells[row].len() <= usize::MAX);
        assert(entry.index != cell.index);
    }
}

/// Making final the cell of an entry that leaves the queue keeps a front
/// sound.
pub proof fn lemma_finalizing_keeps_sound(before: Front, origin: Seq<Seq<Scalar>>, cell: Cell)
    requires
        before.sound(origin),
        before.queue.contains(cell),
    ensures
        before.finalized(cell).sound(origin),
        before.finalized(cell).cells == before.cells,
        before.finalized(cell).queue.len() == before.queue.len() - 1,
{
    broadcast use vstd::multiset::group_multiset_axioms;

    let after = before.finalized(cell);
    let r = cell.index.0 as int;
    let c = cell.index.1 as int;
    assert(inside(before.cells, r, c));
    assert(before.fixed[r].len() == before.cells[r].len());
    assert forall|row: int| 0 <= row < after.cells.len() implies (#[trigger] after.cells[row]).len()
        == after.fixed[row].len() by {}
    assert forall|other: Cell| #[trigger] after.queue.contains(other) implies before.queue.contains(
        other,
    ) by {}
    assert forall|row: int, col: int|
        inside(after.cells, row, col) && #[trigger] after.fixed[row][col] implies reachable(
        origin,
        row,
        col,
    ) by {
        if row == r && col == c {
        } else {
            assert(before.fixed[row][col]);
        }
    }
    assert forall|row: int, col: int|
        inside(after.cells, row, col) && !(#[trigger] after.fixed[row][col]) && (
        after.cells[row][col] != origin[row][col]
            || origin[row][col].zero()) implies after.queue.contains(
        Cell { u: after.cells[row][col], index: (row as usize, col as usize) },
    ) by {
        assert(after.fixed[r][c]);
        assert(row != r || col != c);
        assert(!before.fixed[row][col]);
        let entry = Cell { u: after.cells[row][col], index: (row as usize, col as usize) };
        assert(before.queue.contains(entry));
        assert(after.cells[row].len() <= usize::MAX);
        assert(entry.index != cell.index);
    }
}

/// Offering a candidate to a cell next to one that can be reached keeps a
/// front sound, and either changes nothing or takes from the weight of the
/// field.
pub proof fn lemma_offer_keeps_sound(
    before: Front,
    origin: Seq<Seq<Scalar>>,
    from: (int, int),
    r: int,
    c: int,
    candidate: Scalar,
)
    requires
        before.sound(origin),
        before.open_at(r, c),
        reachable(origin, from.0, from.1),
        adjacent(from, (r, c)),
    ensures
        before.offered(r, c, candidate).sound(origin),
        before.offered(r, c, candidate) == before || weight(before.offered(r, c, candidate).cells)
            < weight(before.cells),
{
    broadcast use vstd::multiset::group_multiset_axioms;

    if candidate.spec_lt(before.cells[r][c]) {
        let after = before.offered(r, c, candidate);
        let pushed = Cell { u: candidate, index: (r as usize, c as usize) };
        lemma_weight_update(before.cells, r, c, candidate);
        lemma_neighbour_is_reachable(origin, from, r, c);
        assert forall|row: int| 0 <= row < after.cells.len() implies (
        #[trigger] after.cells[row]).len() == before.cells[row].len() by {}
        assert forall|cell: Cell| #[trigger] after.queue.contains(cell) implies inside(
            after.cells,
            cell.index.0 as int,
            cell.index.1 as int,
        ) && reachable(origin, cell.index.0 as int, cell.index.1 as int) by {
            if cell != pushed {
                assert(before.queue.contains(cell));
            }
        }
        assert forall|row: int, col: int| inside(after.cells, row, col) implies ((
        #[trigger] after.cells[row][col]) == origin[row][col] || after.cells[row][col].spec_lt(
            origin[row][col],
        )) && (after.cells[row][col] != origin[row][col] ==> reachable(origin, row, col)) by {
            if row == r && col == c {
            } else {
                assert(after.cells[row][col] == before.cells[row][col]);
            }
        }
        assert forall|row: int, col: int|
            inside(after.cells, row, col) && #[trigger] after.fixed[row][col] implies reachable(
            origin,
            row,
            col,
        ) by {
            assert(inside(before.cells, row, col));
        }
        assert forall|row: int, col: int|
            inside(after.cells, row, col) && !(#[trigger] after.fixed[row][col]) && (
            after.cells[row][col] != origin[row][col]
                || origin[row][col].zero()) implies after.queue.contains(
            Cell { u: after.cells[row][col], index: (row as usize, col as usize) },
        ) by {
            if row == r && col == c {
            } else {
                assert(after.cells[row][col] == before.cells[row][col]);
                assert(before.queue.contains(
                    Cell { u: before.cells[row][col], index: (row as usize, col as usize) },
                ));
            }
        }
    }
}

/// Relaxing a cell next to one that can be reached keeps a front sound, and
/// either changes nothing or takes from the weight of the field.
pub proof fn lemma_relaxing_keeps_sound<N: Fn((usize, usize)) -> Scalar, E: Eikonal>(
    before: Front,
    origin: Seq<Seq<Scalar>>,
    n: &N,
    e: &E,
    scale_factor: Scalar,
    from: (int, int),
    r: int,
    c: int,
    after: Front,
)
    requires
        before.sound(origin),
        before.relaxed_to(n, e, scale_factor, r, c, after),
        reachable(origin, from.0, from.1),
        adjacent(from, (r, c)),
    ensures
        after.sound(origin),
        after == before || weight(after.cells) < weight(before.cells),
{
    if before.open_at(r, c) {
        let candidate = choose|candidate: Scalar| #[trigger]
            candidate_at(n, e, scale_factor, before.cells, r, c, candidate) && after
                == before.offered(r, c, candidate);
        lemma_offer_keeps_sound(before, origin, from, r, c, candidate);
    }
}

/// A step keeps a front sound. Where there was an entry to take, the step
/// has taken from the weight of the field, or has left the weight and taken
/// from the queue.
pub proof fn lemma_step_keeps_sound<N: Fn((usize, usize)) -> Scalar, E: Eikonal>(
    before: Front,
    origin: Seq<Seq<Scalar>>,
    n: &N,
    e: &E,
    scale_factor: Scalar,
    after: Front,
)
    requires
        before.sound(origin),
        before.stepped_to(n, e, scale_factor, after),
    ensures
        after.sound(origin),
        before.queue.len() > 0 ==> weight(after.cells) < weight(before.cells) || (weight(
            after.cells,
        ) == weight(before.cells) && after.queue.len() < before.queue.len()),
{
    broadcast use vstd::multiset::group_multiset_axioms;

    if before.queue.len() > 0 {
        let cell = choose|cell: Cell| #[trigger]
            before.least(cell) && before.stepped_with(n, e, scale_factor, cell, after);
        let r = cell.index.0 as int;
        let c = cell.index.1 as int;
        assert(before.queue.contains(cell));
        if before.fixed[r][c] {
            lemma_dropping_keeps_sound(before, origin, cell);
        } else {
            let f0 = before.finalized(cell);
            lemma_finalizing_keeps_sound(before, origin, cell);
            let fronts = choose|fronts: Seq<Front>| #[trigger]
                f0.rounds(n, e, scale_factor, r, c, fronts) && fronts.len() == ways().len() + 1
                    && fronts.last() == after;
            assert(ways()[0] == (-1int, 0int));
            assert(ways()[1] == (1int, 0int));
            assert(ways()[2] == (0int, -1int));
            assert(ways()[3] == (0int, 1int));
            assert(fronts[0].relaxed_to(n, e, scale_factor, r - 1, c, fronts[1]));
            assert(fronts[1].relaxed_to(n, e, scale_factor, r + 1, c, fronts[2]));
            assert(fronts[2].relaxed_to(n, e, scale_factor, r, c - 1, fronts[3]));
            assert(fronts[3].relaxed_to(n, e, scale_factor, r, c + 1, fronts[4]));
            let here = (r, c);
            lemma_relaxing_keeps_sound(f0, origin, n, e, scale_factor, here, r - 1, c, fronts[1]);
            lemma_relaxing_keeps_sound(
                fronts[1],
                origin,
                n,
                e,
                scale_factor,
                here,
                r + 1,
                c,
                fronts[2],
            );
            lemma_relaxing_keeps_sound(
                fronts[2],
                origin,
                n,
                e,
                scale_factor,
                here,
                r,
                c - 1,
                fronts[3],
            );
            lemma_relaxing_keeps_sound(
                fronts[3],
                origin,
                n,
                e,
                scale_factor,
                here,
                r,
                c + 1,
                fronts[4],
            );
        }
    }
}

/// Along its course a wavefront that was sound at first is sound.
pub proof fn lemma_march_keeps_sound<N: Fn((usize, usize)) -> Scalar, E: Eikonal>(
    origin: Seq<Seq<Scalar>>,
    n: &N,
    e: &E,
    scale_factor: Scalar,
    fronts: Seq<Front>,
    j: int,
)
    requires
        march(n, e, scale_factor, fronts),
        fronts[0].sound(origin),
        0 <= j < fronts.len(),
    ensures
        fronts[j].sound(origin),
    decreases j,
{
    if j > 0 {
        lemma_march_keeps_sound(origin, n, e, scale_factor, fronts, j - 1);
        assert(fronts[j - 1].stepped_to(n, e, scale_factor, fronts[j - 1 + 1]));
        lemma_step_keeps_sound(fronts[j - 1], origin, n, e, scale_factor, fronts[j]);
    }
}

/// What the solution of a field is like. A wavefront that has set out over
/// `cells` and has come to its end leaves a field of the same cells in which
/// no value has grown and a blocked cell is as it was. A cell that has a
/// new value can be reached from a source without passing a blocked cell,
/// and so can every final cell. Every source and every cell that has a new
/// value is final.
pub proof fn lemma_solution<N: Fn((usize, usize)) -> Scalar, E: Eikonal>(
    cells: Seq<Seq<Scalar>>,
    n: &N,
    e: &E,
    scale_factor: Scalar,
    start: Front,
    end: Front,
)
    requires
        sets_out(cells, start),
        marches(n, e, scale_factor, start, end),
        cells.len() <= usize::MAX,
        forall|r: int| 0 <= r < cells.len() ==> (#[trigger] cells[r]).len() <= usize::MAX,
    ensures
        end.sound(cells),
        same_shape(end.cells, cells),
        forall|r: int, c: int|
            inside(cells, r, c) ==> (#[trigger] end.cells[r][c]) == cells[r][c]
                || end.cells[r][c].spec_lt(cells[r][c]),
        forall|r: int, c: int|
            inside(cells, r, c) && !reachable(cells, r, c) ==> (#[trigger] end.cells[r][c])
                == cells[r][c] && !end.fixed[r][c],
        forall|r: int, c: int|
            inside(cells, r, c) && ((#[trigger] end.cells[r][c]) != cells[r][c]
                || cells[r][c].zero()) ==> end.fixed[r][c],
{
    let fronts = choose|fronts: Seq<Front>| #[trigger]
        march(n, e, scale_factor, fronts) && fronts[0] == start && fronts.last() == end
            && end.queue.len() == 0;
    lemma_setting_out_is_sound(cells, start);
    lemma_march_keeps_sound(cells, n, e, scale_factor, fronts, fronts.len() - 1);
    lemma_settled(end, cells);
    assert forall|r: int, c: int| inside(cells, r, c) implies inside(end.cells, r, c) by {}
}

/// What relaxing a cell can do: the mask stays as it is, and no cell of the
/// field changes but the one that is relaxed, which is not final and takes a
/// lesser value.
pub proof fn lemma_relaxing_changes_one_open_cell<N: Fn((usize, usize)) -> Scalar, E: Eikonal>(
    before: Front,
    n: &N,
    e: &E,
    scale_factor: Scalar,
    r: int,
    c: int,
    after: Front,
)
    requires
        before.tidy(),
        before.relaxed_to(n, e, scale_factor, r, c, after),
    ensures
        after.tidy(),
        after.fixed == before.fixed,
        same_shape(after.cells, before.cells),
        forall|row: int, col: int|
            inside(before.cells, row, col) ==> (#[trigger] after.cells[row][col])
                == before.cells[row][col] || (row == r && col == c && !before.fixed[r][c]
                && after.cells[row][col].spec_lt(before.cells[row][col])),
{
    broadcast use vstd::multiset::group_multiset_axioms;

    if before.open_at(r, c) {
        let candidate = choose|candidate: Scalar| #[trigger]
            candidate_at(n, e, scale_factor, before.cells, r, c, candidate) && after
                == before.offered(r, c, candidate);
        if candidate.spec_lt(before.cells[r][c]) {
            let pushed = Cell { u: candidate, index: (r as usize, c as usize) };
            assert forall|row: int| 0 <= row < after.cells.len() implies (
            #[trigger] after.cells[row]).len() == before.cells[row].len() by {}
            assert forall|cell: Cell| #[trigger] after.queue.contains(cell) implies inside(
                after.cells,
                cell.index.0 as int,
                cell.index.1 as int,
            ) by {
                if cell != pushed {
                    assert(before.queue.contains(cell));
                }
            }
        }
    }
}

/// A step keeps a front tidy. What is final stays final and keeps its value,
/// and no value grows: a cell holds what it held or less.
pub proof fn lemma_step_keeps_final_cells<N: Fn((usize, usize)) -> Scalar, E: Eikonal>(
    before: Front,
    n: &N,
    e: &E,
    scale_factor: Scalar,
    after: Front,
)
    requires
        before.tidy(),
        before.stepped_to(n, e, scale_factor, after),
    ensures
        after.tidy(),
        same_shape(after.cells, before.cells),
        forall|row: int, col: int|
            inside(before.cells, row, col) && before.fixed[row][col] ==> (
            #[trigger] after.fixed[row][col]) && after.cells[row][col] == before.cells[row][col],
        forall|row: int, col: int|
            inside(before.cells, row, col) ==> (#[trigger] after.cells[row][col])
                == before.cells[row][col] || after.cells[row][col].spec_lt(
                before.cells[row][col],
            ),
{
    broadcast use vstd::multiset::group_multiset_axioms;

    if before.queue.len() > 0 {
        let cell = choose|cell: Cell| #[trigger]
            before.least(cell) && before.stepped_with(n, e, scale_factor, cell, after);
        let r = cell.index.0 as int;
        let c = cell.index.1 as int;
        assert(before.queue.contains(cell));
        assert(inside(before.cells, r, c));
        assert(before.fixed[r].len() == before.cells[r].len());
        if before.fixed[r][c] {
            assert forall|other: Cell| #[trigger] after.queue.contains(other) implies inside(
                after.cells,
                other.index.0 as int,
                other.index.1 as int,
            ) by {
                assert(before.queue.contains(other));
            }
        } else {
            let f0 = before.finalized(cell);
            let fronts = choose|fronts: Seq<Front>| #[trigger]
                f0.rounds(n, e, scale_factor, r, c, fronts) && fronts.len() == ways().len() + 1
                    && fronts.last() == after;
            let f1 = fronts[1];
            let f2 = fronts[2];
            let f3 = fronts[3];
            assert(ways()[0] == (-1int, 0int));
            assert(ways()[1] == (1int, 0int));
            assert(ways()[2] == (0int, -1int));
            assert(ways()[3] == (0int, 1int));
            assert(fronts[0].relaxed_to(n, e, scale_factor, r - 1, c, f1));
            assert(fronts[1].relaxed_to(n, e, scale_factor, r + 1, c, f2));
            assert(fronts[2].relaxed_to(n, e, scale_factor, r, c - 1, f3));
            assert(fronts[3].relaxed_to(n, e, scale_factor, r, c + 1, fronts[4]));
            assert forall|row: int| 0 <= row < f0.cells.len() implies (
            #[trigger] f0.cells[row]).len() == f0.fixed[row].len() by {}
            assert forall|other: Cell| #[trigger] f0.queue.contains(other) implies inside(
                f0.cells,
                other.index.0 as int,
                other.index.1 as int,
            ) by {
                assert(before.queue.contains(other));
            }
            assert(f0.tidy());
            lemma_relaxing_changes_one_open_cell(f0, n, e, scale_factor, r - 1, c, f1);
            lemma_relaxing_changes_one_open_cell(f1, n, e, scale_factor, r + 1, c, f2);
            lemma_relaxing_changes_one_open_cell(f2, n, e, scale_factor, r, c - 1, f3);
            lemma_relaxing_changes_one_open_cell(f3, n, e, scale_factor, r, c + 1, after);
            assert forall|row: int, col: int| inside(before.cells, row, col) implies ((
            #[trigger] after.cells[row][col]) == before.cells[row][col]
                || after.cells[row][col].spec_lt(before.cells[row][col])) && (
            before.fixed[row][col] ==> after.fixed[row][col] && after.cells[row][col]
                == before.cells[row][col]) by {
                assert(inside(f0.cells, row, col));
                assert(inside(f1.cells, row, col));
                assert(inside(f2.cells, row, col));
                assert(inside(f3.cells, row, col));
                let v0 = f0.cells[row][col];
                let v1 = f1.cells[row][col];
                let v2 = f2.cells[row][col];
                let v3 = f3.cells[row][col];
                let v4 = after.cells[row][col];
                assert(v1 == v0 || v1.spec_lt(v0));
                assert(v2 == v1 || v2.spec_lt(v1));
                assert(v3 == v2 || v3.spec_lt(v2));
                assert(v4 == v3 || v4.spec_lt(v3));
                if before.fixed[row][col] {
                    assert(f0.fixed[row][col]);
                }
            }
        }
    }
}

/// Along the course of a wavefront what is final stays final and keeps its
/// value, and no value grows.
pub proof fn lemma_march_keeps_final_cells<N: Fn((usize, usize)) -> Scalar, E: Eikonal>(
    n: &N,
    e: &E,
    scale_factor: Scalar,
    fronts: Seq<Front>,
    i: int,
    j: int,
)
    requires
        march(n, e, scale_factor, fronts),
        fronts[0].tidy(),
        0 <= i <= j < fronts.len(),
    ensures
        fronts[j].tidy(),
        same_shape(fronts[j].cells, fronts[i].cells),
        forall|row: int, col: int|
            inside(fronts[i].cells, row, col) && fronts[i].fixed[row][col] ==> (
            #[trigger] fronts[j].fixed[row][col]) && fronts[j].cells[row][col]
                == fronts[i].cells[row][col],
        forall|row: int, col: int|
            inside(fronts[i].cells, row, col) ==> (#[trigger] fronts[j].cells[row][col])
                == fronts[i].cells[row][col] || fronts[j].cells[row][col].spec_lt(
                fronts[i].cells[row][col],
            ),
    decreases j,
{
    if j == 0 {
    } else if i == j {
        lemma_march_keeps_final_cells(n, e, scale_factor, fronts, 0, j - 1);
        assert(fronts[j - 1].stepped_to(n, e, scale_factor, fronts[j - 1 + 1]));
        lemma_step_keeps_final_cells(fronts[j - 1], n, e, scale_factor, fronts[j]);
    } else {
        lemma_march_keeps_final_cells(n, e, scale_factor, fronts, i, j - 1);
        assert(fronts[j - 1].stepped_to(n, e, scale_factor, fronts[j - 1 + 1]));
        lemma_step_keeps_final_cells(fronts[j - 1], n, e, scale_factor, fronts[j]);
        let a = fronts[i];
        let b = fronts[j - 1];
        let d = fronts[j];
        assert forall|row: int, col: int| inside(a.cells, row, col) implies ((
        #[trigger] d.cells[row][col]) == a.cells[row][col] || d.cells[row][col].spec_lt(
            a.cells[row][col],
        )) && (a.fixed[row][col] ==> d.fixed[row][col] && d.cells[row][col]
            == a.cells[row][col]) by {
            assert(inside(b.cells, row, col));
            assert(b.cells[row][col] == a.cells[row][col] || b.cells[row][col].spec_lt(
                a.cells[row][col],
            ));
            assert(d.cells[row][col] == b.cells[row][col] || d.cells[row][col].spec_lt(
                b.cells[row][col],
            ));
            if a.fixed[row][col] {
                assert(b.fixed[row][col]);
            }
        }
    }
}

/// No arrival time that `e` answers with is below zero.
pub open spec fn never_below_zero<E: Eikonal>(e: &E) -> bool {
    &&& forall|u: Scalar, step: Scalar, answer: Scalar| #[trigger]
        call_ensures(E::one_sided, (e, u, step), answer) ==> !answer.spec_lt(Scalar { bits: 0 })
    &&& forall|ux: Scalar, uy: Scalar, sq: Scalar, answer: Scalar| #[trigger]
        call_ensures(E::two_sided, (e, ux, uy, sq), answer) ==> !answer.spec_lt(
            Scalar { bits: 0 },
        )
}

/// No cell of `cells` holds a number below zero.
pub open spec fn none_below_zero(cells: Seq<Seq<Scalar>>) -> bool {
    forall|r: int, c: int|
        inside(cells, r, c) ==> !(#[trigger] cells[r][c]).spec_lt(Scalar { bits: 0 })
}

/// A candidate is an answer of `e`: where no answer is below zero, no
/// candidate is.
pub proof fn lemma_candidate_is_an_answer<N: Fn((usize, usize)) -> Scalar, E: Eikonal>(
    n: &N,
    e: &E,
    scale_factor: Scalar,
    cells: Seq<Seq<Scalar>>,
    r: int,
    c: int,
    candidate: Scalar,
)
    requires
        candidate_at(n, e, scale_factor, cells, r, c, candidate),
        never_below_zero(e),
    ensures
        !candidate.spec_lt(Scalar { bits: 0 }),
{
    let cost = choose|cost: Scalar| #[trigger]
        call_ensures(*n, ((r as usize, c as usize),), cost) && candidate_for(
            e,
            scale_factor,
            cost,
            cells,
            r,
            c,
            candidate,
        );
    let ux = along_rows(cells, r, c);
    let uy = along_cols(cells, r, c);
    let step = choose|step: Scalar| #[trigger]
        call_ensures(E::slowness, (e, scale_factor, cost), step) && arrival(
            e,
            ux,
            uy,
            step,
            candidate,
        );
    if ux.infinite() {
        assert(call_ensures(E::one_sided, (e, uy, step), candidate));
    } else if uy.infinite() {
        assert(call_ensures(E::one_sided, (e, ux, step), candidate));
    } else {
        let sq = choose|sq: Scalar| #[trigger]
            call_ensures(E::discriminant, (e, ux, uy, step), sq) && if (Scalar {
                bits: 0,
            }).spec_le(sq) {
                call_ensures(E::two_sided, (e, ux, uy, sq), candidate)
            } else {
                call_ensures(E::one_sided, (e, ux.spec_min(uy), step), candidate)
            };
        if (Scalar { bits: 0 }).spec_le(sq) {
            assert(call_ensures(E::two_sided, (e, ux, uy, sq), candidate));
        } else {
            assert(call_ensures(E::one_sided, (e, ux.spec_min(uy), step), candidate));
        }
    }
}

/// Where no answer of `e` is below zero, relaxing a cell of a field in which
/// nothing is below zero leaves nothing below zero, and leaves every zero as
/// it is.
pub proof fn lemma_relaxing_keeps_zero<N: Fn((usize, usize)) -> Scalar, E: Eikonal>(
    before: Front,
    n: &N,
    e: &E,
    scale_factor: Scalar,
    r: int,
    c: int,
    after: Front,
)
    requires
        before.tidy(),
        before.relaxed_to(n, e, scale_factor, r, c, after),
        never_below_zero(e),
        none_below_zero(before.cells),
    ensures
        after.tidy(),
        same_shape(after.cells, before.cells),
        none_below_zero(after.cells),
        forall|row: int, col: int|
            inside(before.cells, row, col) && before.cells[row][col].zero() ==> (
            #[trigger] after.cells[row][col]) == before.cells[row][col],
{
    lemma_relaxing_changes_one_open_cell(before, n, e, scale_factor, r, c, after);
    if before.open_at(r, c) {
        let candidate = choose|candidate: Scalar| #[trigger]
            candidate_at(n, e, scale_factor, before.cells, r, c, candidate) && after
                == before.offered(r, c, candidate);
        lemma_candidate_is_an_answer(n, e, scale_factor, before.cells, r, c, candidate);
        assert forall|row: int, col: int| inside(after.cells, row, col) implies !(
        #[trigger] after.cells[row][col]).spec_lt(Scalar { bits: 0 }) by {
            assert(inside(before.cells, row, col));
            if row == r && col == c {
            } else {
                assert(after.cells[row][col] == before.cells[row][col]);
            }
        }
    } else {
        assert forall|row: int, col: int| inside(after.cells, row, col) implies !(
        #[trigger] after.cells[row][col]).spec_lt(Scalar { bits: 0 }) by {
            assert(inside(before.cells, row, col));
        }
    }
}

/// Where no answer of `e` is below zero, a step over a field in which nothing
/// is below zero leaves nothing below zero, and leaves every zero as it is.
pub proof fn lemma_step_keeps_zero<N: Fn((usize, usize)) -> Scalar, E: Eikonal>(
    before: Front,
    n: &N,
    e: &E,
    scale_factor: Scalar,
    after: Front,
)
    requires
        before.tidy(),
        before.stepped_to(n, e, scale_factor, after),
        never_below_zero(e),
        none_below_zero(before.cells),
    ensures
        after.tidy(),
        same_shape(after.cells, before.cells),
        none_below_zero(after.cells),
        forall|row: int, col: int|
            inside(before.cells, row, col) && before.cells[row][col].zero() ==> (
            #[trigger] after.cells[row][col]) == before.cells[row][col],
{
    broadcast use vstd::multiset::group_multiset_axioms;

    lemma_step_keeps_final_cells(before, n, e, scale_factor, after);
    if before.queue.len() > 0 {
        let cell = choose|cell: Cell| #[trigger]
            before.least(cell) && before.stepped_with(n, e, scale_factor, cell, after);
        let r = cell.index.0 as int;
        let c = cell.index.1 as int;
        assert(before.queue.contains(cell));
        assert(inside(before.cells, r, c));
        assert(before.fixed[r].len() == before.cells[r].len());
        if !before.fixed[r][c] {
            let f0 = before.finalized(cell);
            let fronts = choose|fronts: Seq<Front>| #[trigger]
                f0.rounds(n, e, scale_factor, r, c, fronts) && fronts.len() == ways().len() + 1
                    && fronts.last() == after;
            assert(ways()[0] == (-1int, 0int));
            assert(ways()[1] == (1int, 0int));
            assert(ways()[2] == (0int, -1int));
            assert(ways()[3] == (0int, 1int));
            assert(fronts[0].relaxed_to(n, e, scale_factor, r - 1, c, fronts[1]));
            assert(fronts[1].relaxed_to(n, e, scale_factor, r + 1, c, fronts[2]));
            assert(fronts[2].relaxed_to(n, e, scale_factor, r, c - 1, fronts[3]));
            assert(fronts[3].relaxed_to(n, e, scale_factor, r, c + 1, fronts[4]));
            assert forall|row: int| 0 <= row < f0.cells.len() implies (
            #[trigger] f0.cells[row]).len() == f0.fixed[row].len() by {}
            assert forall|other: Cell| #[trigger] f0.queue.contains(other) implies inside(
                f0.cells,
                other.index.0 as int,
                other.index.1 as int,
            ) by {
                assert(before.queue.contains(other));
            }
            assert(f0.tidy());
            lemma_relaxing_keeps_zero(f0, n, e, scale_factor, r - 1, c, fronts[1]);
            lemma_relaxing_keeps_zero(fronts[1], n, e, scale_factor, r + 1, c, fronts[2]);
            lemma_relaxing_keeps_zero(fronts[2], n, e, scale_factor, r, c - 1, fronts[3]);
            lemma_relaxing_keeps_zero(fronts[3], n, e, scale_factor, r, c + 1, fronts[4]);
            assert forall|row: int, col: int|
                inside(before.cells, row, col) && before.cells[row][col].zero() implies (
            #[trigger] after.cells[row][col]) == before.cells[row][col] by {
                assert(inside(f0.cells, row, col));
                assert(inside(fronts[1].cells, row, col));
                assert(inside(fronts[2].cells, row, col));
                assert(inside(fronts[3].cells, row, col));
                assert(fronts[1].cells[row][col] == f0.cells[row][col]);
                assert(fronts[2].cells[row][col] == fronts[1].cells[row][col]);
                assert(fronts[3].cells[row][col] == fronts[2].cells[row][col]);
                assert(fronts[4].cells[row][col] == fronts[3].cells[row][col]);
            }
        } else {
            assert forall|row: int, col: int| inside(after.cells, row, col) implies !(
            #[trigger] after.cells[row][col]).spec_lt(Scalar { bits: 0 }) by {
                assert(inside(before.cells, row, col));
            }
        }
    } else {
        assert forall|row: int, col: int| inside(after.cells, row, col) implies !(
        #[trigger] after.cells[row][col]).spec_lt(Scalar { bits: 0 }) by {
            assert(inside(before.cells, row, col));
        }
    }
}

/// Where no answer of `e` is below zero, along the course of a wavefront over
/// a field in which nothing is below zero nothing falls below zero, and every
/// zero stays as it is.
pub proof fn lemma_march_keeps_zero<N: Fn((usize, usize)) -> Scalar, E: Eikonal>(
    n: &N,
    e: &E,
    scale_factor: Scalar,
    fronts: Seq<Front>,
    j: int,
)
    requires
        march(n, e, scale_factor, fronts),
        fronts[0].tidy(),
        never_below_zero(e),
        none_below_zero(fronts[0].cells),
        0 <= j < fronts.len(),
    ensures
        fronts[j].tidy(),
        same_shape(fronts[j].cells, fronts[0].cells),
        none_below_zero(fronts[j].cells),
        forall|row: int, col: int|
            inside(fronts[0].cells, row, col) && fronts[0].cells[row][col].zero() ==> (
            #[trigger] fronts[j].cells[row][col]) == fronts[0].cells[row][col],
    decreases j,
{
    if j > 0 {
        lemma_march_keeps_zero(n, e, scale_factor, fronts, j - 1);
        assert(fronts[j - 1].stepped_to(n, e, scale_factor, fronts[j - 1 + 1]));
        lemma_step_keeps_zero(fronts[j - 1], n, e, scale_factor, fronts[j]);
        assert forall|row: int, col: int|
            inside(fronts[0].cells, row, col) && fronts[0].cells[row][col].zero() implies (
        #[trigger] fronts[j].cells[row][col]) == fronts[0].cells[row][col] by {
            assert(inside(fronts[j - 1].cells, row, col));
            assert(fronts[j - 1].cells[row][col] == fronts[0].cells[row][col]);
        }
    }
}

/// Where the arithmetic answers with no arrival time below zero, the solution
/// of a field in which nothing is below zero lowers no source, which is still
/// the zero it was, and holds in every cell that is not blocked a number that
/// is no less than zero and no more than the cell held.
pub proof fn lemma_solution_is_not_below_zero<N: Fn((usize, usize)) -> Scalar, E: Eikonal>(
    cells: Seq<Seq<Scalar>>,
    n: &N,
    e: &E,
    scale_factor: Scalar,
    start: Front,
    end: Front,
)
    requires
        sets_out(cells, start),
        marches(n, e, scale_factor, start, end),
        cells.len() <= usize::MAX,
        forall|r: int| 0 <= r < cells.len() ==> (#[trigger] cells[r]).len() <= usize::MAX,
        never_below_zero(e),
        none_below_zero(cells),
    ensures
        same_shape(end.cells, cells),
        forall|r: int, c: int|
            inside(cells, r, c) && cells[r][c].zero() ==> (#[trigger] end.cells[r][c])
                == cells[r][c],
        forall|r: int, c: int|
            inside(cells, r, c) && !cells[r][c].nan() ==> (Scalar { bits: 0 }).spec_le(
                #[trigger] end.cells[r][c],
            ) && end.cells[r][c].spec_le(cells[r][c]),
{
    let fronts = choose|fronts: Seq<Front>| #[trigger]
        march(n, e, scale_factor, fronts) && fronts[0] == start && fronts.last() == end
            && end.queue.len() == 0;
    lemma_setting_out_is_sound(cells, start);
    lemma_solution(cells, n, e, scale_factor, start, end);
    lemma_march_keeps_zero(n, e, scale_factor, fronts, fronts.len() - 1);
    assert forall|r: int, c: int| inside(cells, r, c) && !cells[r][c].nan() implies (Scalar {
        bits: 0,
    }).spec_le(#[trigger] end.cells[r][c]) && end.cells[r][c].spec_le(cells[r][c]) by {
        assert(inside(end.cells, r, c));
        assert(end.cells[r][c] == cells[r][c] || end.cells[r][c].spec_lt(cells[r][c]));
        assert(!end.cells[r][c].spec_lt(Scalar { bits: 0 }));
    }
}

/// Once the queue is empty, every source and every cell that has a new value
/// is final: nothing is left to do.
pub proof fn lemma_settled(front: Front, origin: Seq<Seq<Scalar>>)
    requires
        front.sound(origin),
        front.queue.len() == 0,
    ensures
        forall|r: int, c: int|
            inside(front.cells, r, c) && (front.cells[r][c] != origin[r][c]
                || origin[r][c].zero()) ==> #[trigger] front.fixed[r][c],
{
    broadcast use vstd::multiset::group_multiset_axioms;

    assert forall|r: int, c: int|
        inside(front.cells, r, c) && (front.cells[r][c] != origin[r][c]
            || origin[r][c].zero()) implies #[trigger] front.fixed[r][c] by {
        if !front.fixed[r][c] {
            let entry = Cell { u: front.cells[r][c], index: (r as usize, c as usize) };
            assert(front.queue.contains(entry));
            assert(front.queue.count(entry) <= front.queue.len());
        }
    }
}

/// Only a cell that can be reached from a source becomes final.
pub proof fn lemma_final_is_reachable(front: Front, origin: Seq<Seq<Scalar>>, r: int, c: int)
    requires
        front.sound(origin),
        inside(front.cells, r, c),
        front.fixed[r][c],
    ensures
        reachable(origin, r, c),
        !origin[r][c].nan(),
{
    let path = choose|path: Seq<(int, int)>| #[trigger]
        open_path(origin, path) && path.last() == (r, c);
    assert(path[path.len() - 1] == (r, c));
}

/// A cell that cannot be reached from a source holds after the solution what
/// it held before: positive infinity, where it was not known.
pub proof fn lemma_unreachable_keeps_its_value(
    front: Front,
    origin: Seq<Seq<Scalar>>,
    r: int,
    c: int,
)
    requires
        front.sound(origin),
        inside(front.cells, r, c),
        !reachable(origin, r, c),
    ensures
        front.cells[r][c] == origin[r][c],
{
}

} // verus!
