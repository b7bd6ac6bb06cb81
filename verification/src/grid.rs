//! The grids of the solver: a field of values and a mask of flags, both kept
//! in ndarray's two-dimensional arrays.
//!
//! Such an array is opaque to the contracts. What it holds has a name here,
//! a sequence of rows, and so has the number of cells in a row, which an
//! array has even where it has no row. The few array operations in use are
//! stated over these names, and everything else is proved from those
//! statements.

use crate::scalar::Scalar;
use vstd::prelude::*;

verus! {

/// A grid of values: an `ndarray::Array2` of `Scalar`.
#[verifier::external_body]
#[derive(Debug)]
pub struct Field {
    cells: ndarray::Array2<Scalar>,
}

/// A grid of flags: an `ndarray::Array2` of `bool`.
#[verifier::external_body]
pub struct Mask {
    cells: ndarray::Array2<bool>,
}

/// What a field holds, row by row.
pub uninterp spec fn field_cells(field: Field) -> Seq<Seq<Scalar>>;

/// How many cells a row of a field has: the length of the second axis of
/// the array, whether or not the array has a row.
pub uninterp spec fn field_width(field: Field) -> nat;

/// What a mask holds, row by row.
pub uninterp spec fn mask_cells(mask: Mask) -> Seq<Seq<bool>>;

/// `rows` has `n` rows of `m` cells each.
pub open spec fn shaped<T>(rows: Seq<Seq<T>>, n: int, m: int) -> bool {
    &&& rows.len() == n
    &&& forall|r: int| 0 <= r < n ==> (#[trigger] rows[r]).len() == m
}

/// `(r, c)` is a cell of `rows`.
pub open spec fn inside<T>(rows: Seq<Seq<T>>, r: int, c: int) -> bool {
    0 <= r < rows.len() && 0 <= c < rows[r].len()
}

/// What ndarray asks of the shape of an array, and holds of every array: the
/// product of its axes that are not zero is within `isize`.
pub open spec fn countable(n: int, m: int) -> bool {
    &&& 0 <= n <= isize::MAX
    &&& 0 <= m <= isize::MAX
    &&& n * m <= isize::MAX
}

/// A field of `n` by `m` cells can be made: the shape is one of an array, and
/// the cells, of eight bytes each, can be allocated as one block.
pub open spec fn fits(n: int, m: int) -> bool {
    &&& countable(n, m)
    &&& n * m * 8 <= isize::MAX
}

impl View for Field {
    type V = Seq<Seq<Scalar>>;

    open spec fn view(&self) -> Seq<Seq<Scalar>> {
        field_cells(*self)
    }
}

impl View for Mask {
    type V = Seq<Seq<bool>>;

    open spec fn view(&self) -> Seq<Seq<bool>> {
        mask_cells(*self)
    }
}

impl Field {
    /// How many cells a row of the field has.
    pub open spec fn width(&self) -> nat {
        field_width(*self)
    }

    /// `ndarray::Array2::from_elem` with the shape `(rows, cols)`: an array of
    /// that shape with `value` in every cell. It panics on a shape that does
    /// not fit, which is left out.
    #[verifier::external_body]
    pub(crate) fn from_elem(rows: usize, cols: usize, value: Scalar) -> (field: Field)
        requires
            fits(rows as int, cols as int),
        ensures
            shaped(field_cells(field), rows as int, cols as int),
            field_width(field) == cols,
            forall|r: int, c: int|
                inside(field_cells(field), r, c) ==> #[trigger] field_cells(field)[r][c] == value,
    {
        Field { cells: ndarray::Array2::from_elem((rows, cols), value) }
    }

    /// `ndarray::ArrayBase::dim` of a two-dimensional array: the number of
    /// rows, and the number of cells that every row has, which is the width
    /// of the field. The shape of an array is countable.
    #[verifier::external_body]
    pub(crate) fn shape(&self) -> (shape: (usize, usize))
        ensures
            shaped(field_cells(*self), shape.0 as int, shape.1 as int),
            shape.1 == field_width(*self),
            countable(shape.0 as int, shape.1 as int),
    {
        self.cells.dim()
    }

    /// Indexing an `ndarray::Array2` by `(row, col)`: what the cell holds. It
    /// panics outside the array, which is left out.
    #[verifier::external_body]
    pub(crate) fn at(&self, row: usize, col: usize) -> (value: Scalar)
        requires
            inside(field_cells(*self), row as int, col as int),
        ensures
            value == field_cells(*self)[row as int][col as int],
    {
        self.cells[(row, col)]
    }

    /// Assigning to an `ndarray::Array2` indexed by `(row, col)`: that cell
    /// holds `value` and every other cell what it held, and the array has the
    /// shape it had. It panics outside the array, which is left out.
    #[verifier::external_body]
    pub(crate) fn put(&mut self, row: usize, col: usize, value: Scalar)
        requires
            inside(field_cells(*old(self)), row as int, col as int),
        ensures
            field_cells(*final(self)) == field_cells(*old(self)).update(
                row as int,
                field_cells(*old(self))[row as int].update(col as int, value),
            ),
            field_width(*final(self)) == field_width(*old(self)),
    {
        self.cells[(row, col)] = value;
    }

    /// A field of `rows` by `cols` cells that all hold `value`, where such a
    /// field can be made.
    pub fn new(rows: usize, cols: usize, value: Scalar) -> (made: Option<Field>)
        ensures
            made.is_some() == fits(rows as int, cols as int),
            made matches Some(field) ==> {
                &&& shaped(field@, rows as int, cols as int)
                &&& field.width() == cols
                &&& forall|r: int, c: int| inside(field@, r, c) ==> #[trigger] field@[r][c] == value
            },
    {
        let limit: usize = isize::MAX as usize;
        if rows > limit || cols > limit {
            return None;
        }
        if rows != 0 && cols != 0 {
            if cols > limit / 8 / rows {
                proof {
                    lemma_too_large(rows as int, cols as int, limit as int);
                }
                return None;
            }
            proof {
                lemma_small_enough(rows as int, cols as int, limit as int);
            }
        } else {
            assert(rows * cols == 0 && rows * cols * 8 == 0) by (nonlinear_arith)
                requires
                    rows == 0 || cols == 0,
            ;
        }
        Some(Field::from_elem(rows, cols, value))
    }

    /// The number of rows and the number of cells in each.
    pub fn dim(&self) -> (shape: (usize, usize))
        ensures
            shape.0 == self@.len(),
            shape.1 == self.width(),
            shaped(self@, shape.0 as int, shape.1 as int),
            countable(shape.0 as int, shape.1 as int),
    {
        self.shape()
    }

    /// What the cell `(row, col)` holds, if the field has that cell.
    pub fn get(&self, row: usize, col: usize) -> (value: Option<Scalar>)
        ensures
            value.is_some() == inside(self@, row as int, col as int),
            value matches Some(v) ==> v == self@[row as int][col as int],
    {
        let (rows, cols) = self.shape();
        if row < rows && col < cols {
            Some(self.at(row, col))
        } else {
            None
        }
    }

    /// Writes `value` into the cell `(row, col)`, if the field has that cell,
    /// and says whether it has.
    pub fn set(&mut self, row: usize, col: usize, value: Scalar) -> (done: bool)
        ensures
            done == inside(old(self)@, row as int, col as int),
            done ==> final(self)@ == old(self)@.update(
                row as int,
                old(self)@[row as int].update(col as int, value),
            ),
            !done ==> final(self)@ == old(self)@,
            final(self).width() == old(self).width(),
    {
        let (rows, cols) = self.shape();
        if row < rows && col < cols {
            self.put(row, col, value);
            true
        } else {
            false
        }
    }
}

impl Mask {
    /// `ndarray::Array2::from_elem` with the shape `(rows, cols)`: an array of
    /// that shape with `flag` in every cell. It panics on a shape that is not
    /// countable, which is left out.
    #[verifier::external_body]
    pub(crate) fn from_elem(rows: usize, cols: usize, flag: bool) -> (mask: Mask)
        requires
            countable(rows as int, cols as int),
        ensures
            shaped(mask_cells(mask), rows as int, cols as int),
            forall|r: int, c: int|
                inside(mask_cells(mask), r, c) ==> #[trigger] mask_cells(mask)[r][c] == flag,
    {
        Mask { cells: ndarray::Array2::from_elem((rows, cols), flag) }
    }

    /// Indexing an `ndarray::Array2` by `(row, col)`: what the cell holds. It
    /// panics outside the array, which is left out.
    #[verifier::external_body]
    pub(crate) fn at(&self, row: usize, col: usize) -> (flag: bool)
        requires
            inside(mask_cells(*self), row as int, col as int),
        ensures
            flag == mask_cells(*self)[row as int][col as int],
    {
        self.cells[(row, col)]
    }

    /// Assigning to an `ndarray::Array2` indexed by `(row, col)`: that cell
    /// holds `flag` and every other cell what it held. It panics outside the
    /// array, which is left out.
    #[verifier::external_body]
    pub(crate) fn put(&mut self, row: usize, col: usize, flag: bool)
        requires
            inside(mask_cells(*old(self)), row as int, col as int),
        ensures
            mask_cells(*final(self)) == mask_cells(*old(self)).update(
                row as int,
                mask_cells(*old(self))[row as int].update(col as int, flag),
            ),
    {
        self.cells[(row, col)] = flag;
    }
}

proof fn lemma_too_large(n: int, m: int, limit: int)
    requires
        0 < n,
        0 <= limit,
        m > limit / 8 / n,
    ensures
        n * m * 8 > limit,
{
    let q = limit / 8;
    assert(m >= q / n + 1);
    assert(n * m >= n * (q / n + 1)) by (nonlinear_arith)
        requires
            m >= q / n + 1,
            n > 0,
    ;
    assert(n * (q / n + 1) > q) by (nonlinear_arith)
        requires
            n > 0,
            q >= 0,
    ;
    assert(n * m * 8 >= (q + 1) * 8) by (nonlinear_arith)
        requires
            n * m >= q + 1,
    ;
}

proof fn lemma_small_enough(n: int, m: int, limit: int)
    requires
        0 < n,
        0 <= m,
        0 <= limit,
        m <= limit / 8 / n,
    ensures
        n * m * 8 <= limit,
{
    let q = limit / 8;
    assert(n * m <= n * (q / n)) by (nonlinear_arith)
        requires
            m <= q / n,
            n > 0,
    ;
    assert(n * (q / n) <= q) by (nonlinear_arith)
        requires
            n > 0,
            q >= 0,
    ;
    assert(n * m * 8 <= q * 8) by (nonlinear_arith)
        requires
            n * m <= q,
    ;
}

} // verus!
