//! A rectangular container with bounds-checked access to its cells.

use vstd::prelude::*;
use crate::element::is_default;
use crate::error::{UtilsError, UtilsResult};
use crate::grid::{
    Grid,
    lemma_cell_in_store,
    lemma_equal_by_cells,
    lemma_put,
    lemma_rows_between_at,
    lemma_rows_between_shape,
    lemma_transposed_at,
    lemma_transposed_shape,
    lemma_with_column_at,
    lemma_with_row_at,
};

verus! {

/// A matrix of `columns * rows` cells over a flat store, in which the cell
/// `(column, row)` lies at `row * columns + column`. Its view is the `Grid`
/// of its shape and its cells, which is well-formed at all times.
pub struct Matrix<T> {
    columns: usize,
    rows: usize,
    data: Vec<T>,
}

impl<T> Matrix<T> {
    #[verifier::type_invariant]
    spec fn shape_holds(self) -> bool {
        self.data@.len() == self.columns * self.rows
    }
}

impl<T> View for Matrix<T> {
    type V = Grid<T>;

    closed spec fn view(&self) -> Grid<T> {
        Grid { columns: self.columns as nat, rows: self.rows as nat, cells: self.data@ }
    }
}

impl<T: Default + Copy> Matrix<T> {
    /// A matrix of the given shape whose cells all hold one default value of
    /// `T`. The number of cells has to fit in `usize`.
    pub fn new(columns: usize, rows: usize) -> (m: Self)
        requires
            columns * rows <= usize::MAX,
        ensures
            m@.well_formed(),
            m@.columns == columns,
            m@.rows == rows,
            m@.cells.len() == columns * rows,
            exists|value: T| #[trigger]
                is_default(value) && m@ == Grid::filled(columns as nat, rows as nat, value),
    {
        let count: usize = columns * rows;
        let value = T::default();
        let mut data: Vec<T> = Vec::with_capacity(count);
        let mut filled: usize = 0;
        while filled < count
            invariant
                filled <= count,
                data@.len() == filled,
                is_default(value),
                forall|k: int| 0 <= k < filled ==> data@[k] == value,
            decreases count - filled,
        {
            data.push(value);
            filled += 1;
        }
        let m = Matrix { columns, rows, data };
        proof {
            assert(m@.cells =~= Grid::filled(columns as nat, rows as nat, value).cells);
            assert(is_default(value) && m@ == Grid::filled(columns as nat, rows as nat, value));
        }
        m
    }

    /// The place of the cell `(column, row)` in the store, or
    /// `WrongPosition` where the matrix has no such cell.
    fn get_pos(&self, column: usize, row: usize) -> (pos: UtilsResult<usize>)
        ensures
            self@.well_formed(),
            self@.contains(column as int, row as int) ==> pos is Ok
                && pos->Ok_0 == self@.offset(column as int, row as int)
                && pos->Ok_0 < self@.cells.len(),
            !self@.contains(column as int, row as int) ==> pos == Err::<usize, UtilsError>(
                UtilsError::WrongPosition,
            ),
    {
        proof {
            use_type_invariant(self);
        }
        if column >= self.columns || row >= self.rows {
            return Err(UtilsError::WrongPosition);
        }
        proof {
            assert(self.data@.len() == self.data.len());
            assert(self@.well_formed());
            lemma_cell_in_store(self@, column as int, row as int);
            assert(self@.offset(column as int, row as int) == row * self.columns + column);
        }
        Ok(row * self.columns + column)
    }

    /// A copy of the cell `(column, row)`, or `WrongPosition` where
    /// `column >= columns` or `row >= rows`.
    pub fn get(&self, column: usize, row: usize) -> (cell: UtilsResult<T>)
        ensures
            self@.well_formed(),
            self@.contains(column as int, row as int) ==> cell == Ok::<T, UtilsError>(
                self@.at(column as int, row as int),
            ),
            !self@.contains(column as int, row as int) ==> cell == Err::<T, UtilsError>(
                UtilsError::WrongPosition,
            ),
    {
        match self.get_pos(column, row) {
            Err(e) => Err(e),
            Ok(pos) => if pos < self.data.len() {
                Ok(self.data[pos])
            } else {
                Err(UtilsError::NotFound)
            },
        }
    }

    /// Overwrites the cell `(column, row)` and nothing else, or fails with
    /// `WrongPosition` and leaves the matrix as it was where `column >=
    /// columns` or `row >= rows`.
    pub fn set(&mut self, column: usize, row: usize, val: T) -> (done: UtilsResult<()>)
        ensures
            final(self)@.well_formed(),
            old(self)@.contains(column as int, row as int) ==> done == Ok::<(), UtilsError>(())
                && final(self)@ == old(self)@.put(column as int, row as int, val),
            !old(self)@.contains(column as int, row as int) ==> done == Err::<(), UtilsError>(
                UtilsError::WrongPosition,
            ) && final(self)@ == old(self)@,
    {
        match self.get_pos(column, row) {
            Err(e) => Err(e),
            Ok(pos) => {
                self.data[pos] = val;
                Ok(())
            },
        }
    }

    /// The shape as the two-element vector `[columns, rows]`.
    pub fn get_shape(&self) -> (shape: Vec<usize>)
        ensures
            self@.well_formed(),
            shape@.len() == 2,
            shape@[0] == self@.columns,
            shape@[1] == self@.rows,
    {
        proof {
            use_type_invariant(self);
        }
        vec![self.columns, self.rows]
    }

    /// The number of columns.
    pub fn get_columns(&self) -> (columns: usize)
        ensures
            self@.well_formed(),
            columns == self@.columns,
    {
        proof {
            use_type_invariant(self);
        }
        self.columns
    }

    /// The number of rows.
    pub fn get_rows(&self) -> (rows: usize)
        ensures
            self@.well_formed(),
            rows == self@.rows,
    {
        proof {
            use_type_invariant(self);
        }
        self.rows
    }

    /// A copy of the whole store, row after row. It never fails.
    pub fn get_data(&self) -> (data: UtilsResult<Vec<T>>)
        ensures
            self@.well_formed(),
            data is Ok,
            data->Ok_0@ == self@.cells,
            data->Ok_0@.len() == self@.columns * self@.rows,
    {
        proof {
            use_type_invariant(self);
        }
        let count = self.data.len();
        let mut copy: Vec<T> = Vec::with_capacity(count);
        let mut next: usize = 0;
        while next < count
            invariant
                count == self.data@.len(),
                next <= count,
                copy@ == self.data@.take(next as int),
            decreases count - next,
        {
            copy.push(self.data[next]);
            next += 1;
        }
        Ok(copy)
    }

    /// Replaces the whole store by `data`, or fails with `WrongSize` and
    /// leaves the matrix as it was where `data` does not hold exactly
    /// `columns * rows` elements.
    pub fn set_data(&mut self, data: Vec<T>) -> (done: UtilsResult<()>)
        ensures
            final(self)@.well_formed(),
            data@.len() == old(self)@.columns * old(self)@.rows ==> done == Ok::<(), UtilsError>(())
                && final(self)@ == old(self)@.replaced(data@),
            data@.len() != old(self)@.columns * old(self)@.rows ==> done == Err::<(), UtilsError>(
                UtilsError::WrongSize,
            ) && final(self)@ == old(self)@,
    {
        proof {
            use_type_invariant(&*self);
            assert(self.data@.len() == self.data.len());
        }
        if data.len() != self.columns * self.rows {
            return Err(UtilsError::WrongSize);
        }
        self.data = data;
        Ok(())
    }

    /// A new matrix of `rows` columns and `columns` rows that holds at
    /// `(row, column)` what this one holds at `(column, row)`. It never
    /// fails.
    pub fn transpose(&self) -> (transposed: UtilsResult<Matrix<T>>)
        ensures
            self@.well_formed(),
            transposed is Ok,
            transposed->Ok_0@ == self@.transposed(),
    {
        proof {
            use_type_invariant(self);
            assert(self.data@.len() == self.data.len());
            assert(self.rows * self.columns == self.columns * self.rows) by (nonlinear_arith);
        }
        let mut matrix = Matrix::new(self.rows, self.columns);
        for column in 0..self.columns
            invariant
                self@.well_formed(),
                self@.columns == self.columns,
                self@.rows == self.rows,
                matrix@.well_formed(),
                matrix@.columns == self@.rows,
                matrix@.rows == self@.columns,
                forall|c: int, r: int|
                    0 <= c < column && 0 <= r < self@.rows ==> #[trigger] matrix@.at(r, c)
                        == self@.at(c, r),
        {
            for row in 0..self.rows
                invariant
                    self@.well_formed(),
                    self@.columns == self.columns,
                    self@.rows == self.rows,
                    column < self@.columns,
                    matrix@.well_formed(),
                    matrix@.columns == self@.rows,
                    matrix@.rows == self@.columns,
                    forall|c: int, r: int|
                        0 <= c < column && 0 <= r < self@.rows ==> #[trigger] matrix@.at(r, c)
                            == self@.at(c, r),
                    forall|r: int|
                        0 <= r < row ==> #[trigger] matrix@.at(r, column as int) == self@.at(
                            column as int,
                            r,
                        ),
            {
                match self.get(column, row) {
                    Err(e) => {
                        return Err(e);
                    },
                    Ok(val) => {
                        let ghost before = matrix@;
                        let _ = matrix.set(row, column, val);
                        proof {
                            assert forall|c: int, r: int|
                                0 <= c < column && 0 <= r < self@.rows implies #[trigger] matrix@.at(
                                r,
                                c,
                            ) == self@.at(c, r) by {
                                lemma_put(before, row as int, column as int, val, r, c);
                            }
                            assert forall|r: int| 0 <= r < row + 1 implies #[trigger] matrix@.at(
                                r,
                                column as int,
                            ) == self@.at(column as int, r) by {
                                lemma_put(before, row as int, column as int, val, r, column as int);
                            }
                        }
                    },
                }
            }
        }
        proof {
            let goal = self@.transposed();
            lemma_transposed_shape(self@);
            assert forall|c: int, r: int| matrix@.contains(c, r) implies #[trigger] matrix@.at(
                c,
                r,
            ) == goal.at(c, r) by {
                lemma_transposed_at(self@, r, c);
            }
            lemma_equal_by_cells(matrix@, goal);
        }
        Ok(matrix)
    }

    /// A new matrix that holds the rows `from..to` of this one, the first
    /// of them as its row 0. Where `to < from` or `to > rows` it fails with
    /// `WrongPosition`.
    pub fn slice(&self, from: usize, to: usize) -> (sliced: UtilsResult<Matrix<T>>)
        ensures
            self@.well_formed(),
            from <= to <= self@.rows ==> sliced is Ok && sliced->Ok_0@ == self@.rows_between(
                from as int,
                to as int,
            ),
            !(from <= to <= self@.rows) ==> sliced is Err && sliced->Err_0
                == UtilsError::WrongPosition,
    {
        proof {
            use_type_invariant(self);
            assert(self.data@.len() == self.data.len());
        }
        if to < from || to > self.rows {
            return Err(UtilsError::WrongPosition);
        }
        let delta = to - from;
        proof {
            lemma_rows_between_shape(self@, from as int, to as int);
            assert(self.columns * delta == to * self.columns - from * self.columns)
                by (nonlinear_arith)
                requires
                    delta == to - from,
            ;
        }
        let mut matrix = Matrix::new(self.columns, delta);
        for row in 0..delta
            invariant
                self@.well_formed(),
                self@.columns == self.columns,
                self@.rows == self.rows,
                from + delta == to,
                to <= self.rows,
                matrix@.well_formed(),
                matrix@.columns == self@.columns,
                matrix@.rows == delta,
                forall|c: int, r: int|
                    0 <= c < self@.columns && 0 <= r < row ==> #[trigger] matrix@.at(c, r)
                        == self@.at(c, from + r),
        {
            for column in 0..self.columns
                invariant
                    self@.well_formed(),
                    self@.columns == self.columns,
                    self@.rows == self.rows,
                    from + delta == to,
                    to <= self.rows,
                    row < delta,
                    matrix@.well_formed(),
                    matrix@.columns == self@.columns,
                    matrix@.rows == delta,
                    forall|c: int, r: int|
                        0 <= c < self@.columns && 0 <= r < row ==> #[trigger] matrix@.at(c, r)
                            == self@.at(c, from + r),
                    forall|c: int|
                        0 <= c < column ==> #[trigger] matrix@.at(c, row as int) == self@.at(
                            c,
                            from + row,
                        ),
            {
                match self.get(column, from + row) {
                    Err(e) => {
                        return Err(e);
                    },
                    Ok(val) => {
                        let ghost before = matrix@;
                        let _ = matrix.set(column, row, val);
                        proof {
                            assert forall|c: int, r: int|
                                0 <= c < self@.columns && 0 <= r < row implies #[trigger] matrix@.at(
                                c,
                                r,
                            ) == self@.at(c, from + r) by {
                                lemma_put(before, column as int, row as int, val, c, r);
                            }
                            assert forall|c: int| 0 <= c < column + 1 implies #[trigger] matrix@.at(
                                c,
                                row as int,
                            ) == self@.at(c, from + row) by {
                                lemma_put(before, column as int, row as int, val, c, row as int);
                            }
                        }
                    },
                }
            }
        }
        proof {
            let goal = self@.rows_between(from as int, to as int);
            assert forall|c: int, r: int| matrix@.contains(c, r) implies #[trigger] matrix@.at(
                c,
                r,
            ) == goal.at(c, r) by {
                lemma_rows_between_at(self@, from as int, to as int, c, r);
            }
            lemma_equal_by_cells(matrix@, goal);
        }
        Ok(matrix)
    }

    /// Overwrites row `row` with the first `columns` elements of `data`.
    /// Where the matrix has no such row it fails with `WrongPosition`;
    /// where it has, and `data` holds fewer than `columns` elements, with
    /// `WrongSize`. A failure leaves the matrix as it was.
    pub fn add_row(&mut self, row: usize, data: Vec<T>) -> (done: UtilsResult<()>)
        ensures
            final(self)@.well_formed(),
            row >= old(self)@.rows ==> done == Err::<(), UtilsError>(UtilsError::WrongPosition)
                && final(self)@ == old(self)@,
            row < old(self)@.rows && data@.len() < old(self)@.columns ==> done == Err::<
                (),
                UtilsError,
            >(UtilsError::WrongSize) && final(self)@ == old(self)@,
            row < old(self)@.rows && data@.len() >= old(self)@.columns ==> done == Ok::<
                (),
                UtilsError,
            >(()) && final(self)@ == old(self)@.with_row(row as int, data@),
    {
        proof {
            use_type_invariant(&*self);
        }
        if row >= self.rows {
            return Err(UtilsError::WrongPosition);
        }
        if data.len() < self.columns {
            return Err(UtilsError::WrongSize);
        }
        let ghost initial = self@;
        let columns = self.columns;
        for i in 0..columns
            invariant
                initial.well_formed(),
                initial.columns == columns,
                row < initial.rows,
                data@.len() >= columns,
                self@.well_formed(),
                self@.columns == initial.columns,
                self@.rows == initial.rows,
                forall|c: int, r: int|
                    initial.contains(c, r) ==> #[trigger] self@.at(c, r) == (if r == row && c < i {
                        data@[c]
                    } else {
                        initial.at(c, r)
                    }),
        {
            let ghost before = self@;
            let _ = self.set(i, row, data[i]);
            proof {
                assert forall|c: int, r: int| initial.contains(c, r) implies #[trigger] self@.at(
                    c,
                    r,
                ) == (if r == row && c < i + 1 {
                    data@[c]
                } else {
                    initial.at(c, r)
                }) by {
                    lemma_put(before, i as int, row as int, data@[i as int], c, r);
                }
            }
        }
        proof {
            let goal = initial.with_row(row as int, data@);
            assert forall|c: int, r: int| self@.contains(c, r) implies #[trigger] self@.at(c, r)
                == goal.at(c, r) by {
                lemma_with_row_at(initial, row as int, data@, c, r);
            }
            lemma_equal_by_cells(self@, goal);
        }
        Ok(())
    }

    /// Overwrites column `column` with the first `rows` elements of `data`.
    /// Where the matrix has no such column it fails with `WrongPosition`;
    /// where it has, and `data` holds fewer than `rows` elements, with
    /// `WrongSize`. A failure leaves the matrix as it was.
    pub fn add_column(&mut self, column: usize, data: Vec<T>) -> (done: UtilsResult<()>)
        ensures
            final(self)@.well_formed(),
            column >= old(self)@.columns ==> done == Err::<(), UtilsError>(
                UtilsError::WrongPosition,
            ) && final(self)@ == old(self)@,
            column < old(self)@.columns && data@.len() < old(self)@.rows ==> done == Err::<
                (),
                UtilsError,
            >(UtilsError::WrongSize) && final(self)@ == old(self)@,
            column < old(self)@.columns && data@.len() >= old(self)@.rows ==> done == Ok::<
                (),
                UtilsError,
            >(()) && final(self)@ == old(self)@.with_column(column as int, data@),
    {
        proof {
            use_type_invariant(&*self);
        }
        if column >= self.columns {
            return Err(UtilsError::WrongPosition);
        }
        if data.len() < self.rows {
            return Err(UtilsError::WrongSize);
        }
        let ghost initial = self@;
        let rows = self.rows;
        for i in 0..rows
            invariant
                initial.well_formed(),
                initial.rows == rows,
                column < initial.columns,
                data@.len() >= rows,
                self@.well_formed(),
                self@.columns == initial.columns,
                self@.rows == initial.rows,
                forall|c: int, r: int|
                    initial.contains(c, r) ==> #[trigger] self@.at(c, r) == (if c == column && r
                        < i {
                        data@[r]
                    } else {
                        initial.at(c, r)
                    }),
        {
            let ghost before = self@;
            let _ = self.set(column, i, data[i]);
            proof {
                assert forall|c: int, r: int| initial.contains(c, r) implies #[trigger] self@.at(
                    c,
                    r,
                ) == (if c == column && r < i + 1 {
                    data@[r]
                } else {
                    initial.at(c, r)
                }) by {
                    lemma_put(before, column as int, i as int, data@[i as int], c, r);
                }
            }
        }
        proof {
            let goal = initial.with_column(column as int, data@);
            assert forall|c: int, r: int| self@.contains(c, r) implies #[trigger] self@.at(c, r)
                == goal.at(c, r) by {
                lemma_with_column_at(initial, column as int, data@, c, r);
            }
            lemma_equal_by_cells(self@, goal);
        }
        Ok(())
    }
}

} // verus!
