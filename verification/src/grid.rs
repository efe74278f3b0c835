//! The mathematical model of a matrix: a shape and a row-major sequence of
//! cells, with the operations on it that the executable matrix implements
//! and the laws that relate them.

use vstd::prelude::*;
use vstd::arithmetic::div_mod::{
    lemma_fundamental_div_mod,
    lemma_fundamental_div_mod_converse_div,
    lemma_fundamental_div_mod_converse_mod,
    lemma_mod_pos_bound,
    lemma_multiply_divide_lt,
    lemma_div_pos_is_pos,
};

verus! {

/// A rectangle of `columns * rows` cells, stored row after row.
pub struct Grid<T> {
    pub columns: nat,
    pub rows: nat,
    pub cells: Seq<T>,
}

impl<T> Grid<T> {
    /// The store holds exactly one cell for each position of the shape.
    pub open spec fn well_formed(self) -> bool {
        self.cells.len() == self.columns * self.rows
    }

    /// `(column, row)` names a cell of this grid.
    pub open spec fn contains(self, column: int, row: int) -> bool {
        0 <= column < self.columns && 0 <= row < self.rows
    }

    /// Where the cell `(column, row)` lies in the store: rows follow each
    /// other, and within a row the columns do.
    pub open spec fn offset(self, column: int, row: int) -> int {
        row * self.columns + column
    }

    /// The cell at `(column, row)`.
    pub open spec fn at(self, column: int, row: int) -> T {
        self.cells[self.offset(column, row)]
    }

    /// A grid of the given shape with `value` in every cell.
    pub open spec fn filled(columns: nat, rows: nat, value: T) -> Grid<T> {
        Grid { columns, rows, cells: Seq::new(columns * rows, |k: int| value) }
    }

    /// This grid with the cell at `(column, row)` replaced by `value`.
    pub open spec fn put(self, column: int, row: int, value: T) -> Grid<T> {
        Grid {
            columns: self.columns,
            rows: self.rows,
            cells: self.cells.update(self.offset(column, row), value),
        }
    }

    /// This shape over another store.
    pub open spec fn replaced(self, cells: Seq<T>) -> Grid<T> {
        Grid { columns: self.columns, rows: self.rows, cells }
    }

    /// The grid mirrored at its diagonal: `rows` columns and `columns` rows,
    /// with the cell `(r, c)` taken from `(c, r)` of this grid.
    pub open spec fn transposed(self) -> Grid<T> {
        Grid {
            columns: self.rows,
            rows: self.columns,
            cells: Seq::new(
                self.cells.len(),
                |k: int| self.at(k / (self.rows as int), k % (self.rows as int)),
            ),
        }
    }

    /// The rows `from..to` of this grid, as a grid of `to - from` rows.
    pub open spec fn rows_between(self, from: int, to: int) -> Grid<T> {
        Grid {
            columns: self.columns,
            rows: (to - from) as nat,
            cells: self.cells.subrange(from * self.columns, to * self.columns),
        }
    }

    /// This grid with row `row` overwritten by the first `columns` elements
    /// of `values`.
    pub open spec fn with_row(self, row: int, values: Seq<T>) -> Grid<T> {
        Grid {
            columns: self.columns,
            rows: self.rows,
            cells: Seq::new(
                self.cells.len(),
                |k: int|
                    if row * self.columns <= k < row * self.columns + self.columns {
                        values[k - row * self.columns]
                    } else {
                        self.cells[k]
                    },
            ),
        }
    }

    /// This grid with column `column` overwritten by the first `rows`
    /// elements of `values`.
    pub open spec fn with_column(self, column: int, values: Seq<T>) -> Grid<T> {
        Grid {
            columns: self.columns,
            rows: self.rows,
            cells: Seq::new(
                self.cells.len(),
                |k: int|
                    if k % (self.columns as int) == column {
                        values[k / (self.columns as int)]
                    } else {
                        self.cells[k]
                    },
            ),
        }
    }
}

/// The offset of a position inside a `columns * rows` rectangle lies inside
/// its store.
pub proof fn lemma_offset_in_store(columns: int, rows: int, column: int, row: int)
    requires
        0 <= column < columns,
        0 <= row < rows,
    ensures
        0 <= row * columns + column < columns * rows,
{
    assert(0 <= row * columns && row * columns + columns <= rows * columns
        && rows * columns == columns * rows) by (nonlinear_arith)
        requires
            0 <= row < rows,
            0 < columns,
    ;
}

/// The offset determines the position: column and row are its remainder and
/// quotient by the number of columns.
pub proof fn lemma_offset_splits(columns: int, column: int, row: int)
    requires
        0 <= column < columns,
        0 <= row,
    ensures
        (row * columns + column) % columns == column,
        (row * columns + column) / columns == row,
{
    lemma_fundamental_div_mod_converse_mod(row * columns + column, columns, row, column);
    lemma_fundamental_div_mod_converse_div(row * columns + column, columns, row, column);
}

/// Every place in the store of a `columns * rows` rectangle is the offset of
/// exactly the position given by its remainder and quotient.
pub proof fn lemma_store_place_is_offset(columns: int, rows: int, k: int)
    requires
        0 <= columns,
        0 <= rows,
        0 <= k < columns * rows,
    ensures
        0 <= k % columns < columns,
        0 <= k / columns < rows,
        (k / columns) * columns + k % columns == k,
{
    assert(columns > 0) by (nonlinear_arith)
        requires
            0 <= columns,
            0 <= k < columns * rows,
    ;
    lemma_mod_pos_bound(k, columns);
    lemma_div_pos_is_pos(k, columns);
    lemma_multiply_divide_lt(k, columns, rows);
    lemma_fundamental_div_mod(k, columns);
    assert(columns * (k / columns) == (k / columns) * columns) by (nonlinear_arith);
}

/// Two positions of a grid that differ have different offsets.
pub proof fn lemma_offset_injective<T>(g: Grid<T>, c1: int, r1: int, c2: int, r2: int)
    requires
        g.contains(c1, r1),
        g.contains(c2, r2),
        g.offset(c1, r1) == g.offset(c2, r2),
    ensures
        c1 == c2,
        r1 == r2,
{
    lemma_offset_splits(g.columns as int, c1, r1);
    lemma_offset_splits(g.columns as int, c2, r2);
}

/// A cell of a well-formed grid lies inside its store.
pub proof fn lemma_cell_in_store<T>(g: Grid<T>, column: int, row: int)
    requires
        g.well_formed(),
        g.contains(column, row),
    ensures
        0 <= g.offset(column, row) < g.cells.len(),
{
    lemma_offset_in_store(g.columns as int, g.rows as int, column, row);
}

/// Two well-formed grids of one shape that agree at every position are
/// equal.
pub proof fn lemma_equal_by_cells<T>(a: Grid<T>, b: Grid<T>)
    requires
        a.well_formed(),
        b.well_formed(),
        a.columns == b.columns,
        a.rows == b.rows,
        forall|column: int, row: int|
            a.contains(column, row) ==> #[trigger] a.at(column, row) == b.at(column, row),
    ensures
        a == b,
{
    assert forall|k: int| 0 <= k < a.cells.len() implies a.cells[k] == b.cells[k] by {
        let columns = a.columns as int;
        lemma_store_place_is_offset(columns, a.rows as int, k);
        assert(a.contains(k % columns, k / columns));
        assert(a.at(k % columns, k / columns) == b.at(k % columns, k / columns));
    }
    assert(a.cells =~= b.cells);
}

/// Writing a cell changes that cell and no other, and keeps the shape.
pub proof fn lemma_put<T>(g: Grid<T>, column: int, row: int, value: T, c: int, r: int)
    requires
        g.well_formed(),
        g.contains(column, row),
        g.contains(c, r),
    ensures
        g.put(column, row, value).well_formed(),
        g.put(column, row, value).columns == g.columns,
        g.put(column, row, value).rows == g.rows,
        g.put(column, row, value).at(c, r) == (if c == column && r == row {
            value
        } else {
            g.at(c, r)
        }),
{
    lemma_cell_in_store(g, column, row);
    lemma_cell_in_store(g, c, r);
    if g.offset(c, r) == g.offset(column, row) {
        lemma_offset_injective(g, c, r, column, row);
    }
}

/// A filled grid has the shape it was made with and one cell for each of
/// its positions.
pub proof fn lemma_filled_shape<T>(columns: nat, rows: nat, value: T)
    ensures
        Grid::filled(columns, rows, value).well_formed(),
        Grid::filled(columns, rows, value).columns == columns,
        Grid::filled(columns, rows, value).rows == rows,
        Grid::filled(columns, rows, value).cells.len() == columns * rows,
{
}

/// A filled grid holds the value at every position.
pub proof fn lemma_filled_at<T>(columns: nat, rows: nat, value: T, column: int, row: int)
    requires
        0 <= column < columns,
        0 <= row < rows,
    ensures
        Grid::filled(columns, rows, value).at(column, row) == value,
{
    lemma_offset_in_store(columns as int, rows as int, column, row);
}

/// Replacing the store by one of the right length gives a well-formed grid
/// of the same shape that holds exactly the new store.
pub proof fn lemma_replaced_reads_back<T>(g: Grid<T>, cells: Seq<T>)
    requires
        cells.len() == g.columns * g.rows,
    ensures
        g.replaced(cells).well_formed(),
        g.replaced(cells).columns == g.columns,
        g.replaced(cells).rows == g.rows,
        g.replaced(cells).cells == cells,
{
}

/// The transpose of a well-formed grid is well-formed and has the two
/// dimensions exchanged.
pub proof fn lemma_transposed_shape<T>(g: Grid<T>)
    requires
        g.well_formed(),
    ensures
        g.transposed().well_formed(),
        g.transposed().columns == g.rows,
        g.transposed().rows == g.columns,
{
    assert(g.columns * g.rows == g.rows * g.columns) by (nonlinear_arith);
}

/// The transpose of a well-formed grid holds at `(row, column)` what the
/// grid holds at `(column, row)`.
pub proof fn lemma_transposed_at<T>(g: Grid<T>, column: int, row: int)
    requires
        g.well_formed(),
        g.contains(column, row),
    ensures
        g.transposed().contains(row, column),
        g.transposed().at(row, column) == g.at(column, row),
{
    lemma_transposed_shape(g);
    lemma_cell_in_store(g.transposed(), row, column);
    lemma_offset_splits(g.rows as int, row, column);
}

/// Transposing twice gives the grid back.
pub proof fn lemma_transpose_involution<T>(g: Grid<T>)
    requires
        g.well_formed(),
    ensures
        g.transposed().transposed() == g,
{
    let t = g.transposed();
    let tt = t.transposed();
    lemma_transposed_shape(g);
    lemma_transposed_shape(t);
    assert forall|column: int, row: int| tt.contains(column, row) implies #[trigger] tt.at(
        column,
        row,
    ) == g.at(column, row) by {
        lemma_transposed_at(g, column, row);
        lemma_transposed_at(t, row, column);
    }
    lemma_equal_by_cells(tt, g);
}

/// The rows `from..to` of a well-formed grid form a well-formed grid that
/// holds at `(column, row)` what the grid holds at `(column, from + row)`.
pub proof fn lemma_rows_between_at<T>(g: Grid<T>, from: int, to: int, column: int, row: int)
    requires
        g.well_formed(),
        0 <= from <= to <= g.rows,
        0 <= column < g.columns,
        0 <= row < to - from,
    ensures
        g.rows_between(from, to).well_formed(),
        g.rows_between(from, to).columns == g.columns,
        g.rows_between(from, to).rows == to - from,
        g.rows_between(from, to).at(column, row) == g.at(column, from + row),
{
    lemma_rows_between_shape(g, from, to);
    let s = g.rows_between(from, to);
    lemma_cell_in_store(s, column, row);
    assert((from + row) * g.columns == from * g.columns + row * g.columns) by (nonlinear_arith);
}

/// The rows `from..to` of a well-formed grid form a well-formed grid of
/// `to - from` rows, also where that is none.
pub proof fn lemma_rows_between_shape<T>(g: Grid<T>, from: int, to: int)
    requires
        g.well_formed(),
        0 <= from <= to <= g.rows,
    ensures
        g.rows_between(from, to).well_formed(),
        g.rows_between(from, to).columns == g.columns,
        g.rows_between(from, to).rows == to - from,
        0 <= from * g.columns <= to * g.columns <= g.cells.len(),
{
    let columns = g.columns as int;
    let rows = g.rows as int;
    assert(0 <= from * columns <= to * columns <= rows * columns
        && rows * columns == columns * rows
        && to * columns - from * columns == columns * (to - from)) by (nonlinear_arith)
        requires
            0 <= from <= to <= rows,
            0 <= columns,
    ;
}

/// Overwriting a row changes the cells of that row and no others.
pub proof fn lemma_with_row_at<T>(g: Grid<T>, row: int, values: Seq<T>, c: int, r: int)
    requires
        g.well_formed(),
        g.contains(c, r),
        0 <= row < g.rows,
    ensures
        g.with_row(row, values).well_formed(),
        g.with_row(row, values).at(c, r) == (if r == row {
            values[c]
        } else {
            g.at(c, r)
        }),
{
    let columns = g.columns as int;
    lemma_cell_in_store(g, c, r);
    lemma_offset_splits(columns, c, r);
    let k = r * columns + c;
    if row * columns <= k < row * columns + columns {
        lemma_offset_splits(columns, k - row * columns, row);
    }
}

/// Overwriting a column changes the cells of that column and no others.
pub proof fn lemma_with_column_at<T>(g: Grid<T>, column: int, values: Seq<T>, c: int, r: int)
    requires
        g.well_formed(),
        g.contains(c, r),
        0 <= column < g.columns,
    ensures
        g.with_column(column, values).well_formed(),
        g.with_column(column, values).at(c, r) == (if c == column {
            values[r]
        } else {
            g.at(c, r)
        }),
{
    lemma_cell_in_store(g, c, r);
    lemma_offset_splits(g.columns as int, c, r);
}

} // verus!
