//! A table of fixed width, stored row after row in one vector.
use vstd::prelude::*;

verus! {

/// A table whose rows all have the same number of cells.
pub struct Tableau<T> {
    row_size: usize,
    data: Vec<T>,
}

impl<T> Tableau<T> {
    /// The number of cells in a row.
    pub closed spec fn cols(&self) -> nat {
        self.row_size as nat
    }

    /// The cells, row after row.
    pub closed spec fn cells(&self) -> Seq<T> {
        self.data@
    }

    /// The table holds all the cells of the row `row`.
    pub open spec fn has_row(&self, row: int) -> bool {
        0 <= row && (row + 1) * self.cols() <= self.cells().len()
    }

    /// The cells of the row `row`.
    pub open spec fn row_cells(&self, row: int) -> Seq<T> {
        self.cells().subrange(row * self.cols(), (row + 1) * self.cols())
    }

    /// A table of `rows` rows of `cols` cells, each holding a default value.
    pub fn new(rows: usize, cols: usize) -> (tableau: Self) where T: Default
        requires
            rows * cols <= usize::MAX,
        ensures
            tableau.cols() == cols,
            tableau.cells().len() == rows * cols,
            forall|i: int|
                0 <= i < rows * cols ==> call_ensures(T::default, (), #[trigger] tableau.cells()[i]),
            forall|row: int| tableau.has_row(row) <==> 0 <= row && (row < rows || cols == 0),
    {
        let mut tableau = Self { row_size: cols, data: Vec::new() };
        let size = rows * cols;
        let mut filled: usize = 0;
        while filled < size
            invariant
                filled <= size,
                tableau.row_size == cols,
                tableau.data@.len() == filled,
                forall|i: int|
                    0 <= i < filled ==> call_ensures(T::default, (), #[trigger] tableau.data@[i]),
            decreases size - filled,
        {
            tableau.data.push(T::default());
            filled += 1;
        }
        proof {
            assert forall|row: int| tableau.has_row(row) <==> 0 <= row && (row < rows || cols
                == 0) by {
                if 0 <= row < rows {
                    assert((row + 1) * cols <= rows * cols) by (nonlinear_arith)
                        requires
                            0 <= row < rows,
                            0 <= cols,
                    ;
                } else if 0 <= row && cols > 0 {
                    assert((row + 1) * cols > rows * cols) by (nonlinear_arith)
                        requires
                            row >= rows,
                            0 < cols,
                    ;
                } else if cols == 0 {
                    assert((row + 1) * cols == 0) by (nonlinear_arith)
                        requires
                            cols == 0,
                    ;
                }
            }
        }
        tableau
    }

    /// Tells whether the table holds all the cells of the row `row`.
    pub fn holds_row(&self, row: usize) -> (held: bool)
        ensures
            held == self.has_row(row as int),
    {
        if self.row_size == 0 {
            assert((row + 1) * 0 == 0);
            return true;
        }
        let full = self.data.len() / self.row_size;
        proof {
            let len = self.data@.len() as int;
            let cols = self.row_size as int;
            vstd::arithmetic::div_mod::lemma_fundamental_div_mod(len, cols);
            vstd::arithmetic::div_mod::lemma_mod_bound(len, cols);
            if row < full {
                assert((row + 1) * cols <= cols * (len / cols)) by (nonlinear_arith)
                    requires
                        row + 1 <= len / cols,
                        cols > 0,
                ;
            } else {
                assert((row + 1) * cols >= cols * (len / cols) + cols) by (nonlinear_arith)
                    requires
                        row + 1 >= len / cols + 1,
                        cols > 0,
                ;
            }
        }
        row < full
    }

    /// The row `row`.
    pub fn row(&self, row: usize) -> (cells: &[T])
        requires
            self.has_row(row as int),
        ensures
            cells@ == self.row_cells(row as int),
    {
        proof {
            self.lemma_row_bounds(row as int);
        }
        let start = row * self.row_size;
        let end = start + self.row_size;
        &self.data[start..end]
    }

    /// The row `row`, open to change. The other rows stay as they are.
    pub fn row_mut(&mut self, row: usize) -> (cells: &mut [T])
        requires
            old(self).has_row(row as int),
        ensures
            cells@ == old(self).row_cells(row as int),
            final(self).cols() == old(self).cols(),
            final(self).cells() == old(self).cells().subrange(0, row * old(self).cols())
                + final(cells)@ + old(self).cells().subrange(
                (row + 1) * old(self).cols(),
                old(self).cells().len() as int,
            ),
    {
        proof {
            self.lemma_row_bounds(row as int);
        }
        let start = row * self.row_size;
        let (_, rest) = self.data.as_mut_slice().split_at_mut(start);
        let (cells, _) = rest.split_at_mut(self.row_size);
        cells
    }

    /// Where a row that the table holds starts and ends.
    proof fn lemma_row_bounds(&self, row: int)
        requires
            self.has_row(row),
        ensures
            0 <= row * self.cols() <= (row + 1) * self.cols() <= self.cells().len() <= usize::MAX,
            (row + 1) * self.cols() == row * self.cols() + self.cols(),
    {
        assert(self.data@.len() == self.data.len());
        assert((row + 1) * self.cols() == row * self.cols() + self.cols()) by (nonlinear_arith);
        assert(0 <= row * self.cols()) by (nonlinear_arith)
            requires
                0 <= row,
        ;
    }
}

impl<T> vstd::std_specs::core::IndexSpecImpl<usize> for Tableau<T> {
    /// Indexing asks for a row that the table holds.
    open spec fn index_req(&self, row: &usize) -> bool {
        self.has_row(*row as int)
    }
}

impl<T> core::ops::Index<usize> for Tableau<T> {
    type Output = [T];

    /// The row `row`.
    fn index(&self, row: usize) -> (cells: &[T])
        ensures
            cells@ == self.row_cells(row as int),
    {
        self.row(row)
    }
}

} // verus!
