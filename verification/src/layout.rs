//! Where the elements of a batch of matrices stand in flat storage, and how
//! large the flat storage is.
use vstd::arithmetic::div_mod::*;
use vstd::arithmetic::mul::*;
use vstd::prelude::*;

verus! {

/// The position of one element in a batch of row-major matrices of `rows` rows
/// and `cols` columns.
pub open spec fn at(batch: int, row: int, col: int, rows: int, cols: int) -> int {
    batch * rows * cols + row * cols + col
}

/// Every element has its position within the storage of the batch, and the
/// intermediate products of the position are no larger than it.
pub proof fn lemma_at_bound(batch: int, row: int, col: int, batches: int, rows: int, cols: int)
    requires
        0 <= batch < batches,
        0 <= row < rows,
        0 <= col < cols,
    ensures
        0 <= batch * rows <= batch * rows * cols,
        0 <= row * cols,
        batch * rows * cols + row * cols + cols <= batches * rows * cols,
        0 <= at(batch, row, col, rows, cols) < batches * rows * cols,
{
    assert(0 <= batch * rows <= batch * rows * cols && 0 <= row * cols) by (nonlinear_arith)
        requires
            0 <= batch,
            0 < rows,
            0 < cols,
            0 <= row,
    ;
    assert(batch * rows * cols + row * cols + cols <= batches * rows * cols) by (nonlinear_arith)
        requires
            0 <= batch < batches,
            0 <= row < rows,
            0 < cols,
    {
        assert((batch * rows + row + 1) * cols <= (batches * rows) * cols) by (nonlinear_arith)
            requires
                batch * rows + row + 1 <= batches * rows,
                0 < cols,
        ;
        assert(batch * rows + row + 1 <= batches * rows) by (nonlinear_arith)
            requires
                0 <= batch < batches,
                0 <= row < rows,
        ;
    }
}

/// A row ends where the next one starts.
pub proof fn lemma_next_row(row: int, cols: int)
    ensures
        row * cols + cols == (row + 1) * cols,
{
    assert(row * cols + cols == (row + 1) * cols) by (nonlinear_arith);
}

/// A matrix ends where the next one starts.
pub proof fn lemma_next_matrix(batch: int, rows: int, cols: int)
    ensures
        batch * rows * cols + rows * cols == (batch + 1) * rows * cols,
{
    assert(batch * rows * cols + rows * cols == (batch + 1) * rows * cols) by (nonlinear_arith);
}

/// The order of rows and columns makes no difference to where a matrix starts.
pub proof fn lemma_swap_factors(batch: int, rows: int, cols: int)
    ensures
        batch * rows * cols == batch * cols * rows,
{
    assert(batch * rows * cols == batch * cols * rows) by (nonlinear_arith);
}

/// A position tells which element stands there.
pub proof fn lemma_at_split(batch: int, row: int, col: int, rows: int, cols: int)
    requires
        0 <= batch,
        0 <= row < rows,
        0 <= col < cols,
    ensures
        at(batch, row, col, rows, cols) % cols == col,
        (at(batch, row, col, rows, cols) / cols) % rows == row,
        at(batch, row, col, rows, cols) / cols / rows == batch,
{
    let line = batch * rows + row;
    assert(at(batch, row, col, rows, cols) == line * cols + col) by {
        lemma_mul_is_distributive_add_other_way(cols, batch * rows, row);
    }
    lemma_fundamental_div_mod_converse(line * cols + col, cols, line, col);
    lemma_fundamental_div_mod_converse(line, rows, batch, row);
}

/// Every position within the storage of a batch is that of an element.
pub proof fn lemma_at_covers(p: int, batches: int, rows: int, cols: int)
    requires
        0 <= p < batches * rows * cols,
        0 <= batches,
        0 <= rows,
        0 <= cols,
    ensures
        0 <= p / cols / rows < batches,
        0 <= (p / cols) % rows < rows,
        0 <= p % cols < cols,
        at(p / cols / rows, (p / cols) % rows, p % cols, rows, cols) == p,
{
    assert(0 < rows && 0 < cols) by (nonlinear_arith)
        requires
            0 < batches * rows * cols,
            0 <= batches,
            0 <= rows,
            0 <= cols,
    ;
    let line = p / cols;
    let batch = line / rows;
    lemma_fundamental_div_mod(p, cols);
    lemma_fundamental_div_mod(line, rows);
    lemma_mod_bound(p, cols);
    lemma_mod_bound(line, rows);
    lemma_div_pos_is_pos(p, cols);
    lemma_div_pos_is_pos(line, rows);
    assert(p == batch * rows * cols + (line % rows) * cols + p % cols) by (nonlinear_arith)
        requires
            p == cols * line + p % cols,
            line == rows * batch + line % rows,
    ;
    assert(batch < batches) by (nonlinear_arith)
        requires
            p == batch * rows * cols + (line % rows) * cols + p % cols,
            p < batches * rows * cols,
            0 <= line % rows,
            0 <= p % cols,
            0 < rows,
            0 < cols,
            0 <= batch,
            0 <= batches,
    {
        if batch >= batches {
            assert(batch * (rows * cols) >= batches * (rows * cols)) by (nonlinear_arith)
                requires
                    batch >= batches,
                    0 < rows * cols,
            ;
        }
    }
}

/// Two elements of a batch of matrices never share a position.
pub proof fn lemma_at_injective(
    batch1: int,
    row1: int,
    col1: int,
    batch2: int,
    row2: int,
    col2: int,
    rows: int,
    cols: int,
)
    requires
        0 <= batch1,
        0 <= batch2,
        0 <= row1 < rows,
        0 <= row2 < rows,
        0 <= col1 < cols,
        0 <= col2 < cols,
        at(batch1, row1, col1, rows, cols) == at(batch2, row2, col2, rows, cols),
    ensures
        batch1 == batch2,
        row1 == row2,
        col1 == col2,
{
    lemma_at_split(batch1, row1, col1, rows, cols);
    lemma_at_split(batch2, row2, col2, rows, cols);
}

} // verus!
