//! Row-major numbering of grid cells and a summation used as a progress
//! measure by the grid's fixed-point loops.

use vstd::prelude::*;
use crate::position::Position;

verus! {

/// The row-major number of a cell in a grid that is `cols` wide.
pub open spec fn cell_index(position: Position, cols: int) -> int {
    position.row * cols + position.col
}

pub proof fn lemma_flat_bound(i: int, j: int, n: int, m: int)
    requires
        0 <= i < n,
        0 <= j < m,
    ensures
        0 <= i * m + j < n * m,
        i * m + j + (m - j) == (i + 1) * m,
{
    assert(i * m + j < n * m && i * m >= 0 && i * m + j + (m - j) == (i + 1) * m) by (nonlinear_arith)
        requires
            0 <= i < n,
            0 <= j < m,
    ;
}

pub proof fn lemma_flat_injective(i1: int, j1: int, i2: int, j2: int, m: int)
    requires
        0 <= j1 < m,
        0 <= j2 < m,
        i1 * m + j1 == i2 * m + j2,
    ensures
        i1 == i2,
        j1 == j2,
{
    assert(i1 == i2) by (nonlinear_arith)
        requires
            0 <= j1 < m,
            0 <= j2 < m,
            i1 * m + j1 == i2 * m + j2,
    ;
}

/// The number of a cell lies below the number of cells.
pub proof fn lemma_cell_index_bound(position: Position, rows: int, cols: int)
    requires
        position.spec_within(rows, cols),
    ensures
        0 <= cell_index(position, cols) < rows * cols,
{
    lemma_flat_bound(position.row as int, position.col as int, rows, cols);
}

/// Two cells of one grid with the same number are the same cell.
pub proof fn lemma_cell_index_injective(a: Position, b: Position, rows: int, cols: int)
    requires
        a.spec_within(rows, cols),
        b.spec_within(rows, cols),
        cell_index(a, cols) == cell_index(b, cols),
    ensures
        a == b,
{
    lemma_flat_injective(a.row as int, a.col as int, b.row as int, b.col as int, cols);
}

/// The row-major number of a cell that lies inside the grid.
pub fn cell_slot(position: Position, rows: usize, cols: usize) -> (slot: usize)
    requires
        position.spec_within(rows as int, cols as int),
        rows * cols <= usize::MAX,
    ensures
        slot == cell_index(position, cols as int),
        slot < rows * cols,
{
    proof {
        lemma_flat_bound(position.row as int, position.col as int, rows as int, cols as int);
        assert(position.row * cols <= position.row * cols + position.col);
    }
    let row: usize = position.row as usize;
    let col: usize = position.col as usize;
    row * cols + col
}

/// The sum of a sequence of naturals.
pub open spec fn total(weights: Seq<nat>) -> nat
    decreases weights.len(),
{
    if weights.len() == 0 {
        0
    } else {
        total(weights.drop_last()) + weights.last()
    }
}

/// Replacing one summand changes the sum by the difference.
pub proof fn lemma_total_update(weights: Seq<nat>, index: int, weight: nat)
    requires
        0 <= index < weights.len(),
    ensures
        total(weights.update(index, weight)) == total(weights) - weights[index] + weight,
    decreases weights.len(),
{
    let updated = weights.update(index, weight);
    if index == weights.len() - 1 {
        assert(updated.drop_last() =~= weights.drop_last());
    } else {
        lemma_total_update(weights.drop_last(), index, weight);
        assert(updated.drop_last() =~= weights.drop_last().update(index, weight));
    }
}

} // verus!
