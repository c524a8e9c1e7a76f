//! Row-major byte grids: the shape shared by every raster in this crate.

use vstd::prelude::*;
use vstd::arithmetic::div_mod::lemma_fundamental_div_mod_converse;
use vstd::arithmetic::mul::{lemma_mul_inequality, lemma_mul_is_distributive_add_other_way};

verus! {

/// The `rows` x `cols` raster, stored row by row, whose cell at row `r`
/// and column `c` is `f(r, c)`.
pub open spec fn grid(rows: nat, cols: nat, f: spec_fn(int, int) -> u8) -> Seq<u8> {
    Seq::new(rows * cols, |i: int| f(i / (cols as int), i % (cols as int)))
}

/// Row `r` of a raster with `cols` columns whose cells are given by `f`.
pub open spec fn grid_row(cols: nat, f: spec_fn(int, int) -> u8, r: int) -> Seq<u8> {
    Seq::new(cols, |c: int| f(r, c))
}

/// Cell `(r, c)` of a grid sits at index `r * cols + c`.
pub proof fn lemma_grid_index(rows: nat, cols: nat, f: spec_fn(int, int) -> u8, r: int, c: int)
    requires
        0 <= r < rows,
        0 <= c < cols,
    ensures
        0 <= r * cols + c < rows * cols,
        grid(rows, cols, f)[r * cols + c] == f(r, c),
{
    lemma_fundamental_div_mod_converse(r * cols + c, cols as int, r, c);
    lemma_mul_inequality(r + 1, rows as int, cols as int);
    lemma_mul_is_distributive_add_other_way(cols as int, r, 1);
    lemma_mul_inequality(0, r, cols as int);
}

/// Appending row `rows` to a grid of `rows` rows gives the grid of `rows + 1` rows.
pub proof fn lemma_grid_extend(rows: nat, cols: nat, f: spec_fn(int, int) -> u8)
    ensures
        grid(rows, cols, f) + grid_row(cols, f, rows as int) =~= grid(rows + 1, cols, f),
{
    lemma_mul_is_distributive_add_other_way(cols as int, rows as int, 1);
    let a = grid(rows, cols, f) + grid_row(cols, f, rows as int);
    let b = grid(rows + 1, cols, f);
    assert forall|i: int| 0 <= i < b.len() implies a[i] == b[i] by {
        if i >= rows * cols {
            let c = i - rows * cols;
            lemma_fundamental_div_mod_converse(i, cols as int, rows as int, c);
        }
    }
}

/// Every index of a grid names a cell inside the grid.
pub proof fn lemma_cell_of_index(rows: nat, cols: nat, i: int)
    requires
        0 <= i < rows * cols,
    ensures
        cols > 0,
        0 <= i / (cols as int) < rows,
        0 <= i % (cols as int) < cols,
        i == (i / (cols as int)) * cols + i % (cols as int),
{
    if cols == 0 {
        assert(rows * cols == 0) by (nonlinear_arith)
            requires cols == 0;
    }
    let q = i / (cols as int);
    assert(i == q * cols + i % (cols as int) && 0 <= i % (cols as int) < cols) by (nonlinear_arith)
        requires cols > 0, q == i / (cols as int);
    assert(0 <= q) by (nonlinear_arith)
        requires cols > 0, q == i / (cols as int), i >= 0;
    if q >= rows {
        lemma_mul_inequality(rows as int, q, cols as int);
    }
}

} // verus!
