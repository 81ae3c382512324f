//! Row-major `depth x width` counter tables addressed by `(row, hashed column)`.
use vstd::arithmetic::div_mod::lemma_fundamental_div_mod_converse;
use vstd::arithmetic::mul::{lemma_mul_inequality, lemma_mul_is_distributive_add_other_way};
use vstd::prelude::*;

verus! {

/// The flat index of the cell that hash `h` selects in row `row`.
pub open spec fn cell(width: nat, row: nat, h: u64) -> nat
    recommends
        width > 0,
{
    row * width + (h as nat) % width
}

/// The cell lies in its row and inside the table.
pub proof fn lemma_cell_in_row(width: nat, depth: nat, row: nat, h: u64)
    requires
        width > 0,
        row < depth,
    ensures
        cell(width, row, h) < width * depth,
        cell(width, row, h) / width == row,
        cell(width, row, h) >= row * width,
        cell(width, row, h) < (row + 1) * width,
{
    let c = (h as nat) % width;
    assert(c < width);
    lemma_fundamental_div_mod_converse(
        cell(width, row, h) as int,
        width as int,
        row as int,
        c as int,
    );
    lemma_mul_inequality(row as int + 1, depth as int, width as int);
    lemma_mul_is_distributive_add_other_way(width as int, row as int, 1);
    assert((row + 1) * width == row * width + width) by (nonlinear_arith);
    assert(width * depth == depth * width) by (nonlinear_arith);
}

/// Computes `cell(width, row, h)`.
pub fn cell_index(width: usize, depth: usize, row: usize, h: u64) -> (r: usize)
    requires
        width > 0,
        row < depth,
        width * depth <= usize::MAX,
    ensures
        r == cell(width as nat, row as nat, h),
        r < width * depth,
{
    proof {
        lemma_cell_in_row(width as nat, depth as nat, row as nat, h);
    }
    let column = (h % (width as u64)) as usize;
    row * width + column
}

/// `x` clamped into the range of `i64`.
pub open spec fn clamp_i64(x: int) -> i64 {
    if x > i64::MAX {
        i64::MAX
    } else if x < i64::MIN {
        i64::MIN
    } else {
        x as i64
    }
}

/// Saturating signed addition.
pub fn saturating_add_i64(a: i64, b: i64) -> (r: i64)
    ensures
        r == clamp_i64(a + b),
{
    let s = a as i128 + b as i128;
    if s > i64::MAX as i128 {
        i64::MAX
    } else if s < i64::MIN as i128 {
        i64::MIN
    } else {
        s as i64
    }
}

/// Saturating signed negation: `i64::MIN` maps to `i64::MAX`.
pub fn saturating_neg_i64(a: i64) -> (r: i64)
    ensures
        r == clamp_i64(-a),
{
    if a == i64::MIN {
        i64::MAX
    } else {
        -a
    }
}

} // verus!
