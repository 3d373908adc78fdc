//! Shapes of tensors and positions in row-major order.

use vstd::arithmetic::div_mod::{
    lemma_fundamental_div_mod, lemma_fundamental_div_mod_converse,
};
use vstd::prelude::*;

verus! {

/// Number of elements of a tensor of the given shape.
pub open spec fn numel_of(dims: Seq<usize>) -> nat
    decreases dims.len(),
{
    if dims.len() == 0 {
        1
    } else {
        numel_of(dims.drop_last()) * dims.last() as nat
    }
}

/// Multiplying up the dimensions, first to last, stays within the machine's range.
pub open spec fn fits(dims: Seq<usize>) -> bool
    decreases dims.len(),
{
    dims.len() > 0 ==> fits(dims.drop_last()) && numel_of(dims) <= usize::MAX
}

/// The product of the dimensions.
pub fn product(dims: &Vec<usize>) -> (n: usize)
    requires
        fits(dims@),
    ensures
        n == numel_of(dims@),
{
    match checked_product(dims) {
        Some(n) => n,
        None => 0,
    }
}

/// The product of the dimensions, where it can be computed.
pub fn checked_product(dims: &Vec<usize>) -> (n: Option<usize>)
    ensures
        n is Some <==> fits(dims@),
        n matches Some(p) ==> p == numel_of(dims@),
{
    let mut n: usize = 1;
    let mut i: usize = 0;
    while i < dims.len()
        invariant
            i <= dims@.len(),
            fits(dims@.take(i as int)),
            n == numel_of(dims@.take(i as int)),
        decreases dims@.len() - i,
    {
        assert(dims@.take(i + 1).drop_last() =~= dims@.take(i as int));
        match n.checked_mul(dims[i]) {
            Some(p) => n = p,
            None => {
                proof {
                    lemma_fits_prefix(dims@, i + 1);
                }
                return None;
            },
        }
        i += 1;
    }
    assert(dims@.take(i as int) =~= dims@);
    Some(n)
}

/// A prefix of a shape that fits fits.
pub proof fn lemma_fits_prefix(dims: Seq<usize>, k: int)
    requires
        0 <= k <= dims.len(),
    ensures
        fits(dims) ==> fits(dims.take(k)),
    decreases dims.len(),
{
    if k == dims.len() {
        assert(dims.take(k) =~= dims);
    } else {
        lemma_fits_prefix(dims.drop_last(), k);
        assert(dims.drop_last().take(k) =~= dims.take(k));
    }
}

/// The number of elements of a shape that fits is in the machine's range.
pub proof fn lemma_numel_fits(dims: Seq<usize>)
    requires
        fits(dims),
    ensures
        numel_of(dims) <= usize::MAX,
{
}

/// One dimension.
pub proof fn lemma_vector_shape(dims: Seq<usize>)
    requires
        dims.len() == 1,
    ensures
        numel_of(dims) == dims[0],
        fits(dims),
{
    assert(numel_of(dims.drop_last()) == 1 && fits(dims.drop_last()));
    let d = dims.last() as nat;
    assert(1nat * d == d) by (nonlinear_arith);
}

/// Two dimensions.
pub proof fn lemma_matrix_shape(dims: Seq<usize>)
    requires
        dims.len() == 2,
    ensures
        numel_of(dims) == dims[0] * dims[1],
        fits(dims) <==> dims[0] * dims[1] <= usize::MAX,
{
    lemma_vector_shape(dims.drop_last());
}

/// Three dimensions.
pub proof fn lemma_cube_shape(dims: Seq<usize>)
    requires
        dims.len() == 3,
    ensures
        numel_of(dims) == dims[0] * dims[1] * dims[2],
        fits(dims) <==> dims[0] * dims[1] <= usize::MAX && dims[0] * dims[1] * dims[2]
            <= usize::MAX,
{
    lemma_matrix_shape(dims.drop_last());
}

/// A shape of three dimensions that fits still fits with a smaller first dimension.
pub proof fn lemma_fewer_rows(a: usize, b: usize, h: usize, d: usize)
    requires
        fits(seq![a, h, d]),
        b <= a,
    ensures
        fits(seq![b, h, d]),
{
    lemma_cube_shape(seq![a, h, d]);
    lemma_cube_shape(seq![b, h, d]);
    assert(b * h <= a * h && b * h * d <= a * h * d) by (nonlinear_arith)
        requires
            0 <= b <= a,
            0 <= h,
            0 <= d,
    ;
}

/// Where a shape of three dimensions fits and the first is not zero, the others fit.
pub proof fn lemma_row_fits(a: usize, h: usize, d: usize)
    requires
        fits(seq![a, h, d]),
        a > 0,
    ensures
        0 <= h * d <= usize::MAX,
{
    lemma_cube_shape(seq![a, h, d]);
    assert(0 <= h * d <= a * h * d) by (nonlinear_arith)
        requires
            a >= 1,
            0 <= h,
            0 <= d,
    ;
}

/// Position `(i, j)` of a matrix of `rows` rows and `cols` columns.
pub proof fn lemma_cell(i: int, j: int, rows: int, cols: int)
    requires
        0 <= i < rows,
        0 <= j < cols,
    ensures
        0 <= i * cols + j < rows * cols,
        0 <= i * cols,
        (i + 1) * cols == i * cols + cols,
        (i + 1) * cols <= rows * cols,
        (i * cols + j) / cols == i,
        (i * cols + j) % cols == j,
{
    assert(0 <= i * cols) by (nonlinear_arith)
        requires
            0 <= i,
            0 <= cols,
    ;
    assert((i + 1) * cols == i * cols + cols) by (nonlinear_arith);
    assert((i + 1) * cols <= rows * cols) by (nonlinear_arith)
        requires
            i + 1 <= rows,
            0 <= cols,
    ;
    lemma_fundamental_div_mod_converse(i * cols + j, cols, i, j);
}

/// The row and the column of element `p` of a matrix of `rows` rows and `cols` columns.
pub proof fn lemma_uncell(p: int, rows: int, cols: int)
    requires
        0 <= p < rows * cols,
        0 <= rows,
        0 <= cols,
    ensures
        cols > 0,
        0 <= p / cols < rows,
        0 <= p % cols < cols,
        p == (p / cols) * cols + p % cols,
{
    assert(cols > 0) by (nonlinear_arith)
        requires
            0 <= p < rows * cols,
            0 <= cols,
    ;
    lemma_fundamental_div_mod(p, cols);
    let q = p / cols;
    assert(0 <= q < rows && q * cols == cols * q) by (nonlinear_arith)
        requires
            cols > 0,
            0 <= p < rows * cols,
            p == cols * q + p % cols,
            0 <= p % cols < cols,
    ;
}

} // verus!
