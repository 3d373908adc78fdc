//! Dense tensors in row-major order, and the operations of the model on them.

use core::ops::Index;

use crate::arith::{self, Math, Scalar};
use crate::bytes::{self, u16_at, u32_at};
use crate::elementwise::{
    self, apply, build, clamped_of, combine, sigmoid_of, silu_of, softplus_of,
};
use crate::shape::{self, product};
use vstd::prelude::*;
use vstd::slice::slice_to_vec;

verus! {

/// A dense tensor: its elements in row-major order, and its dimensions.
pub struct Tensor<T> {
    data: Vec<T>,
    shape: Vec<usize>,
}

impl<T> Tensor<T> {
    /// The elements in row-major order.
    pub closed spec fn elems(&self) -> Seq<T> {
        self.data@
    }

    /// The dimensions.
    pub closed spec fn dims(&self) -> Seq<usize> {
        self.shape@
    }

    /// There are as many elements as the dimensions say.
    pub open spec fn wf(&self) -> bool {
        &&& shape::fits(self.dims())
        &&& self.elems().len() == shape::numel_of(self.dims())
    }

    /// The tensor is a vector of `n` elements.
    pub open spec fn is_vector(&self, n: int) -> bool {
        &&& self.dims().len() == 1
        &&& self.dims()[0] == n
        &&& self.elems().len() == n
    }

    /// The tensor is a matrix of `rows` rows and `cols` columns.
    pub open spec fn is_matrix(&self, rows: int, cols: int) -> bool {
        &&& self.dims().len() == 2
        &&& self.dims()[0] == rows
        &&& self.dims()[1] == cols
        &&& rows * cols <= usize::MAX
        &&& self.elems().len() == rows * cols
    }
}

/// Row `i` of a matrix of `cols` columns.
pub open spec fn row<T>(elems: Seq<T>, cols: int, i: int) -> Seq<T> {
    elems.subrange(i * cols, i * cols + cols)
}

/// The rows of a matrix of `n` rows and of the same matrix with one more row.
pub proof fn lemma_push_row<T>(elems: Seq<T>, cols: int, n: int, last: Seq<T>)
    requires
        cols >= 0,
        n >= 0,
        elems.len() == n * cols,
        last.len() == cols,
    ensures
        (elems + last).len() == (n + 1) * cols,
        row(elems + last, cols, n) == last,
        forall|i: int|
            0 <= i < n ==> #[trigger] row(elems + last, cols, i) == row(elems, cols, i),
{
    assert((n + 1) * cols == n * cols + cols) by (nonlinear_arith);
    assert(row(elems + last, cols, n) =~= last);
    assert forall|i: int| 0 <= i < n implies #[trigger] row(elems + last, cols, i) == row(
        elems,
        cols,
        i,
    ) by {
        assert(0 <= i * cols && i * cols + cols <= n * cols) by (nonlinear_arith)
            requires
                0 <= i < n,
                cols >= 0,
        ;
        assert(row(elems + last, cols, i) =~= row(elems, cols, i));
    }
}

/// Column `j` of a matrix of `rows` rows and `cols` columns.
pub open spec fn column<T>(elems: Seq<T>, rows: int, cols: int, j: int) -> Seq<T> {
    arith::strided(elems, j, cols, rows)
}

/// The elements of a matrix of `rows` rows and `cols` columns, column by column.
pub open spec fn transposed<T>(elems: Seq<T>, rows: int, cols: int) -> Seq<T> {
    Seq::new((rows * cols) as nat, |p: int| elems[(p % rows) * cols + p / rows])
}

/// Transposing exchanges the row and the column of each element.
pub proof fn law_transposed_cell<T>(elems: Seq<T>, rows: int, cols: int, i: int, j: int)
    requires
        elems.len() == rows * cols,
        0 <= i < rows,
        0 <= j < cols,
    ensures
        transposed(elems, rows, cols)[j * rows + i] == elems[i * cols + j],
{
    shape::lemma_cell(j, i, cols, rows);
    assert(rows * cols == cols * rows) by (nonlinear_arith);
}

/// Transposing twice gives back the matrix.
pub proof fn law_transpose_twice<T>(elems: Seq<T>, rows: int, cols: int)
    requires
        rows >= 0,
        cols >= 0,
        elems.len() == rows * cols,
    ensures
        transposed(transposed(elems, rows, cols), cols, rows) == elems,
{
    assert(rows * cols == cols * rows) by (nonlinear_arith);
    let twice = transposed(transposed(elems, rows, cols), cols, rows);
    assert forall|p: int| 0 <= p < elems.len() implies #[trigger] twice[p] == elems[p] by {
        shape::lemma_uncell(p, rows, cols);
        law_transposed_cell(elems, rows, cols, p / cols, p % cols);
    }
    assert(twice =~= elems);
}

/// `y` is a value of the product of the matrix `w`, of `rows` rows and `cols` columns, and the
/// vector `x`.
pub open spec fn applied<T: Scalar>(
    w: Seq<T>,
    rows: int,
    cols: int,
    x: Seq<T>,
    y: Seq<T>,
) -> bool {
    &&& y.len() == rows
    &&& forall|i: int| 0 <= i < rows ==> arith::dot(row(w, cols, i), x, #[trigger] y[i])
}

/// `r` is a value of `(x / d) * w`.
pub open spec fn divided_times<T: Scalar>(x: T, d: T, w: T, r: T) -> bool {
    exists|q: T| #[trigger] arith::divided(x, d, q) && arith::multiplied(q, w, r)
}

/// `rms` is a value of the root of the mean square of `xs`, with `eps` added under the root.
pub open spec fn root_mean_square<T: Scalar, M: Math<T>>(
    m: M,
    xs: Seq<T>,
    eps: T,
    rms: T,
) -> bool {
    exists|sq: T, n: T, mean: T, s: T|
        {
            &&& arith::dot(xs, xs, sq)
            &&& #[trigger] arith::from_usize(m, xs.len() as usize, n)
            &&& #[trigger] arith::divided(sq, n, mean)
            &&& #[trigger] arith::added(mean, eps, s)
            &&& arith::sqrt(m, s, rms)
        }
}

/// `ys` is a value of the root-mean-square normalisation of `xs` with the weights `ws`.
pub open spec fn rms_normed<T: Scalar, M: Math<T>>(
    m: M,
    xs: Seq<T>,
    ws: Seq<T>,
    eps: T,
    ys: Seq<T>,
) -> bool {
    exists|rms: T|
        {
            &&& #[trigger] root_mean_square(m, xs, eps, rms)
            &&& elementwise::each_pair(xs, ws, |x: T, w: T, y: T| divided_times(x, rms, w, y), ys)
        }
}

/// `r` is a value of `exp(x - max)`.
pub open spec fn shifted_exp<T: Scalar, M: Math<T>>(m: M, x: T, max: T, r: T) -> bool {
    exists|d: T| #[trigger] arith::subtracted(x, max, d) && arith::exp(m, d, r)
}

/// `ys` is a value of the softmax of `xs`: the exponentials of the differences to the largest
/// element, divided by their sum.
pub open spec fn softmaxed<T: Scalar, M: Math<T>>(m: M, xs: Seq<T>, ys: Seq<T>) -> bool {
    exists|max: T, es: Seq<T>, s: T|
        {
            &&& #[trigger] arith::largest(m, xs, max)
            &&& elementwise::each(xs, |x: T, e: T| shifted_exp(m, x, max, e), es)
            &&& #[trigger] arith::summed(es, s)
            &&& elementwise::each(es, |e: T, y: T| arith::divided(e, s, y), ys)
        }
}

/// The element of a tensor of single-precision numbers at place `i` of its encoding.
pub open spec fn single_at<T, M: Math<T>>(m: M, b: Seq<u8>, i: int, r: T) -> bool {
    arith::from_bits(m, bytes::le_nat(b.subrange(4 * i, 4 * i + 4)) as u32, r)
}

/// The element of a tensor of half-precision numbers at place `i` of its encoding.
pub open spec fn half_at<T, M: Math<T>>(m: M, b: Seq<u8>, i: int, r: T) -> bool {
    arith::from_half(m, bytes::le_nat(b.subrange(2 * i, 2 * i + 2)) as u16, r)
}

/// The element of a tensor of truncated single-precision numbers at place `i` of its encoding,
/// which holds the upper half of the bits.
pub open spec fn brain_at<T, M: Math<T>>(m: M, b: Seq<u8>, i: int, r: T) -> bool {
    arith::from_bits(m, (bytes::le_nat(b.subrange(2 * i, 2 * i + 2)) * 0x1_0000) as u32, r)
}

impl<T: Copy> Clone for Tensor<T> {
    fn clone(&self) -> (r: Self)
        ensures
            r.elems() == self.elems(),
            r.dims() == self.dims(),
    {
        Tensor {
            data: slice_to_vec(self.data.as_slice()),
            shape: slice_to_vec(self.shape.as_slice()),
        }
    }
}

impl<T: Copy> vstd::std_specs::core::IndexSpecImpl<(usize, usize)> for Tensor<T> {
    open spec fn index_req(&self, index: &(usize, usize)) -> bool {
        &&& self.wf()
        &&& self.dims().len() == 2
        &&& index.0 < self.dims()[0]
        &&& index.1 < self.dims()[1]
    }
}

impl<T: Copy> Index<(usize, usize)> for Tensor<T> {
    type Output = T;

    fn index(&self, index: (usize, usize)) -> (r: &T)
        ensures
            *r == self.elems()[index.0 * self.dims()[1] + index.1],
    {
        let (i, j) = index;
        proof {
            shape::lemma_matrix_shape(self.dims());
            shape::lemma_cell(i as int, j as int, self.dims()[0] as int, self.dims()[1] as int);
        }
        &self.data[i * self.shape[1] + j]
    }
}

impl<T: Copy> Tensor<T> {
    /// A tensor of the given elements.
    pub fn from_vec(data: Vec<T>, shape: Vec<usize>) -> (r: Self)
        requires
            shape::fits(shape@),
            data@.len() == shape::numel_of(shape@),
        ensures
            r.wf(),
            r.elems() == data@,
            r.dims() == shape@,
    {
        Tensor { data, shape }
    }

    /// A tensor of zeros.
    pub fn zeros(shape: Vec<usize>) -> (r: Self) where T: Default
        requires
            shape::fits(shape@),
        ensures
            r.wf(),
            r.dims() == shape@,
            forall|i: int| 0 <= i < r.elems().len() ==> arith::zero(#[trigger] r.elems()[i]),
    {
        let n = product(&shape);
        let mut data: Vec<T> = Vec::with_capacity(n);
        while data.len() < n
            invariant
                data@.len() <= n,
                forall|i: int| 0 <= i < data@.len() ==> arith::zero(#[trigger] data@[i]),
            decreases n - data@.len(),
        {
            data.push(T::default());
        }
        Tensor { data, shape }
    }

    /// The number of elements.
    pub fn numel(&self) -> (n: usize)
        requires
            self.wf(),
        ensures
            n == self.elems().len(),
            n == shape::numel_of(self.dims()),
    {
        product(&self.shape)
    }

    /// The number of dimensions.
    pub fn rank(&self) -> (n: usize)
        ensures
            n == self.dims().len(),
    {
        self.shape.len()
    }

    /// The elements in row-major order.
    pub fn data(&self) -> (r: &[T])
        ensures
            r@ == self.elems(),
    {
        self.data.as_slice()
    }

    /// The dimensions.
    pub fn shape(&self) -> (r: &[usize])
        ensures
            r@ == self.dims(),
    {
        self.shape.as_slice()
    }

    /// The elements in row-major order, open to change.
    pub fn data_mut(&mut self) -> (r: &mut [T])
        ensures
            r@ == old(self).elems(),
            final(self).elems() == final(r)@,
            final(self).dims() == old(self).dims(),
    {
        self.data.as_mut_slice()
    }

    /// The element in row `i` and column `j` of a matrix, open to change.
    pub fn index_mut(&mut self, index: (usize, usize)) -> (r: &mut T)
        requires
            old(self).wf(),
            old(self).dims().len() == 2,
            index.0 < old(self).dims()[0],
            index.1 < old(self).dims()[1],
        ensures
            *r == old(self).elems()[index.0 * old(self).dims()[1] + index.1],
            final(self).elems() == old(self).elems().update(
                index.0 * old(self).dims()[1] + index.1,
                *final(r),
            ),
            final(self).dims() == old(self).dims(),
            final(self).wf(),
    {
        let (i, j) = index;
        proof {
            shape::lemma_matrix_shape(self.dims());
            shape::lemma_cell(i as int, j as int, self.dims()[0] as int, self.dims()[1] as int);
        }
        let at = i * self.shape[1] + j;
        &mut self.data[at]
    }

    /// The same elements under other dimensions.
    pub fn reshape(self, new_shape: Vec<usize>) -> (r: Self)
        requires
            self.wf(),
            shape::fits(new_shape@),
            shape::numel_of(new_shape@) == self.elems().len(),
        ensures
            r.wf(),
            r.elems() == self.elems(),
            r.dims() == new_shape@,
    {
        Tensor { data: self.data, shape: new_shape }
    }

    /// A matrix with rows and columns exchanged.
    pub fn transpose(&self) -> (r: Self)
        requires
            self.wf(),
            self.dims().len() == 2,
        ensures
            r.wf(),
            r.dims() == seq![self.dims()[1], self.dims()[0]],
            r.elems() == transposed(
                self.elems(),
                self.dims()[0] as int,
                self.dims()[1] as int,
            ),
    {
        let rows = self.shape[0];
        let cols = self.shape[1];
        let n = self.numel();
        let ghost (h, w) = (rows as int, cols as int);
        proof {
            shape::lemma_matrix_shape(self.dims());
            assert(h * w == w * h) by (nonlinear_arith);
        }
        let mut data: Vec<T> = Vec::with_capacity(n);
        while data.len() < n
            invariant
                self.wf(),
                self.dims().len() == 2,
                self.dims()[0] == rows == h,
                self.dims()[1] == cols == w,
                n == h * w == w * h == self.elems().len(),
                data@.len() <= n,
                forall|p: int|
                    0 <= p < data@.len() ==> #[trigger] data@[p] == self.elems()[(p % h) * w + p
                        / h],
            decreases n - data@.len(),
        {
            let p = data.len();
            proof {
                shape::lemma_uncell(p as int, w, h);
                shape::lemma_cell(p as int % h, p as int / h, h, w);
            }
            let i = p % rows;
            let j = p / rows;
            data.push(self.data[i * cols + j]);
        }
        let shape = vec![cols, rows];
        proof {
            shape::lemma_matrix_shape(shape@);
        }
        assert(data@ =~= transposed(self.elems(), h, w));
        Tensor { data, shape }
    }

    /// A tensor of the dimensions of `self` with the given elements.
    fn with_data(&self, data: Vec<T>) -> (r: Self)
        requires
            self.wf(),
            data@.len() == self.elems().len(),
        ensures
            r.wf(),
            r.dims() == self.dims(),
            r.elems() == data@,
    {
        Tensor { data, shape: slice_to_vec(self.shape.as_slice()) }
    }
}

impl<T: Scalar> Tensor<T> {
    /// The sums of the elements at the same place.
    pub fn add(&self, other: &Tensor<T>) -> (r: Tensor<T>)
        requires
            arith::total::<T>(),
            self.wf(),
            other.wf(),
            self.dims() == other.dims(),
        ensures
            r.wf(),
            r.dims() == self.dims(),
            elementwise::each_pair(
                self.elems(),
                other.elems(),
                |a: T, b: T, c: T| arith::added(a, b, c),
                r.elems(),
            ),
    {
        let data = combine(
            self.data(),
            other.data(),
            |a: T, b: T| -> (c: T)
                ensures
                    arith::added(a, b, c)
            { a + b },
        );
        self.with_data(data)
    }

    /// The differences of the elements at the same place.
    pub fn sub(&self, other: &Tensor<T>) -> (r: Tensor<T>)
        requires
            arith::total::<T>(),
            self.wf(),
            other.wf(),
            self.dims() == other.dims(),
        ensures
            r.wf(),
            r.dims() == self.dims(),
            elementwise::each_pair(
                self.elems(),
                other.elems(),
                |a: T, b: T, c: T| arith::subtracted(a, b, c),
                r.elems(),
            ),
    {
        let data = combine(
            self.data(),
            other.data(),
            |a: T, b: T| -> (c: T)
                ensures
                    arith::subtracted(a, b, c)
            { a - b },
        );
        self.with_data(data)
    }

    /// The products of the elements at the same place.
    pub fn mul(&self, other: &Tensor<T>) -> (r: Tensor<T>)
        requires
            arith::total::<T>(),
            self.wf(),
            other.wf(),
            self.dims() == other.dims(),
        ensures
            r.wf(),
            r.dims() == self.dims(),
            elementwise::each_pair(
                self.elems(),
                other.elems(),
                |a: T, b: T, c: T| arith::multiplied(a, b, c),
                r.elems(),
            ),
    {
        let data = combine(
            self.data(),
            other.data(),
            |a: T, b: T| -> (c: T)
                ensures
                    arith::multiplied(a, b, c)
            { a * b },
        );
        self.with_data(data)
    }

    /// The elements times `s`.
    pub fn scale(&self, s: T) -> (r: Tensor<T>)
        requires
            arith::total::<T>(),
            self.wf(),
        ensures
            r.wf(),
            r.dims() == self.dims(),
            elementwise::each(self.elems(), |x: T, y: T| arith::multiplied(x, s, y), r.elems()),
    {
        let data = apply(
            self.data(),
            |x: T| -> (y: T)
                ensures
                    arith::multiplied(x, s, y)
            { x * s },
        );
        self.with_data(data)
    }

    /// The elements, restricted to the range from `min` to `max`.
    pub fn clamp(&self, min: T, max: T) -> (r: Tensor<T>)
        requires
            arith::total::<T>(),
            self.wf(),
            forall|r: bool| arith::at_most(min, max, r) ==> r,
        ensures
            r.wf(),
            r.dims() == self.dims(),
            elementwise::each(
                self.elems(),
                |x: T, y: T| elementwise::clamped(x, min, max, y),
                r.elems(),
            ),
    {
        let data = apply(
            self.data(),
            |x: T| -> (y: T)
                ensures
                    elementwise::clamped(x, min, max, y)
            { clamped_of(x, min, max) },
        );
        self.with_data(data)
    }

    /// The elements times their logistic functions.
    pub fn silu<M: Math<T>>(&self, m: &M) -> (r: Tensor<T>)
        requires
            arith::total::<T>(),
            self.wf(),
        ensures
            r.wf(),
            r.dims() == self.dims(),
            elementwise::each(self.elems(), |x: T, y: T| elementwise::silu(*m, x, y), r.elems()),
    {
        let data = apply(
            self.data(),
            |x: T| -> (y: T)
                ensures
                    elementwise::silu(*m, x, y)
            { silu_of(m, x) },
        );
        self.with_data(data)
    }

    /// The logistic functions of the elements.
    pub fn sigmoid<M: Math<T>>(&self, m: &M) -> (r: Tensor<T>)
        requires
            arith::total::<T>(),
            self.wf(),
        ensures
            r.wf(),
            r.dims() == self.dims(),
            elementwise::each(self.elems(), |x: T, y: T| elementwise::sigmoid(*m, x, y), r.elems()),
    {
        let data = apply(
            self.data(),
            |x: T| -> (y: T)
                ensures
                    elementwise::sigmoid(*m, x, y)
            { sigmoid_of(m, x) },
        );
        self.with_data(data)
    }

    /// The softplus functions of the elements.
    pub fn softplus<M: Math<T>>(&self, m: &M) -> (r: Tensor<T>)
        requires
            arith::total::<T>(),
            self.wf(),
        ensures
            r.wf(),
            r.dims() == self.dims(),
            elementwise::each(self.elems(), |x: T, y: T| elementwise::softplus(*m, x, y), r.elems()),
    {
        let data = apply(
            self.data(),
            |x: T| -> (y: T)
                ensures
                    elementwise::softplus(*m, x, y)
            { softplus_of(m, x) },
        );
        self.with_data(data)
    }

    /// The outer product of two vectors: the matrix of all products of their elements.
    pub fn outer(&self, other: &Tensor<T>) -> (r: Tensor<T>)
        requires
            arith::total::<T>(),
            self.wf(),
            other.wf(),
            self.dims().len() == 1,
            other.dims().len() == 1,
            self.dims()[0] * other.dims()[0] <= usize::MAX,
        ensures
            r.wf(),
            r.is_matrix(self.dims()[0] as int, other.dims()[0] as int),
            forall|i: int, j: int|
                0 <= i < self.elems().len() && 0 <= j < other.elems().len()
                    ==> arith::multiplied(
                    self.elems()[i],
                    other.elems()[j],
                    #[trigger] r.elems()[i * other.elems().len() + j],
                ),
    {
        let n = self.shape[0];
        let k = other.shape[0];
        let ghost (h, w) = (n as int, k as int);
        proof {
            shape::lemma_vector_shape(self.dims());
            shape::lemma_vector_shape(other.dims());
        }
        let data = build(
            n * k,
            |p: usize| -> (r: T)
                requires
                    p < h * w
                ensures
                    arith::multiplied(self.elems()[p as int / w], other.elems()[p as int % w], r)
            {
                proof {
                    shape::lemma_uncell(p as int, h, w);
                }
                self.data[p / k] * other.data[p % k]
            },
        );
        let shape = vec![n, k];
        proof {
            shape::lemma_matrix_shape(shape@);
            assert forall|i: int, j: int| 0 <= i < h && 0 <= j < w implies arith::multiplied(
                self.elems()[i],
                other.elems()[j],
                #[trigger] data@[i * w + j],
            ) by {
                shape::lemma_cell(i, j, h, w);
            }
        }
        Tensor { data, shape }
    }

    /// The product of two matrices.
    pub fn matmul(&self, other: &Tensor<T>) -> (r: Tensor<T>)
        requires
            arith::total::<T>(),
            self.wf(),
            other.wf(),
            self.dims().len() == 2,
            other.dims().len() == 2,
            self.dims()[1] == other.dims()[0],
            self.dims()[0] * other.dims()[1] <= usize::MAX,
        ensures
            r.wf(),
            r.is_matrix(self.dims()[0] as int, other.dims()[1] as int),
            forall|i: int, j: int|
                0 <= i < self.dims()[0] && 0 <= j < other.dims()[1] ==> arith::dot(
                    row(self.elems(), self.dims()[1] as int, i),
                    column(other.elems(), other.dims()[0] as int, other.dims()[1] as int, j),
                    #[trigger] r.elems()[i * other.dims()[1] + j],
                ),
    {
        let m = self.shape[0];
        let k = self.shape[1];
        let n = other.shape[1];
        let ghost (h, d, w) = (m as int, k as int, n as int);
        proof {
            shape::lemma_matrix_shape(self.dims());
            shape::lemma_matrix_shape(other.dims());
        }
        let data = build(
            m * n,
            |p: usize| -> (r: T)
                requires
                    p < h * w
                ensures
                    arith::dot(
                        row(self.elems(), d, p as int / w),
                        column(other.elems(), d, w, p as int % w),
                        r,
                    )
            {
                proof {
                    let (i, j) = (p as int / w, p as int % w);
                    shape::lemma_uncell(p as int, h, w);
                    if d > 0 {
                        shape::lemma_cell(i, d - 1, h, d);
                        shape::lemma_cell(d - 1, j, d, w);
                    } else {
                        assert(i * d == 0 && h * d == 0) by (nonlinear_arith)
                            requires
                                d == 0,
                        ;
                    }
                }
                let i = p / n;
                let j = p % n;
                arith::strided_dot(self.data(), i * k, other.data(), j, n, k)
            },
        );
        let shape = vec![m, n];
        proof {
            shape::lemma_matrix_shape(shape@);
            assert forall|i: int, j: int| 0 <= i < h && 0 <= j < w implies arith::dot(
                row(self.elems(), d, i),
                column(other.elems(), d, w, j),
                #[trigger] data@[i * w + j],
            ) by {
                shape::lemma_cell(i, j, h, w);
            }
        }
        Tensor { data, shape }
    }

    /// The product of a matrix and a vector.
    pub fn matvec(&self, x: &Tensor<T>) -> (r: Tensor<T>)
        requires
            arith::total::<T>(),
            self.wf(),
            x.wf(),
            self.dims().len() == 2,
            x.dims().len() == 1,
            self.dims()[1] == x.dims()[0],
        ensures
            r.wf(),
            r.is_vector(self.dims()[0] as int),
            applied(
                self.elems(),
                self.dims()[0] as int,
                self.dims()[1] as int,
                x.elems(),
                r.elems(),
            ),
    {
        let rows = self.shape[0];
        let cols = self.shape[1];
        let ghost (h, w) = (rows as int, cols as int);
        proof {
            shape::lemma_matrix_shape(self.dims());
            shape::lemma_vector_shape(x.dims());
        }
        let data = build(
            rows,
            |i: usize| -> (r: T)
                requires
                    i < h
                ensures
                    arith::dot(row(self.elems(), w, i as int), x.elems(), r)
            {
                proof {
                    if w > 0 {
                        shape::lemma_cell(i as int, w - 1, h, w);
                    } else {
                        assert(i * w == 0 && h * w == 0) by (nonlinear_arith)
                            requires
                                w == 0,
                        ;
                    }
                    assert(arith::strided(x.elems(), 0, 1, w) =~= x.elems());
                }
                arith::strided_dot(self.data(), i * cols, x.data(), 0, 1, cols)
            },
        );
        let shape = vec![rows];
        proof {
            shape::lemma_vector_shape(shape@);
        }
        Tensor { data, shape }
    }

    /// The softmax of the elements.
    pub fn softmax<M: Math<T>>(&self, m: &M) -> (r: Tensor<T>)
        requires
            arith::total::<T>(),
            self.wf(),
        ensures
            r.wf(),
            r.dims() == self.dims(),
            softmaxed(*m, self.elems(), r.elems()),
    {
        let max = arith::maximum(m, self.data());
        let es = apply(
            self.data(),
            |x: T| -> (e: T)
                ensures
                    shifted_exp(*m, x, max, e)
            {
                let d = x - max;
                assert(arith::subtracted(x, max, d));
                m.exp(d)
            },
        );
        let s = arith::sum(es.as_slice());
        let data = apply(
            es.as_slice(),
            |e: T| -> (y: T)
                ensures
                    arith::divided(e, s, y)
            { e / s },
        );
        assert(elementwise::each(self.elems(), |x: T, e: T| shifted_exp(*m, x, max, e), es@));
        assert(elementwise::each(es@, |e: T, y: T| arith::divided(e, s, y), data@));
        assert(arith::largest(*m, self.elems(), max) && arith::summed(es@, s));
        self.with_data(data)
    }

    /// The root-mean-square normalisation of the elements.
    pub fn rms_norm<M: Math<T>>(&self, weight: &Tensor<T>, eps: T, m: &M) -> (r: Tensor<T>)
        requires
            arith::total::<T>(),
            self.wf(),
            weight.wf(),
            self.dims() == weight.dims(),
        ensures
            r.wf(),
            r.dims() == self.dims(),
            rms_normed(*m, self.elems(), weight.elems(), eps, r.elems()),
    {
        let len = self.numel();
        let sq = arith::strided_dot(self.data(), 0, self.data(), 0, 1, len);
        assert(self.elems().subrange(0, len as int) =~= self.elems());
        assert(arith::strided(self.elems(), 0, 1, len as int) =~= self.elems());
        let n = m.from_usize(len);
        let mean = sq / n;
        let s = mean + eps;
        let rms = m.sqrt(s);
        assert(arith::dot(self.elems(), self.elems(), sq) && arith::from_usize(
            *m,
            self.elems().len() as usize,
            n,
        ) && arith::divided(sq, n, mean) && arith::added(mean, eps, s));
        assert(root_mean_square(*m, self.elems(), eps, rms));
        let data = combine(
            self.data(),
            weight.data(),
            |x: T, w: T| -> (y: T)
                ensures
                    divided_times(x, rms, w, y)
            {
                let q = x / rms;
                assert(arith::divided(x, rms, q));
                q * w
            },
        );
        self.with_data(data)
    }

    /// Reads a tensor of single-precision numbers.
    pub fn load_f32<M: Math<T>>(bytes: &[u8], shape: Vec<usize>, m: &M) -> (r: Tensor<T>)
        requires
            shape::fits(shape@),
            bytes@.len() / 4 == shape::numel_of(shape@),
        ensures
            r.wf(),
            r.dims() == shape@,
            forall|i: int|
                0 <= i < r.elems().len() ==> single_at(*m, bytes@, i, #[trigger] r.elems()[i]),
    {
        assert(bytes.len() == bytes@.len());
        let data = build(
            bytes.len() / 4,
            |i: usize| -> (r: T)
                requires
                    i < bytes@.len() / 4
                ensures
                    single_at(*m, bytes@, i as int, r)
            { m.from_bits(u32_at(bytes, 4 * i)) },
        );
        Tensor { data, shape }
    }

    /// Reads a tensor of half-precision numbers.
    pub fn load_f16<M: Math<T>>(bytes: &[u8], shape: Vec<usize>, m: &M) -> (r: Tensor<T>)
        requires
            shape::fits(shape@),
            bytes@.len() == 2 * shape::numel_of(shape@),
        ensures
            r.wf(),
            r.dims() == shape@,
            forall|i: int|
                0 <= i < r.elems().len() ==> half_at(*m, bytes@, i, #[trigger] r.elems()[i]),
    {
        assert(bytes.len() == bytes@.len());
        let data = build(
            bytes.len() / 2,
            |i: usize| -> (r: T)
                requires
                    i < bytes@.len() / 2
                ensures
                    half_at(*m, bytes@, i as int, r)
            { m.from_half(u16_at(bytes, 2 * i)) },
        );
        Tensor { data, shape }
    }

    /// Reads a tensor of truncated single-precision numbers.
    pub fn load_bf16<M: Math<T>>(bytes: &[u8], shape: Vec<usize>, m: &M) -> (r: Tensor<T>)
        requires
            shape::fits(shape@),
            bytes@.len() == 2 * shape::numel_of(shape@),
        ensures
            r.wf(),
            r.dims() == shape@,
            forall|i: int|
                0 <= i < r.elems().len() ==> brain_at(*m, bytes@, i, #[trigger] r.elems()[i]),
    {
        assert(bytes.len() == bytes@.len());
        let data = build(
            bytes.len() / 2,
            |i: usize| -> (r: T)
                requires
                    i < bytes@.len() / 2
                ensures
                    brain_at(*m, bytes@, i as int, r)
            { m.from_bits(u16_at(bytes, 2 * i) as u32 * 0x1_0000) },
        );
        Tensor { data, shape }
    }
}

} // verus!
