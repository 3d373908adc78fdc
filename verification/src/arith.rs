//! Arithmetic on the elements of tensors.
//!
//! The library is generic in its element type. Sums, products and comparisons are those of the
//! standard operator traits; what these lack (roots, exponentials, the way from bits and
//! integers to elements) comes from a [`Math`] value that the caller passes in.
//!
//! Floating point operations are not functions: two evaluations may disagree in the bits of a
//! result that is no number. So contracts speak of results as relations: `added(a, b, r)` holds
//! where `r` is a value that `a + b` may give.

use core::ops::{Add, Div, Mul, Neg, Sub};
use vstd::prelude::*;
use vstd::std_specs::ops::{AddSpec, DivSpec, MulSpec, NegSpec, SubSpec};

verus! {

/// An element type: what single-precision floating point numbers offer.
pub trait Scalar: Copy + Default + Add<Output = Self> + Sub<Output = Self> + Mul<
    Output = Self,
> + Div<Output = Self> + Neg<Output = Self> + PartialOrd {

}

impl<
    T: Copy + Default + Add<Output = T> + Sub<Output = T> + Mul<Output = T> + Div<
        Output = T,
    > + Neg<Output = T> + PartialOrd,
> Scalar for T {

}

/// The functions on elements that the operators do not give.
pub trait Math<T> {
    /// The number with the given single-precision encoding.
    fn from_bits(&self, bits: u32) -> T;

    /// The number with the given half-precision encoding.
    fn from_half(&self, bits: u16) -> T;

    /// The number nearest to `n`.
    fn from_int(&self, n: i32) -> T;

    /// The number nearest to `n`.
    fn from_usize(&self, n: usize) -> T;

    /// A number that no other is below.
    fn lowest(&self) -> T;

    /// The larger of two numbers.
    fn max(&self, a: T, b: T) -> T;

    fn exp(&self, x: T) -> T;

    fn ln(&self, x: T) -> T;

    fn sqrt(&self, x: T) -> T;

    fn sin(&self, x: T) -> T;

    fn cos(&self, x: T) -> T;

    /// `base` to the power of `exponent`.
    fn pow(&self, base: T, exponent: T) -> T;
}

/// The operators of `T` may be applied to any operands.
pub open spec fn total<T: Scalar>() -> bool {
    &&& forall|a: T, b: T| #[trigger] a.add_req(b)
    &&& forall|a: T, b: T| #[trigger] a.sub_req(b)
    &&& forall|a: T, b: T| #[trigger] a.mul_req(b)
    &&& forall|a: T, b: T| #[trigger] a.div_req(b)
    &&& forall|a: T| #[trigger] a.neg_req()
}

/// `r` is a value of `T::default()`.
pub open spec fn zero<T: Default>(r: T) -> bool {
    call_ensures(T::default, (), r)
}

/// `r` is a value of `a + b`.
pub open spec fn added<T: Scalar>(a: T, b: T, r: T) -> bool {
    call_ensures(<T as Add<T>>::add, (a, b), r)
}

/// `r` is a value of `a - b`.
pub open spec fn subtracted<T: Scalar>(a: T, b: T, r: T) -> bool {
    call_ensures(<T as Sub<T>>::sub, (a, b), r)
}

/// `r` is a value of `a * b`.
pub open spec fn multiplied<T: Scalar>(a: T, b: T, r: T) -> bool {
    call_ensures(<T as Mul<T>>::mul, (a, b), r)
}

/// `r` is a value of `a / b`.
pub open spec fn divided<T: Scalar>(a: T, b: T, r: T) -> bool {
    call_ensures(<T as Div<T>>::div, (a, b), r)
}

/// `r` is a value of `-a`.
pub open spec fn negated<T: Scalar>(a: T, r: T) -> bool {
    call_ensures(<T as Neg>::neg, (a,), r)
}

/// `r` is a value of `a > b`.
pub open spec fn greater<T: Scalar>(a: T, b: T, r: bool) -> bool {
    call_ensures(<T as PartialOrd<T>>::gt, (&a, &b), r)
}

/// `r` is a value of `a < b`.
pub open spec fn less<T: Scalar>(a: T, b: T, r: bool) -> bool {
    call_ensures(<T as PartialOrd<T>>::lt, (&a, &b), r)
}

/// `r` is a value of `a >= b`.
pub open spec fn at_least<T: Scalar>(a: T, b: T, r: bool) -> bool {
    call_ensures(<T as PartialOrd<T>>::ge, (&a, &b), r)
}

/// `r` is a value of `a <= b`.
pub open spec fn at_most<T: Scalar>(a: T, b: T, r: bool) -> bool {
    call_ensures(<T as PartialOrd<T>>::le, (&a, &b), r)
}

/// `r` is a value of `m.from_bits(bits)`.
pub open spec fn from_bits<T, M: Math<T>>(m: M, bits: u32, r: T) -> bool {
    call_ensures(M::from_bits, (&m, bits), r)
}

/// `r` is a value of `m.from_half(bits)`.
pub open spec fn from_half<T, M: Math<T>>(m: M, bits: u16, r: T) -> bool {
    call_ensures(M::from_half, (&m, bits), r)
}

/// `r` is a value of `m.from_int(n)`.
pub open spec fn from_int<T, M: Math<T>>(m: M, n: i32, r: T) -> bool {
    call_ensures(M::from_int, (&m, n), r)
}

/// `r` is a value of `m.from_usize(n)`.
pub open spec fn from_usize<T, M: Math<T>>(m: M, n: usize, r: T) -> bool {
    call_ensures(M::from_usize, (&m, n), r)
}

/// `r` is a value of `m.lowest()`.
pub open spec fn lowest<T, M: Math<T>>(m: M, r: T) -> bool {
    call_ensures(M::lowest, (&m,), r)
}

/// `r` is a value of `m.max(a, b)`.
pub open spec fn larger<T, M: Math<T>>(m: M, a: T, b: T, r: T) -> bool {
    call_ensures(M::max, (&m, a, b), r)
}

/// `r` is a value of `m.exp(x)`.
pub open spec fn exp<T, M: Math<T>>(m: M, x: T, r: T) -> bool {
    call_ensures(M::exp, (&m, x), r)
}

/// `r` is a value of `m.ln(x)`.
pub open spec fn ln<T, M: Math<T>>(m: M, x: T, r: T) -> bool {
    call_ensures(M::ln, (&m, x), r)
}

/// `r` is a value of `m.sqrt(x)`.
pub open spec fn sqrt<T, M: Math<T>>(m: M, x: T, r: T) -> bool {
    call_ensures(M::sqrt, (&m, x), r)
}

/// `r` is a value of `m.sin(x)`.
pub open spec fn sin<T, M: Math<T>>(m: M, x: T, r: T) -> bool {
    call_ensures(M::sin, (&m, x), r)
}

/// `r` is a value of `m.cos(x)`.
pub open spec fn cos<T, M: Math<T>>(m: M, x: T, r: T) -> bool {
    call_ensures(M::cos, (&m, x), r)
}

/// `r` is a value of `m.pow(base, exponent)`.
pub open spec fn pow<T, M: Math<T>>(m: M, base: T, exponent: T, r: T) -> bool {
    call_ensures(M::pow, (&m, base, exponent), r)
}

/// `r` is a value of `xs[0] + xs[1] + ...`, added up from zero in this order.
pub open spec fn summed<T: Scalar>(xs: Seq<T>, r: T) -> bool
    decreases xs.len(),
{
    if xs.len() == 0 {
        zero(r)
    } else {
        exists|acc: T| summed(xs.drop_last(), acc) && #[trigger] added(acc, xs.last(), r)
    }
}

/// `r` is a value of `a[0] * b[0] + a[1] * b[1] + ...`, added up from zero in this order.
pub open spec fn dot<T: Scalar>(a: Seq<T>, b: Seq<T>, r: T) -> bool
    decreases a.len(),
{
    if a.len() == 0 {
        zero(r)
    } else {
        exists|acc: T, p: T|
            {
                &&& dot(a.drop_last(), b.drop_last(), acc)
                &&& #[trigger] multiplied(a.last(), b.last(), p)
                &&& #[trigger] added(acc, p, r)
            }
    }
}

/// `r` is a value of the largest element of `xs`, sought from the lowest number on.
pub open spec fn largest<T, M: Math<T>>(m: M, xs: Seq<T>, r: T) -> bool
    decreases xs.len(),
{
    if xs.len() == 0 {
        lowest(m, r)
    } else {
        exists|acc: T| largest(m, xs.drop_last(), acc) && #[trigger] larger(m, acc, xs.last(), r)
    }
}

/// The sum of the elements of `xs`.
pub fn sum<T: Scalar>(xs: &[T]) -> (r: T)
    requires
        total::<T>(),
    ensures
        summed(xs@, r),
{
    let mut acc: T = T::default();
    let mut i: usize = 0;
    while i < xs.len()
        invariant
            total::<T>(),
            i <= xs@.len(),
            summed(xs@.take(i as int), acc),
        decreases xs@.len() - i,
    {
        let ghost before = acc;
        acc = acc + xs[i];
        proof {
            let xs1 = xs@.take(i + 1);
            assert(xs1.drop_last() =~= xs@.take(i as int));
            assert(summed(xs1.drop_last(), before) && added(before, xs1.last(), acc));
        }
        i += 1;
    }
    assert(xs@.take(i as int) =~= xs@);
    acc
}

/// The largest of the elements of `xs`.
pub fn maximum<T: Copy, M: Math<T>>(m: &M, xs: &[T]) -> (r: T)
    ensures
        largest(*m, xs@, r),
{
    let mut acc: T = m.lowest();
    let mut i: usize = 0;
    while i < xs.len()
        invariant
            i <= xs@.len(),
            largest(*m, xs@.take(i as int), acc),
        decreases xs@.len() - i,
    {
        let ghost before = acc;
        acc = m.max(acc, xs[i]);
        proof {
            let xs1 = xs@.take(i + 1);
            assert(xs1.drop_last() =~= xs@.take(i as int));
            assert(largest(*m, xs1.drop_last(), before) && larger(*m, before, xs1.last(), acc));
        }
        i += 1;
    }
    assert(xs@.take(i as int) =~= xs@);
    acc
}

/// The dot product of `n` elements of `a` from `a_start` on and as many of `b` from `b_start` on,
/// `b_step` apart.
pub(crate) fn strided_dot<T: Scalar>(
    a: &[T],
    a_start: usize,
    b: &[T],
    b_start: usize,
    b_step: usize,
    n: usize,
) -> (r: T)
    requires
        total::<T>(),
        a_start + n <= a@.len(),
        n > 0 ==> b_start + (n - 1) * b_step < b@.len(),
    ensures
        dot(
            a@.subrange(a_start as int, a_start + n),
            strided(b@, b_start as int, b_step as int, n as int),
            r,
        ),
{
    let mut acc: T = T::default();
    let mut i: usize = 0;
    let ghost row = a@.subrange(a_start as int, a_start + n);
    let ghost col = strided(b@, b_start as int, b_step as int, n as int);
    while i < n
        invariant
            total::<T>(),
            i <= n,
            a_start + n <= a@.len(),
            n > 0 ==> b_start + (n - 1) * b_step < b@.len(),
            row == a@.subrange(a_start as int, a_start + n),
            col == strided(b@, b_start as int, b_step as int, n as int),
            dot(row.take(i as int), col.take(i as int), acc),
        decreases n - i,
    {
        assert(b.len() == b@.len() && a.len() == a@.len());
        assert(i * b_step <= (n - 1) * b_step) by (nonlinear_arith)
            requires
                i <= n - 1,
                b_step >= 0,
        ;
        assert(i * b_step >= 0) by (nonlinear_arith)
            requires
                i >= 0,
                b_step >= 0,
        ;
        let ghost before = acc;
        let p = a[a_start + i] * b[b_start + i * b_step];
        acc = acc + p;
        proof {
            let (r1, c1) = (row.take(i + 1), col.take(i + 1));
            assert(r1.drop_last() =~= row.take(i as int));
            assert(c1.drop_last() =~= col.take(i as int));
            assert(dot(r1.drop_last(), c1.drop_last(), before) && multiplied(r1.last(), c1.last(), p)
                && added(before, p, acc));
        }
        i += 1;
    }
    assert(row.take(n as int) =~= row);
    assert(col.take(n as int) =~= col);
    acc
}

/// The `n` elements of `xs` at `start`, `start + step`, and so on.
pub open spec fn strided<T>(xs: Seq<T>, start: int, step: int, n: int) -> Seq<T> {
    Seq::new(n as nat, |i: int| xs[start + i * step])
}

} // verus!
