//! Functions of single elements, and their application to whole sequences.

use crate::arith::{self, Math, Scalar};
use core::ops::Neg;
use vstd::prelude::*;

verus! {

/// Each element of `ys` is a value of `f` for the element of `xs` at the same place.
pub open spec fn each<T>(xs: Seq<T>, f: spec_fn(T, T) -> bool, ys: Seq<T>) -> bool {
    &&& ys.len() == xs.len()
    &&& forall|i: int| 0 <= i < ys.len() ==> f(xs[i], #[trigger] ys[i])
}

/// Each element of `ys` is a value of `f` for the elements of `xs` and `zs` at the same place.
pub open spec fn each_pair<T>(
    xs: Seq<T>,
    zs: Seq<T>,
    f: spec_fn(T, T, T) -> bool,
    ys: Seq<T>,
) -> bool {
    &&& ys.len() == xs.len() == zs.len()
    &&& forall|i: int| 0 <= i < ys.len() ==> f(xs[i], zs[i], #[trigger] ys[i])
}

/// `r` is a value of `1 + exp(-x)`.
pub open spec fn one_plus_exp_neg<T: Scalar, M: Math<T>>(m: M, x: T, r: T) -> bool {
    exists|one: T, n: T, e: T|
        {
            &&& #[trigger] arith::from_usize(m, 1, one)
            &&& arith::negated(x, n)
            &&& #[trigger] arith::exp(m, n, e)
            &&& arith::added(one, e, r)
        }
}

/// `r` is a value of `1 / (1 + exp(-x))`.
pub open spec fn sigmoid<T: Scalar, M: Math<T>>(m: M, x: T, r: T) -> bool {
    exists|one: T, d: T|
        {
            &&& #[trigger] arith::from_usize(m, 1, one)
            &&& #[trigger] one_plus_exp_neg(m, x, d)
            &&& arith::divided(one, d, r)
        }
}

/// `r` is a value of `x / (1 + exp(-x))`.
pub open spec fn silu<T: Scalar, M: Math<T>>(m: M, x: T, r: T) -> bool {
    exists|d: T| #[trigger] one_plus_exp_neg(m, x, d) && arith::divided(x, d, r)
}

/// `r` is a value of `ln(1 + exp(x))`.
pub open spec fn ln_one_plus_exp<T: Scalar, M: Math<T>>(m: M, x: T, r: T) -> bool {
    exists|one: T, e: T, s: T|
        {
            &&& #[trigger] arith::from_usize(m, 1, one)
            &&& #[trigger] arith::exp(m, x, e)
            &&& #[trigger] arith::added(one, e, s)
            &&& arith::ln(m, s, r)
        }
}

/// `r` is a value of the softplus of `x`: above 20, where the two agree to machine precision,
/// `x` itself, and `ln(1 + exp(x))` elsewhere.
pub open spec fn softplus<T: Scalar, M: Math<T>>(m: M, x: T, r: T) -> bool {
    exists|limit: T, above: bool|
        {
            &&& #[trigger] arith::from_usize(m, 20, limit)
            &&& #[trigger] arith::greater(x, limit, above)
            &&& if above {
                r == x
            } else {
                ln_one_plus_exp(m, x, r)
            }
        }
}

/// `r` is `x`, brought up to `min` where it is below, then down to `max` where it is above.
pub open spec fn clamped<T: Scalar>(x: T, min: T, max: T, r: T) -> bool {
    exists|below: bool, raised: T, above: bool|
        {
            &&& #[trigger] arith::less(x, min, below)
            &&& raised == if below {
                min
            } else {
                x
            }
            &&& #[trigger] arith::greater(raised, max, above)
            &&& r == if above {
                max
            } else {
                raised
            }
        }
}

/// Applies `f` to each element.
pub(crate) fn apply<T: Copy, F: Fn(T) -> T>(xs: &[T], f: F) -> (ys: Vec<T>)
    requires
        forall|x: T| #[trigger] call_requires(f, (x,)),
    ensures
        each(xs@, |x: T, y: T| call_ensures(f, (x,), y), ys@),
{
    let mut ys: Vec<T> = Vec::with_capacity(xs.len());
    let mut i: usize = 0;
    while i < xs.len()
        invariant
            i <= xs@.len(),
            ys@.len() == i,
            forall|x: T| #[trigger] call_requires(f, (x,)),
            forall|j: int| 0 <= j < i ==> call_ensures(f, (xs@[j],), #[trigger] ys@[j]),
        decreases xs@.len() - i,
    {
        ys.push(f(xs[i]));
        i += 1;
    }
    ys
}

/// The values of `f` at the first `n` places.
pub(crate) fn build<T, F: Fn(usize) -> T>(n: usize, f: F) -> (ys: Vec<T>)
    requires
        forall|i: usize| i < n ==> #[trigger] call_requires(f, (i,)),
    ensures
        ys@.len() == n,
        forall|i: int| 0 <= i < n ==> call_ensures(f, (i as usize,), #[trigger] ys@[i]),
{
    let mut ys: Vec<T> = Vec::with_capacity(n);
    let mut i: usize = 0;
    while i < n
        invariant
            i <= n,
            ys@.len() == i,
            forall|j: usize| j < n ==> #[trigger] call_requires(f, (j,)),
            forall|j: int| 0 <= j < i ==> call_ensures(f, (j as usize,), #[trigger] ys@[j]),
        decreases n - i,
    {
        ys.push(f(i));
        i += 1;
    }
    ys
}

/// Applies `f` to each pair of elements at the same place.
pub(crate) fn combine<T: Copy, F: Fn(T, T) -> T>(xs: &[T], zs: &[T], f: F) -> (ys: Vec<T>)
    requires
        xs@.len() == zs@.len(),
        forall|x: T, z: T| #[trigger] call_requires(f, (x, z)),
    ensures
        each_pair(xs@, zs@, |x: T, z: T, y: T| call_ensures(f, (x, z), y), ys@),
{
    let mut ys: Vec<T> = Vec::with_capacity(xs.len());
    let mut i: usize = 0;
    while i < xs.len()
        invariant
            i <= xs@.len() == zs@.len(),
            ys@.len() == i,
            forall|x: T, z: T| #[trigger] call_requires(f, (x, z)),
            forall|j: int| 0 <= j < i ==> call_ensures(f, (xs@[j], zs@[j]), #[trigger] ys@[j]),
        decreases xs@.len() - i,
    {
        ys.push(f(xs[i], zs[i]));
        i += 1;
    }
    ys
}

fn one_plus_exp_neg_of<T: Scalar, M: Math<T>>(m: &M, x: T) -> (r: T)
    requires
        arith::total::<T>(),
    ensures
        one_plus_exp_neg(*m, x, r),
{
    let one = m.from_usize(1);
    let n = x.neg();
    let e = m.exp(n);
    let r = one + e;
    assert(arith::from_usize(*m, 1, one) && arith::negated(x, n) && arith::exp(*m, n, e));
    r
}

/// The logistic function.
pub fn sigmoid_of<T: Scalar, M: Math<T>>(m: &M, x: T) -> (r: T)
    requires
        arith::total::<T>(),
    ensures
        sigmoid(*m, x, r),
{
    let one = m.from_usize(1);
    let d = one_plus_exp_neg_of(m, x);
    assert(arith::from_usize(*m, 1, one));
    one / d
}

/// The product of `x` and its logistic function.
pub fn silu_of<T: Scalar, M: Math<T>>(m: &M, x: T) -> (r: T)
    requires
        arith::total::<T>(),
    ensures
        silu(*m, x, r),
{
    let d = one_plus_exp_neg_of(m, x);
    x / d
}

/// The softplus function.
pub fn softplus_of<T: Scalar, M: Math<T>>(m: &M, x: T) -> (r: T)
    requires
        arith::total::<T>(),
    ensures
        softplus(*m, x, r),
{
    let limit = m.from_usize(20);
    let above = x > limit;
    assert(arith::from_usize(*m, 20, limit) && arith::greater(x, limit, above));
    if above {
        x
    } else {
        let one = m.from_usize(1);
        let e = m.exp(x);
        let s = one + e;
        let r = m.ln(s);
        assert(arith::from_usize(*m, 1, one) && arith::exp(*m, x, e) && arith::added(one, e, s));
        assert(ln_one_plus_exp(*m, x, r));
        r
    }
}

/// Restricts `x` to the range from `min` to `max`.
pub fn clamped_of<T: Scalar>(x: T, min: T, max: T) -> (r: T)
    ensures
        clamped(x, min, max, r),
{
    let below = x < min;
    let raised = if below {
        min
    } else {
        x
    };
    let above = raised > max;
    assert(arith::less(x, min, below) && arith::greater(raised, max, above));
    if above {
        max
    } else {
        raised
    }
}

} // verus!
