//! What the operations give where arithmetic is exact.
//!
//! Floating point rounds, and contracts leave open how. The laws here say what the operations
//! come to without rounding: elements are read as real numbers, and the operations on elements
//! as those on real numbers.

use crate::arith::{self, Math, Scalar};
use crate::elementwise;
use crate::tensor;
use vstd::prelude::*;

verus! {

/// How elements are read as real numbers, and the functions on real numbers that go with it.
#[verifier::reject_recursive_types(T)]
pub struct Reals<T> {
    pub value: spec_fn(T) -> real,
    pub bits: spec_fn(u32) -> real,
    pub half: spec_fn(u16) -> real,
    pub exp: spec_fn(real) -> real,
    pub ln: spec_fn(real) -> real,
    pub sqrt: spec_fn(real) -> real,
    pub sin: spec_fn(real) -> real,
    pub cos: spec_fn(real) -> real,
    pub pow: spec_fn(real, real) -> real,
}

impl<T> Reals<T> {
    /// The number that an element stands for.
    pub open spec fn of(self, x: T) -> real {
        (self.value)(x)
    }

    /// The exponential of a sum is the product of the exponentials.
    pub open spec fn exp_of_sum(self, x: real, y: real) -> bool {
        (self.exp)(x + y) == (self.exp)(x) * (self.exp)(y)
    }

    /// The sine and the cosine of a sum.
    pub open spec fn turn_of_sum(self, x: real, y: real) -> bool {
        &&& (self.cos)(x + y) == (self.cos)(x) * (self.cos)(y) - (self.sin)(x) * (self.sin)(y)
        &&& (self.sin)(x + y) == (self.sin)(x) * (self.cos)(y) + (self.cos)(x) * (self.sin)(y)
    }

    /// The functions on real numbers are what their names say.
    pub open spec fn sound(self) -> bool {
        &&& forall|x: real| #[trigger] (self.exp)(x) > 0real
        &&& forall|x: real, y: real| #[trigger] self.exp_of_sum(x, y)
        &&& forall|x: real, y: real| x < y ==> #[trigger] (self.exp)(x) < #[trigger] (self.exp)(y)
        &&& forall|x: real| x > 0real ==> (self.exp)(#[trigger] (self.ln)(x)) == x
        &&& forall|x: real|
            x >= 0real ==> #[trigger] (self.sqrt)(x) >= 0real && (self.sqrt)(x) * (self.sqrt)(x)
                == x
        &&& forall|x: real, y: real| #[trigger] self.turn_of_sum(x, y)
        &&& forall|x: real|
            #![trigger (self.cos)(x)]
            (self.cos)(x) * (self.cos)(x) + (self.sin)(x) * (self.sin)(x) == 1real
        &&& (self.cos)(0real) == 1real
        &&& forall|x: real, y: real| x > 0real ==> #[trigger] (self.pow)(x, y) > 0real
    }
}

/// Operations on elements are operations on the numbers that they stand for.
pub open spec fn exact<T: Scalar, M: Math<T>>(m: M, v: Reals<T>) -> bool {
    &&& v.sound()
    &&& forall|r: T| #[trigger] arith::zero(r) ==> v.of(r) == 0real
    &&& forall|a: T, b: T, r: T| #[trigger] arith::added(a, b, r) ==> v.of(r) == v.of(a) + v.of(b)
    &&& forall|a: T, b: T, r: T| #[trigger]
        arith::subtracted(a, b, r) ==> v.of(r) == v.of(a) - v.of(b)
    &&& forall|a: T, b: T, r: T| #[trigger]
        arith::multiplied(a, b, r) ==> v.of(r) == v.of(a) * v.of(b)
    &&& forall|a: T, b: T, r: T| #[trigger]
        arith::divided(a, b, r) && v.of(b) != 0real ==> v.of(r) == v.of(a) / v.of(b)
    &&& forall|a: T, r: T| #[trigger] arith::negated(a, r) ==> v.of(r) == 0real - v.of(a)
    &&& forall|a: T, b: T, r: bool| #[trigger]
        arith::greater(a, b, r) <==> r == (v.of(a) > v.of(b))
    &&& forall|a: T, b: T, r: bool| #[trigger] arith::less(a, b, r) ==> r == (v.of(a) < v.of(b))
    &&& forall|a: T, b: T, r: bool| #[trigger]
        arith::at_least(a, b, r) ==> r == (v.of(a) >= v.of(b))
    &&& forall|n: usize, r: T| #[trigger] arith::from_usize(m, n, r) ==> v.of(r) == n as real
    &&& forall|n: i32, r: T| #[trigger] arith::from_int(m, n, r) ==> v.of(r) == n as real
    &&& forall|n: u32, r: T| #[trigger] arith::from_bits(m, n, r) ==> v.of(r) == (v.bits)(n)
    &&& forall|n: u16, r: T| #[trigger] arith::from_half(m, n, r) ==> v.of(r) == (v.half)(n)
    &&& forall|a: T, b: T, r: T| #[trigger]
        arith::larger(m, a, b, r) ==> v.of(a) <= v.of(r) && v.of(b) <= v.of(r) && (v.of(r) == v.of(
            a,
        ) || v.of(r) == v.of(b))
    &&& forall|a: T, r: T| #[trigger] arith::exp(m, a, r) ==> v.of(r) == (v.exp)(v.of(a))
    &&& forall|a: T, r: T| #[trigger] arith::ln(m, a, r) ==> v.of(r) == (v.ln)(v.of(a))
    &&& forall|a: T, r: T| #[trigger] arith::sqrt(m, a, r) ==> v.of(r) == (v.sqrt)(v.of(a))
    &&& forall|a: T, r: T| #[trigger] arith::sin(m, a, r) ==> v.of(r) == (v.sin)(v.of(a))
    &&& forall|a: T, r: T| #[trigger] arith::cos(m, a, r) ==> v.of(r) == (v.cos)(v.of(a))
    &&& forall|a: T, b: T, r: T| #[trigger]
        arith::pow(m, a, b, r) ==> v.of(r) == (v.pow)(v.of(a), v.of(b))
}

/// The sum of real numbers.
pub open spec fn total(xs: Seq<real>) -> real
    decreases xs.len(),
{
    if xs.len() == 0 {
        0real
    } else {
        total(xs.drop_last()) + xs.last()
    }
}

/// The numbers that elements stand for.
pub open spec fn values<T>(v: Reals<T>, xs: Seq<T>) -> Seq<real> {
    xs.map_values(|x: T| v.of(x))
}

/// The products of numbers at the same place.
pub open spec fn products<T>(v: Reals<T>, a: Seq<T>, b: Seq<T>) -> Seq<real> {
    Seq::new(a.len(), |i: int| v.of(a[i]) * v.of(b[i]))
}

/// A sum of elements is the sum of their numbers.
pub proof fn law_sum<T: Scalar, M: Math<T>>(m: M, v: Reals<T>, xs: Seq<T>, r: T)
    requires
        exact(m, v),
        arith::summed(xs, r),
    ensures
        v.of(r) == total(values(v, xs)),
    decreases xs.len(),
{
    if xs.len() > 0 {
        let front = xs.drop_last();
        let acc = choose|acc: T|
            arith::summed(front, acc) && #[trigger] arith::added(acc, xs.last(), r);
        law_sum(m, v, front, acc);
        assert(values(v, xs).drop_last() =~= values(v, front));
    }
}

/// A dot product is the sum of the products of the numbers at the same place.
pub proof fn law_dot<T: Scalar, M: Math<T>>(m: M, v: Reals<T>, a: Seq<T>, b: Seq<T>, r: T)
    requires
        exact(m, v),
        a.len() == b.len(),
        arith::dot(a, b, r),
    ensures
        v.of(r) == total(products(v, a, b)),
    decreases a.len(),
{
    if a.len() > 0 {
        let (af, bf) = (a.drop_last(), b.drop_last());
        let (acc, p) = choose|acc: T, p: T|
            {
                &&& arith::dot(af, bf, acc)
                &&& #[trigger] arith::multiplied(a.last(), b.last(), p)
                &&& #[trigger] arith::added(acc, p, r)
            };
        law_dot(m, v, af, bf, acc);
        assert(products(v, a, b).drop_last() =~= products(v, af, bf));
    }
}

/// The logistic function of a number is a share of one; its ratio to the rest is the exponential
/// of the number.
pub proof fn law_sigmoid<T: Scalar, M: Math<T>>(m: M, v: Reals<T>, x: T, r: T)
    requires
        exact(m, v),
        elementwise::sigmoid(m, x, r),
    ensures
        0real < v.of(r) < 1real,
        v.of(r) == (1real - v.of(r)) * (v.exp)(v.of(x)),
{
    let (one, d) = choose|one: T, d: T|
        {
            &&& #[trigger] arith::from_usize(m, 1, one)
            &&& #[trigger] elementwise::one_plus_exp_neg(m, x, d)
            &&& arith::divided(one, d, r)
        };
    let (e, s) = ((v.exp)(v.of(x)), (v.exp)(0real - v.of(x)));
    assert(v.exp_of_sum(v.of(x), 0real - v.of(x)));
    assert(v.exp_of_sum(0real, 0real));
    lemma_exp_zero(v);
    assert(e * s == 1real);
    assert(v.of(d) == 1real + s);
    assert(v.of(r) == 1real / (1real + s));
    let q = v.of(r);
    assert(q * (1real + s) == 1real) by (nonlinear_arith)
        requires
            q == 1real / (1real + s),
            s > 0real,
    ;
    assert(q == (1real - q) * e && 0real < q < 1real) by (nonlinear_arith)
        requires
            q * (1real + s) == 1real,
            e * s == 1real,
            s > 0real,
            e > 0real,
    ;
}

/// The exponential of zero is one.
pub proof fn lemma_exp_zero<T>(v: Reals<T>)
    requires
        v.sound(),
    ensures
        (v.exp)(0real) == 1real,
{
    assert(v.exp_of_sum(0real, 0real));
    let e = (v.exp)(0real);
    assert(e == 1real) by (nonlinear_arith)
        requires
            e == e * e,
            e > 0real,
    ;
}

/// The product of a number and its logistic function.
pub proof fn law_silu<T: Scalar, M: Math<T>>(m: M, v: Reals<T>, x: T, s: T, r: T)
    requires
        exact(m, v),
        elementwise::sigmoid(m, x, s),
        elementwise::silu(m, x, r),
    ensures
        v.of(r) == v.of(x) * v.of(s),
{
    let (one, c) = choose|one: T, c: T|
        {
            &&& #[trigger] arith::from_usize(m, 1, one)
            &&& #[trigger] elementwise::one_plus_exp_neg(m, x, c)
            &&& arith::divided(one, c, s)
        };
    let d = choose|d: T| #[trigger]
        elementwise::one_plus_exp_neg(m, x, d) && arith::divided(x, d, r);
    let t = 1real + (v.exp)(0real - v.of(x));
    assert(v.of(c) == t && v.of(d) == t);
    let a = v.of(x);
    assert(a / t == a * (1real / t)) by (nonlinear_arith)
        requires
            t > 0real,
    ;
}

/// Up to 20 the exponential of the softplus of a number is one more than the exponential of the
/// number; above 20 the softplus is the number itself.
pub proof fn law_softplus<T: Scalar, M: Math<T>>(m: M, v: Reals<T>, x: T, r: T)
    requires
        exact(m, v),
        elementwise::softplus(m, x, r),
    ensures
        v.of(x) <= 20real ==> (v.exp)(v.of(r)) == 1real + (v.exp)(v.of(x)),
        v.of(x) > 20real ==> r == x,
{
    if v.of(x) <= 20real {
        let (one, e, s) = choose|one: T, e: T, s: T|
            {
                &&& #[trigger] arith::from_usize(m, 1, one)
                &&& #[trigger] arith::exp(m, x, e)
                &&& #[trigger] arith::added(one, e, s)
                &&& arith::ln(m, s, r)
            };
        assert(v.of(s) == 1real + (v.exp)(v.of(x)));
    }
}

/// A clamped number lies in the range, and is the number itself where that does.
pub proof fn law_clamp<T: Scalar, M: Math<T>>(m: M, v: Reals<T>, x: T, min: T, max: T, r: T)
    requires
        exact(m, v),
        v.of(min) <= v.of(max),
        elementwise::clamped(x, min, max, r),
    ensures
        v.of(min) <= v.of(r) <= v.of(max),
        v.of(min) <= v.of(x) <= v.of(max) ==> r == x,
        v.of(x) < v.of(min) ==> r == min,
        v.of(x) > v.of(max) ==> r == max,
{
}

/// Numbers times one number have the sum of the numbers times it.
pub proof fn lemma_total_times(a: Seq<real>, c: real, b: Seq<real>)
    requires
        a.len() == b.len(),
        forall|i: int| 0 <= i < a.len() ==> #[trigger] b[i] == a[i] * c,
    ensures
        total(b) == total(a) * c,
    decreases a.len(),
{
    if a.len() == 0 {
        assert(0real * c == 0real) by (nonlinear_arith);
    } else {
        let (af, bf) = (a.drop_last(), b.drop_last());
        lemma_total_times(af, c, bf);
        let (s, l) = (total(af), a.last());
        assert(b.last() == l * c);
        assert(s * c + l * c == (s + l) * c) by (nonlinear_arith);
    }
}

/// The sum of positive numbers is positive.
pub proof fn lemma_total_positive(a: Seq<real>)
    requires
        forall|i: int| 0 <= i < a.len() ==> #[trigger] a[i] > 0real,
    ensures
        total(a) >= 0real,
        a.len() > 0 ==> total(a) > 0real,
    decreases a.len(),
{
    if a.len() > 0 {
        lemma_total_positive(a.drop_last());
        assert(a.last() > 0real);
    }
}

/// The softmax of numbers is positive, its sum is one, and its elements are to each other as the
/// exponentials of the numbers.
pub proof fn law_softmax<T: Scalar, M: Math<T>>(m: M, v: Reals<T>, xs: Seq<T>, ys: Seq<T>)
    requires
        exact(m, v),
        xs.len() > 0,
        tensor::softmaxed(m, xs, ys),
    ensures
        ys.len() == xs.len(),
        forall|i: int| 0 <= i < ys.len() ==> v.of(#[trigger] ys[i]) > 0real,
        total(values(v, ys)) == 1real,
        forall|i: int, j: int|
            0 <= i < xs.len() && 0 <= j < xs.len() ==> v.of(#[trigger] ys[i]) * (v.exp)(v.of(xs[j]))
                == v.of(#[trigger] ys[j]) * (v.exp)(v.of(xs[i])),
{
    let (max, es, s) = choose|max: T, es: Seq<T>, s: T|
        {
            &&& #[trigger] arith::largest(m, xs, max)
            &&& elementwise::each(xs, |x: T, e: T| tensor::shifted_exp(m, x, max, e), es)
            &&& #[trigger] arith::summed(es, s)
            &&& elementwise::each(es, |e: T, y: T| arith::divided(e, s, y), ys)
        };
    law_sum(m, v, es, s);
    assert forall|i: int| 0 <= i < es.len() implies v.of(#[trigger] es[i]) == (v.exp)(
        v.of(xs[i]) - v.of(max),
    ) by {
        assert(tensor::shifted_exp(m, xs[i], max, es[i]));
    }
    assert forall|i: int| 0 <= i < es.len() implies #[trigger] values(v, es)[i] > 0real by {
        assert(v.of(es[i]) > 0real);
    }
    lemma_total_positive(values(v, es));
    let z = v.of(s);
    assert forall|i: int| 0 <= i < ys.len() implies v.of(#[trigger] ys[i]) == v.of(es[i]) / z
        && v.of(ys[i]) * z == v.of(es[i]) && v.of(ys[i]) > 0real by {
        assert(arith::divided(es[i], s, ys[i]));
        let e = v.of(es[i]);
        assert((e / z) * z == e && e / z > 0real) by (nonlinear_arith)
            requires
                z > 0real,
                e > 0real,
        ;
    }
    assert forall|i: int| 0 <= i < ys.len() implies #[trigger] values(v, es)[i] == values(v, ys)[i]
        * z by {
        assert(v.of(ys[i]) * z == v.of(es[i]));
    }
    lemma_total_times(values(v, ys), z, values(v, es));
    let t = total(values(v, ys));
    assert(t == 1real) by (nonlinear_arith)
        requires
            z == t * z,
            z > 0real,
    ;
    assert forall|i: int, j: int| 0 <= i < xs.len() && 0 <= j < xs.len() implies v.of(
        #[trigger] ys[i],
    ) * (v.exp)(v.of(xs[j])) == v.of(#[trigger] ys[j]) * (v.exp)(v.of(xs[i])) by {
        let mx = v.of(max);
        let (xi, xj) = (v.of(xs[i]), v.of(xs[j]));
        assert(v.exp_of_sum(xi - mx, mx) && v.exp_of_sum(xj - mx, mx));
        assert(xi - mx + mx == xi && xj - mx + mx == xj);
        let (a, b, c) = ((v.exp)(xi - mx), (v.exp)(xj - mx), (v.exp)(mx));
        let (yi, yj) = (v.of(ys[i]), v.of(ys[j]));
        assert((v.exp)(xi) == a * c && (v.exp)(xj) == b * c);
        assert(yi * z == a && yj * z == b);
        assert(yi * (b * c) == yj * (a * c)) by (nonlinear_arith)
            requires
                yi * z == a,
                yj * z == b,
        ;
    }
}

/// No element is larger than the largest, and unless all are lower than the lowest number, one of
/// them is as large.
pub proof fn law_largest<T: Scalar, M: Math<T>>(m: M, v: Reals<T>, xs: Seq<T>, r: T)
    requires
        exact(m, v),
        arith::largest(m, xs, r),
    ensures
        forall|i: int| 0 <= i < xs.len() ==> v.of(#[trigger] xs[i]) <= v.of(r),
        exists|low: T| #[trigger] arith::lowest(m, low) && (v.of(r) == v.of(low) || exists|i: int|
            0 <= i < xs.len() && v.of(r) == v.of(#[trigger] xs[i])),
    decreases xs.len(),
{
    if xs.len() > 0 {
        let front = xs.drop_last();
        let acc = choose|acc: T|
            arith::largest(m, front, acc) && #[trigger] arith::larger(m, acc, xs.last(), r);
        law_largest(m, v, front, acc);
        assert forall|i: int| 0 <= i < xs.len() implies v.of(#[trigger] xs[i]) <= v.of(r) by {
            if i < front.len() {
                assert(xs[i] == front[i]);
            }
        }
        let low = choose|low: T| #[trigger] arith::lowest(m, low) && (v.of(acc) == v.of(low) || exists|
            i: int,
        |
            0 <= i < front.len() && v.of(acc) == v.of(#[trigger] front[i]));
        if v.of(r) == v.of(xs.last()) {
            assert(v.of(r) == v.of(xs[xs.len() - 1]));
        } else if v.of(acc) != v.of(low) {
            let i = choose|i: int| 0 <= i < front.len() && v.of(acc) == v.of(#[trigger] front[i]);
            assert(xs[i] == front[i]);
        }
        assert(arith::lowest(m, low));
    }
}

/// `e` is the exponential of a number that is not above zero.
pub open spec fn exp_of_no_more_than_zero<T: Scalar, M: Math<T>>(m: M, v: Reals<T>, e: T) -> bool {
    exists|d: T| #[trigger] arith::exp(m, d, e) && v.of(d) <= 0real
}

/// A softmax is computed from exponentials of numbers that are not above zero, so that none of
/// these exponentials is above one, however large the elements are.
pub proof fn law_softmax_is_bounded<T: Scalar, M: Math<T>>(
    m: M,
    v: Reals<T>,
    xs: Seq<T>,
    ys: Seq<T>,
) -> (r: (Seq<T>, T))
    requires
        exact(m, v),
        tensor::softmaxed(m, xs, ys),
    ensures
        r.0.len() == xs.len(),
        ys.len() == xs.len(),
        arith::summed(r.0, r.1),
        forall|i: int| 0 <= i < ys.len() ==> arith::divided(r.0[i], r.1, #[trigger] ys[i]),
        forall|i: int| 0 <= i < xs.len() ==> v.of(#[trigger] r.0[i]) <= 1real,
        forall|i: int| 0 <= i < xs.len() ==> exp_of_no_more_than_zero(m, v, #[trigger] r.0[i]),
{
    let (max, es, s) = choose|max: T, es: Seq<T>, s: T|
        {
            &&& #[trigger] arith::largest(m, xs, max)
            &&& elementwise::each(xs, |x: T, e: T| tensor::shifted_exp(m, x, max, e), es)
            &&& #[trigger] arith::summed(es, s)
            &&& elementwise::each(es, |e: T, y: T| arith::divided(e, s, y), ys)
        };
    law_largest(m, v, xs, max);
    lemma_exp_zero(v);
    assert forall|i: int| 0 <= i < xs.len() implies v.of(#[trigger] es[i]) <= 1real
        && exp_of_no_more_than_zero(m, v, es[i]) by {
        assert(tensor::shifted_exp(m, xs[i], max, es[i]));
        let d = choose|d: T| #[trigger]
            arith::subtracted(xs[i], max, d) && arith::exp(m, d, es[i]);
        assert(v.of(xs[i]) <= v.of(max));
        assert(v.of(d) <= 0real);
        if v.of(d) < 0real {
            assert((v.exp)(v.of(d)) < (v.exp)(0real));
        }
    }
    (es, s)
}

/// The sum of squares is not negative.
proof fn lemma_squares<T>(v: Reals<T>, xs: Seq<T>)
    ensures
        total(products(v, xs, xs)) >= 0real,
    decreases xs.len(),
{
    if xs.len() > 0 {
        let front = xs.drop_last();
        lemma_squares(v, front);
        assert(products(v, xs, xs).drop_last() =~= products(v, front, front));
        let a = v.of(xs.last());
        assert(a * a >= 0real) by (nonlinear_arith);
    }
}

/// Normalised elements, times the root of the mean square plus `eps`, are the elements times
/// their weights.
pub proof fn law_rms_norm<T: Scalar, M: Math<T>>(
    m: M,
    v: Reals<T>,
    xs: Seq<T>,
    ws: Seq<T>,
    eps: T,
    ys: Seq<T>,
    i: int,
)
    requires
        exact(m, v),
        v.of(eps) > 0real,
        xs.len() <= usize::MAX,
        tensor::rms_normed(m, xs, ws, eps, ys),
        0 <= i < xs.len(),
    ensures
        ys.len() == xs.len(),
        (v.sqrt)(total(products(v, xs, xs)) / (xs.len() as real) + v.of(eps)) > 0real,
        v.of(ys[i]) * (v.sqrt)(total(products(v, xs, xs)) / (xs.len() as real) + v.of(eps)) == v.of(
            xs[i],
        ) * v.of(ws[i]),
{
    let rms = choose|rms: T|
        {
            &&& #[trigger] tensor::root_mean_square(m, xs, eps, rms)
            &&& elementwise::each_pair(
                xs,
                ws,
                |x: T, w: T, y: T| tensor::divided_times(x, rms, w, y),
                ys,
            )
        };
    let (sq, n, mean, s) = choose|sq: T, n: T, mean: T, s: T|
        {
            &&& arith::dot(xs, xs, sq)
            &&& #[trigger] arith::from_usize(m, xs.len() as usize, n)
            &&& #[trigger] arith::divided(sq, n, mean)
            &&& #[trigger] arith::added(mean, eps, s)
            &&& arith::sqrt(m, s, rms)
        };
    law_dot(m, v, xs, xs, sq);
    lemma_squares(v, xs);
    let (q, k, e) = (total(products(v, xs, xs)), xs.len() as real, v.of(eps));
    assert(v.of(n) == k && k > 0real);
    let sum = q / k + e;
    assert(sum > 0real) by (nonlinear_arith)
        requires
            sum == q / k + e,
            q >= 0real,
            k > 0real,
            e > 0real,
    ;
    let root = (v.sqrt)(sum);
    assert(v.of(rms) == root);
    assert(root > 0real) by (nonlinear_arith)
        requires
            root * root == sum,
            sum > 0real,
            root >= 0real,
    ;
    assert(tensor::divided_times(xs[i], rms, ws[i], ys[i]));
    let d = choose|d: T| #[trigger]
        arith::divided(xs[i], rms, d) && arith::multiplied(d, ws[i], ys[i]);
    let (x, w) = (v.of(xs[i]), v.of(ws[i]));
    assert((x / root) * w * root == x * w) by (nonlinear_arith)
        requires
            root > 0real,
    ;
}

/// A product with a sum in front.
pub proof fn lemma_plus_times(a: real, b: real, c: real)
    by (nonlinear_arith)
    ensures
        (a + b) * c == a * c + b * c,
{
}

/// A product with a difference in front.
pub proof fn lemma_minus_times(a: real, b: real, c: real)
    by (nonlinear_arith)
    ensures
        (a - b) * c == a * c - b * c,
{
}

/// A product with a sum behind.
pub proof fn lemma_times_plus(a: real, b: real, c: real)
    by (nonlinear_arith)
    ensures
        a * (b + c) == a * b + a * c,
{
}

/// A product with a difference behind.
pub proof fn lemma_times_minus(a: real, b: real, c: real)
    by (nonlinear_arith)
    ensures
        a * (b - c) == a * b - a * c,
{
}

/// Products of three.
pub proof fn lemma_times_times(a: real, b: real, c: real)
    by (nonlinear_arith)
    ensures
        (a * b) * c == a * (b * c),
{
}

/// Factors change places.
pub proof fn lemma_times_swap(a: real, b: real)
    by (nonlinear_arith)
    ensures
        a * b == b * a,
{
}

/// A quotient times its divisor.
pub proof fn lemma_quotient(a: real, p: real)
    by (nonlinear_arith)
    requires
        p > 0real,
    ensures
        (a / p) * p == a,
{
}

/// Equal products with one factor.
pub proof fn lemma_cancel(x: real, y: real, p: real)
    by (nonlinear_arith)
    requires
        p > 0real,
        x * p == y * p,
    ensures
        x == y,
{
}

/// The quotient of a sum.
pub proof fn lemma_quotient_sum(a: real, b: real, p: real)
    requires
        p > 0real,
    ensures
        (a + b) / p == a / p + b / p,
{
    lemma_quotient(a, p);
    lemma_quotient(b, p);
    lemma_quotient(a + b, p);
    lemma_plus_times(a / p, b / p, p);
    lemma_cancel((a + b) / p, a / p + b / p, p);
}

} // verus!
