//! Where arithmetic is a function, so is everything that is computed with it.
//!
//! Contracts name the values that a result may have. The laws here say that there is only one
//! such value, provided that no operation on elements has two.

use crate::arith::{self, Math, Scalar};
use crate::attention::{self, AttentionTrace, AttentionWeights};
use crate::cache::{KVCache, CONV_KERNEL};
use crate::config::ModelConfig;
use crate::elementwise;
use crate::feedforward::{self, FfnTrace, FfnWeights};
use crate::model::{self, ForwardTrace, Memory, Origin, RecurrentBlockTrace, TransformerTrace};
use crate::quant;
use crate::ranking;
use crate::recurrent::{self, GroupTrace, RecurrentTrace, RecurrentWeights};
use crate::rotary;
use crate::sampler::{self, CandidateTrace};
use crate::shape;
use crate::tensor::{self, Tensor};
use crate::weights;
use vstd::prelude::*;

verus! {

/// No operation on elements has two results for the same operands.
pub open spec fn functional<T: Scalar, M: Math<T>>(m: M) -> bool {
    &&& forall|r: T, s: T| #[trigger] arith::zero(r) && #[trigger] arith::zero(s) ==> r == s
    &&& forall|a: T, b: T, r: T, s: T| #[trigger]
        arith::added(a, b, r) && #[trigger] arith::added(a, b, s) ==> r == s
    &&& forall|a: T, b: T, r: T, s: T| #[trigger]
        arith::subtracted(a, b, r) && #[trigger] arith::subtracted(a, b, s) ==> r == s
    &&& forall|a: T, b: T, r: T, s: T| #[trigger]
        arith::multiplied(a, b, r) && #[trigger] arith::multiplied(a, b, s) ==> r == s
    &&& forall|a: T, b: T, r: T, s: T| #[trigger]
        arith::divided(a, b, r) && #[trigger] arith::divided(a, b, s) ==> r == s
    &&& forall|a: T, r: T, s: T| #[trigger]
        arith::negated(a, r) && #[trigger] arith::negated(a, s) ==> r == s
    &&& forall|a: T, b: T, r: bool, s: bool| #[trigger]
        arith::greater(a, b, r) && #[trigger] arith::greater(a, b, s) ==> r == s
    &&& forall|a: T, b: T, r: bool, s: bool| #[trigger]
        arith::at_least(a, b, r) && #[trigger] arith::at_least(a, b, s) ==> r == s
    &&& forall|n: u32, r: T, s: T| #[trigger]
        arith::from_bits(m, n, r) && #[trigger] arith::from_bits(m, n, s) ==> r == s
    &&& forall|n: u16, r: T, s: T| #[trigger]
        arith::from_half(m, n, r) && #[trigger] arith::from_half(m, n, s) ==> r == s
    &&& forall|n: i32, r: T, s: T| #[trigger]
        arith::from_int(m, n, r) && #[trigger] arith::from_int(m, n, s) ==> r == s
    &&& forall|n: usize, r: T, s: T| #[trigger]
        arith::from_usize(m, n, r) && #[trigger] arith::from_usize(m, n, s) ==> r == s
    &&& forall|r: T, s: T| #[trigger]
        arith::lowest(m, r) && #[trigger] arith::lowest(m, s) ==> r == s
    &&& forall|a: T, b: T, r: T, s: T| #[trigger]
        arith::larger(m, a, b, r) && #[trigger] arith::larger(m, a, b, s) ==> r == s
    &&& forall|a: T, r: T, s: T| #[trigger]
        arith::exp(m, a, r) && #[trigger] arith::exp(m, a, s) ==> r == s
    &&& forall|a: T, r: T, s: T| #[trigger]
        arith::ln(m, a, r) && #[trigger] arith::ln(m, a, s) ==> r == s
    &&& forall|a: T, r: T, s: T| #[trigger]
        arith::sqrt(m, a, r) && #[trigger] arith::sqrt(m, a, s) ==> r == s
    &&& forall|a: T, r: T, s: T| #[trigger]
        arith::sin(m, a, r) && #[trigger] arith::sin(m, a, s) ==> r == s
    &&& forall|a: T, r: T, s: T| #[trigger]
        arith::cos(m, a, r) && #[trigger] arith::cos(m, a, s) ==> r == s
    &&& forall|a: T, b: T, r: T, s: T| #[trigger]
        arith::pow(m, a, b, r) && #[trigger] arith::pow(m, a, b, s) ==> r == s
}

proof fn summed_once<T: Scalar, M: Math<T>>(m: M, xs: Seq<T>, r: T, s: T)
    requires
        functional::<T, M>(m),
        arith::summed(xs, r),
        arith::summed(xs, s),
    ensures
        r == s,
    decreases xs.len(),
{
    if xs.len() > 0 {
        let front = xs.drop_last();
        let a = choose|a: T| arith::summed(front, a) && #[trigger] arith::added(a, xs.last(), r);
        let b = choose|b: T| arith::summed(front, b) && #[trigger] arith::added(b, xs.last(), s);
        summed_once(m, front, a, b);
    }
}

proof fn dot_once<T: Scalar, M: Math<T>>(m: M, xs: Seq<T>, ys: Seq<T>, r: T, s: T)
    requires
        functional::<T, M>(m),
        arith::dot(xs, ys, r),
        arith::dot(xs, ys, s),
    ensures
        r == s,
    decreases xs.len(),
{
    if xs.len() > 0 {
        let (xf, yf) = (xs.drop_last(), ys.drop_last());
        let (a, p) = choose|a: T, p: T|
            {
                &&& arith::dot(xf, yf, a)
                &&& #[trigger] arith::multiplied(xs.last(), ys.last(), p)
                &&& #[trigger] arith::added(a, p, r)
            };
        let (b, q) = choose|b: T, q: T|
            {
                &&& arith::dot(xf, yf, b)
                &&& #[trigger] arith::multiplied(xs.last(), ys.last(), q)
                &&& #[trigger] arith::added(b, q, s)
            };
        dot_once(m, xf, yf, a, b);
    }
}

proof fn largest_once<T: Scalar, M: Math<T>>(m: M, xs: Seq<T>, r: T, s: T)
    requires
        functional::<T, M>(m),
        arith::largest(m, xs, r),
        arith::largest(m, xs, s),
    ensures
        r == s,
    decreases xs.len(),
{
    if xs.len() > 0 {
        let front = xs.drop_last();
        let a = choose|a: T|
            arith::largest(m, front, a) && #[trigger] arith::larger(m, a, xs.last(), r);
        let b = choose|b: T|
            arith::largest(m, front, b) && #[trigger] arith::larger(m, b, xs.last(), s);
        largest_once(m, front, a, b);
    }
}

/// Elements by a function of elements are determined.
proof fn each_once<T>(xs: Seq<T>, f: spec_fn(T, T) -> bool, ys: Seq<T>, zs: Seq<T>)
    requires
        elementwise::each(xs, f, ys),
        elementwise::each(xs, f, zs),
        forall|x: T, y: T, z: T| #[trigger] f(x, y) && #[trigger] f(x, z) ==> y == z,
    ensures
        ys == zs,
{
    assert forall|i: int| 0 <= i < ys.len() implies ys[i] == zs[i] by {
        assert(f(xs[i], ys[i]) && f(xs[i], zs[i]));
    }
    assert(ys =~= zs);
}

/// Elements by a function of pairs of elements are determined.
proof fn each_pair_once<T>(
    xs: Seq<T>,
    ws: Seq<T>,
    f: spec_fn(T, T, T) -> bool,
    ys: Seq<T>,
    zs: Seq<T>,
)
    requires
        elementwise::each_pair(xs, ws, f, ys),
        elementwise::each_pair(xs, ws, f, zs),
        forall|x: T, w: T, y: T, z: T| #[trigger] f(x, w, y) && #[trigger] f(x, w, z) ==> y == z,
    ensures
        ys == zs,
{
    assert forall|i: int| 0 <= i < ys.len() implies ys[i] == zs[i] by {
        assert(f(xs[i], ws[i], ys[i]) && f(xs[i], ws[i], zs[i]));
    }
    assert(ys =~= zs);
}

proof fn one_plus_exp_neg_once<T: Scalar, M: Math<T>>(m: M, x: T, r: T, s: T)
    requires
        functional::<T, M>(m),
        elementwise::one_plus_exp_neg(m, x, r),
        elementwise::one_plus_exp_neg(m, x, s),
    ensures
        r == s,
{
}

proof fn sigmoid_once<T: Scalar, M: Math<T>>(m: M, x: T, r: T, s: T)
    requires
        functional::<T, M>(m),
        elementwise::sigmoid(m, x, r),
        elementwise::sigmoid(m, x, s),
    ensures
        r == s,
{
    let (o, d) = choose|o: T, d: T|
        {
            &&& #[trigger] arith::from_usize(m, 1, o)
            &&& #[trigger] elementwise::one_plus_exp_neg(m, x, d)
            &&& arith::divided(o, d, r)
        };
    let (p, e) = choose|p: T, e: T|
        {
            &&& #[trigger] arith::from_usize(m, 1, p)
            &&& #[trigger] elementwise::one_plus_exp_neg(m, x, e)
            &&& arith::divided(p, e, s)
        };
    one_plus_exp_neg_once(m, x, d, e);
}

proof fn silu_once<T: Scalar, M: Math<T>>(m: M, x: T, r: T, s: T)
    requires
        functional::<T, M>(m),
        elementwise::silu(m, x, r),
        elementwise::silu(m, x, s),
    ensures
        r == s,
{
    let d = choose|d: T| #[trigger]
        elementwise::one_plus_exp_neg(m, x, d) && arith::divided(x, d, r);
    let e = choose|e: T| #[trigger]
        elementwise::one_plus_exp_neg(m, x, e) && arith::divided(x, e, s);
    one_plus_exp_neg_once(m, x, d, e);
}

proof fn ln_one_plus_exp_once<T: Scalar, M: Math<T>>(m: M, x: T, r: T, s: T)
    requires
        functional::<T, M>(m),
        elementwise::ln_one_plus_exp(m, x, r),
        elementwise::ln_one_plus_exp(m, x, s),
    ensures
        r == s,
{
}

proof fn softplus_once<T: Scalar, M: Math<T>>(m: M, x: T, r: T, s: T)
    requires
        functional::<T, M>(m),
        elementwise::softplus(m, x, r),
        elementwise::softplus(m, x, s),
    ensures
        r == s,
{
    if elementwise::ln_one_plus_exp(m, x, r) && elementwise::ln_one_plus_exp(m, x, s) {
        ln_one_plus_exp_once(m, x, r, s);
    }
}

proof fn silus_once<T: Scalar, M: Math<T>>(m: M, xs: Seq<T>, ys: Seq<T>, zs: Seq<T>)
    requires
        functional::<T, M>(m),
        elementwise::each(xs, |a: T, b: T| elementwise::silu(m, a, b), ys),
        elementwise::each(xs, |a: T, b: T| elementwise::silu(m, a, b), zs),
    ensures
        ys == zs,
{
    let f = |a: T, b: T| elementwise::silu(m, a, b);
    assert forall|x: T, y: T, z: T| #[trigger] f(x, y) && #[trigger] f(x, z) implies y == z by {
        silu_once(m, x, y, z);
    }
    each_once(xs, f, ys, zs);
}

proof fn applied_once<T: Scalar, M: Math<T>>(
    m: M,
    w: Seq<T>,
    rows: int,
    cols: int,
    x: Seq<T>,
    y: Seq<T>,
    z: Seq<T>,
)
    requires
        functional::<T, M>(m),
        tensor::applied(w, rows, cols, x, y),
        tensor::applied(w, rows, cols, x, z),
    ensures
        y == z,
{
    assert forall|i: int| 0 <= i < rows implies y[i] == z[i] by {
        dot_once(m, tensor::row(w, cols, i), x, y[i], z[i]);
    }
    assert(y =~= z);
}

proof fn root_mean_square_once<T: Scalar, M: Math<T>>(m: M, xs: Seq<T>, eps: T, r: T, s: T)
    requires
        functional::<T, M>(m),
        tensor::root_mean_square(m, xs, eps, r),
        tensor::root_mean_square(m, xs, eps, s),
    ensures
        r == s,
{
    let n = xs.len() as usize;
    let (a, b, c, d) = choose|a: T, b: T, c: T, d: T|
        {
            &&& arith::dot(xs, xs, a)
            &&& #[trigger] arith::from_usize(m, n, b)
            &&& #[trigger] arith::divided(a, b, c)
            &&& #[trigger] arith::added(c, eps, d)
            &&& arith::sqrt(m, d, r)
        };
    let (e, f, g, h) = choose|e: T, f: T, g: T, h: T|
        {
            &&& arith::dot(xs, xs, e)
            &&& #[trigger] arith::from_usize(m, n, f)
            &&& #[trigger] arith::divided(e, f, g)
            &&& #[trigger] arith::added(g, eps, h)
            &&& arith::sqrt(m, h, s)
        };
    dot_once(m, xs, xs, a, e);
}

proof fn rms_normed_once<T: Scalar, M: Math<T>>(
    m: M,
    xs: Seq<T>,
    ws: Seq<T>,
    eps: T,
    ys: Seq<T>,
    zs: Seq<T>,
)
    requires
        functional::<T, M>(m),
        tensor::rms_normed(m, xs, ws, eps, ys),
        tensor::rms_normed(m, xs, ws, eps, zs),
    ensures
        ys == zs,
{
    let r = choose|r: T|
        {
            &&& #[trigger] tensor::root_mean_square(m, xs, eps, r)
            &&& elementwise::each_pair(
                xs,
                ws,
                |x: T, w: T, y: T| tensor::divided_times(x, r, w, y),
                ys,
            )
        };
    let s = choose|s: T|
        {
            &&& #[trigger] tensor::root_mean_square(m, xs, eps, s)
            &&& elementwise::each_pair(
                xs,
                ws,
                |x: T, w: T, y: T| tensor::divided_times(x, s, w, y),
                zs,
            )
        };
    root_mean_square_once(m, xs, eps, r, s);
    each_pair_once(xs, ws, |x: T, w: T, y: T| tensor::divided_times(x, r, w, y), ys, zs);
}

/// The softmax of elements has one value.
pub proof fn law_softmax_once<T: Scalar, M: Math<T>>(m: M, xs: Seq<T>, ys: Seq<T>, zs: Seq<T>)
    requires
        functional::<T, M>(m),
        tensor::softmaxed(m, xs, ys),
        tensor::softmaxed(m, xs, zs),
    ensures
        ys == zs,
{
    let (a, es, s) = choose|a: T, es: Seq<T>, s: T|
        {
            &&& #[trigger] arith::largest(m, xs, a)
            &&& elementwise::each(xs, |x: T, e: T| tensor::shifted_exp(m, x, a, e), es)
            &&& #[trigger] arith::summed(es, s)
            &&& elementwise::each(es, |e: T, y: T| arith::divided(e, s, y), ys)
        };
    let (b, fs, t) = choose|b: T, fs: Seq<T>, t: T|
        {
            &&& #[trigger] arith::largest(m, xs, b)
            &&& elementwise::each(xs, |x: T, e: T| tensor::shifted_exp(m, x, b, e), fs)
            &&& #[trigger] arith::summed(fs, t)
            &&& elementwise::each(fs, |e: T, y: T| arith::divided(e, t, y), zs)
        };
    largest_once(m, xs, a, b);
    each_once(xs, |x: T, e: T| tensor::shifted_exp(m, x, a, e), es, fs);
    summed_once(m, es, s, t);
    each_once(es, |e: T, y: T| arith::divided(e, s, y), ys, zs);
}

proof fn normed_once<T: Scalar, M: Math<T>>(
    m: M,
    eps: u32,
    xs: Seq<T>,
    ws: Seq<T>,
    ys: Seq<T>,
    zs: Seq<T>,
)
    requires
        functional::<T, M>(m),
        attention::normed(m, eps, xs, ws, ys),
        attention::normed(m, eps, xs, ws, zs),
    ensures
        ys == zs,
{
    let d = choose|d: T| #[trigger]
        arith::from_bits(m, eps, d) && tensor::rms_normed(m, xs, ws, d, ys);
    let e = choose|e: T| #[trigger]
        arith::from_bits(m, eps, e) && tensor::rms_normed(m, xs, ws, e, zs);
    rms_normed_once(m, xs, ws, d, ys, zs);
}

/// Matrices with the same rows are the same.
proof fn lemma_same_rows<T>(a: Seq<T>, b: Seq<T>, rows: int, cols: int)
    requires
        rows >= 0,
        cols >= 0,
        a.len() == rows * cols,
        b.len() == rows * cols,
        forall|i: int|
            0 <= i < rows ==> #[trigger] tensor::row(a, cols, i) == tensor::row(b, cols, i),
    ensures
        a == b,
{
    assert forall|e: int| 0 <= e < a.len() implies a[e] == b[e] by {
        shape::lemma_uncell(e, rows, cols);
        let (i, j) = (e / cols, e % cols);
        shape::lemma_cell(i, j, rows, cols);
        assert(tensor::row(a, cols, i)[j] == a[i * cols + j]);
        assert(tensor::row(b, cols, i)[j] == b[i * cols + j]);
        assert(tensor::row(a, cols, i) == tensor::row(b, cols, i));
    }
    assert(a =~= b);
}

proof fn heads_normed_once<T: Scalar, M: Math<T>>(
    m: M,
    eps: u32,
    xs: Seq<T>,
    stride: int,
    dim: int,
    count: int,
    ws: Seq<T>,
    a: Seq<T>,
    b: Seq<T>,
)
    requires
        functional::<T, M>(m),
        dim >= 0,
        count >= 0,
        attention::heads_normed(m, eps, xs, stride, dim, count, ws, a),
        attention::heads_normed(m, eps, xs, stride, dim, count, ws, b),
    ensures
        a == b,
{
    assert forall|h: int| 0 <= h < count implies #[trigger] tensor::row(a, dim, h) == tensor::row(
        b,
        dim,
        h,
    ) by {
        normed_once(
            m,
            eps,
            xs.subrange(h * stride, h * stride + dim),
            ws,
            tensor::row(a, dim, h),
            tensor::row(b, dim, h),
        );
    }
    lemma_same_rows(a, b, count, dim);
}

proof fn angle_once<T: Scalar, M: Math<T>>(
    m: M,
    theta: u32,
    dim: usize,
    pos: usize,
    i: int,
    r: T,
    s: T,
)
    requires
        functional::<T, M>(m),
        rotary::angle(m, theta, dim, pos, i, r),
        rotary::angle(m, theta, dim, pos, i, s),
    ensures
        r == s,
{
}

proof fn turns_once<T: Scalar, M: Math<T>>(
    m: M,
    config: ModelConfig,
    pos: usize,
    c: Seq<T>,
    s: Seq<T>,
    d: Seq<T>,
    t: Seq<T>,
)
    requires
        functional::<T, M>(m),
        rotary::turns(m, config, pos, c, s),
        rotary::turns(m, config, pos, d, t),
    ensures
        c == d,
        s == t,
{
    assert forall|i: int| 0 <= i < c.len() implies c[i] == d[i] && s[i] == t[i] by {
        assert(rotary::turn(m, config, pos, i, c[i], s[i]));
        assert(rotary::turn(m, config, pos, i, d[i], t[i]));
        let (theta, dim) = (config.rope_theta, config.rope_dim);
        let a = choose|a: T|
            {
                &&& #[trigger] rotary::angle(m, theta, dim, pos, i, a)
                &&& arith::cos(m, a, c[i])
                &&& arith::sin(m, a, s[i])
            };
        let b = choose|b: T|
            {
                &&& #[trigger] rotary::angle(m, theta, dim, pos, i, b)
                &&& arith::cos(m, b, d[i])
                &&& arith::sin(m, b, t[i])
            };
        angle_once(m, theta, dim, pos, i, a, b);
    }
    assert(c =~= d && s =~= t);
}

proof fn turned_once<T: Scalar, M: Math<T>>(
    m: M,
    cos: Seq<T>,
    sin: Seq<T>,
    elems: Seq<T>,
    width: int,
    heads: int,
    a: Seq<T>,
    b: Seq<T>,
)
    requires
        functional::<T, M>(m),
        rotary::turned(cos, sin, elems, width, heads, a),
        rotary::turned(cos, sin, elems, width, heads, b),
    ensures
        a == b,
{
    assert forall|e: int| 0 <= e < a.len() implies a[e] == b[e] by {
        assert(rotary::turned_at(cos, sin, elems, width, heads, e, a[e]));
        assert(rotary::turned_at(cos, sin, elems, width, heads, e, b[e]));
    }
    assert(a =~= b);
}

/// Turned queries and keys have one value.
pub proof fn law_rope_once<T: Scalar, M: Math<T>>(
    m: M,
    config: ModelConfig,
    pos: usize,
    q: Seq<T>,
    q_width: int,
    q1: Seq<T>,
    q2: Seq<T>,
    k: Seq<T>,
    k_width: int,
    k1: Seq<T>,
    k2: Seq<T>,
)
    requires
        functional::<T, M>(m),
        rotary::roped(m, config, pos, q, q_width, q1, k, k_width, k1),
        rotary::roped(m, config, pos, q, q_width, q2, k, k_width, k2),
    ensures
        q1 == q2,
        k1 == k2,
{
    let (n, l) = (config.n_heads as int, config.n_kv_heads as int);
    let (c, s) = choose|c: Seq<T>, s: Seq<T>|
        {
            &&& #[trigger] rotary::turns(m, config, pos, c, s)
            &&& rotary::turned(c, s, q, q_width, n, q1)
            &&& rotary::turned(c, s, k, k_width, l, k1)
        };
    let (d, t) = choose|d: Seq<T>, t: Seq<T>|
        {
            &&& #[trigger] rotary::turns(m, config, pos, d, t)
            &&& rotary::turned(d, t, q, q_width, n, q2)
            &&& rotary::turned(d, t, k, k_width, l, k2)
        };
    turns_once(m, config, pos, c, s, d, t);
    turned_once(m, c, s, q, q_width, n, q1, q2);
    turned_once(m, c, s, k, k_width, l, k1, k2);
}

proof fn scored_once<T: Scalar, M: Math<T>>(m: M, q: Seq<T>, k: Seq<T>, dim: usize, r: T, s: T)
    requires
        functional::<T, M>(m),
        attention::scored(m, q, k, dim, r),
        attention::scored(m, q, k, dim, s),
    ensures
        r == s,
{
    let (d, n, u) = choose|d: T, n: T, u: T|
        {
            &&& arith::dot(q, k, d)
            &&& #[trigger] arith::from_usize(m, dim, n)
            &&& #[trigger] arith::sqrt(m, n, u)
            &&& #[trigger] arith::divided(d, u, r)
        };
    let (e, o, v) = choose|e: T, o: T, v: T|
        {
            &&& arith::dot(q, k, e)
            &&& #[trigger] arith::from_usize(m, dim, o)
            &&& #[trigger] arith::sqrt(m, o, v)
            &&& #[trigger] arith::divided(e, v, s)
        };
    dot_once(m, q, k, d, e);
}

proof fn head_attended_once<T: Scalar, M: Math<T>>(
    m: M,
    dim: usize,
    q: Seq<T>,
    keys: Seq<Seq<T>>,
    values: Seq<Seq<T>>,
    head: int,
    a: Seq<T>,
    b: Seq<T>,
)
    requires
        functional::<T, M>(m),
        attention::head_attended(m, dim, q, keys, values, head, a),
        attention::head_attended(m, dim, q, keys, values, head, b),
    ensures
        a == b,
{
    let (s, w) = choose|s: Seq<T>, w: Seq<T>|
        {
            &&& #[trigger] attention::all_scored(m, dim, q, keys, head, s)
            &&& #[trigger] tensor::softmaxed(m, s, w)
            &&& a.len() == dim
            &&& forall|d: int|
                0 <= d < dim ==> arith::dot(
                    w,
                    attention::value_column(values, dim as int, head, d),
                    #[trigger] a[d],
                )
        };
    let (t, x) = choose|t: Seq<T>, x: Seq<T>|
        {
            &&& #[trigger] attention::all_scored(m, dim, q, keys, head, t)
            &&& #[trigger] tensor::softmaxed(m, t, x)
            &&& b.len() == dim
            &&& forall|d: int|
                0 <= d < dim ==> arith::dot(
                    x,
                    attention::value_column(values, dim as int, head, d),
                    #[trigger] b[d],
                )
        };
    assert forall|i: int| 0 <= i < s.len() implies s[i] == t[i] by {
        scored_once(m, q, tensor::row(keys[i], dim as int, head), dim, s[i], t[i]);
    }
    assert(s =~= t);
    law_softmax_once(m, s, w, x);
    assert forall|d: int| 0 <= d < dim implies a[d] == b[d] by {
        dot_once(m, w, attention::value_column(values, dim as int, head, d), a[d], b[d]);
    }
    assert(a =~= b);
}

/// Weights with the same elements and dimensions.
pub open spec fn same_tensor<T>(a: Tensor<T>, b: Tensor<T>) -> bool {
    &&& a.elems() == b.elems()
    &&& a.dims() == b.dims()
}

/// Weights of attention with the same elements and dimensions.
pub open spec fn same_attention<T>(a: AttentionWeights<T>, b: AttentionWeights<T>) -> bool {
    &&& same_tensor(a.q, b.q)
    &&& same_tensor(a.k, b.k)
    &&& same_tensor(a.v, b.v)
    &&& same_tensor(a.out, b.out)
    &&& same_tensor(a.q_norm, b.q_norm)
    &&& same_tensor(a.k_norm, b.k_norm)
}

proof fn positioned_once<T: Scalar, M: Math<T>>(
    m: M,
    config: ModelConfig,
    w1: AttentionWeights<T>,
    w2: AttentionWeights<T>,
    x: Seq<T>,
    pos: usize,
    t1: AttentionTrace<T>,
    t2: AttentionTrace<T>,
)
    requires
        functional::<T, M>(m),
        same_attention(w1, w2),
        attention::projected(w1, x, t1),
        attention::projected(w2, x, t2),
        attention::positioned(m, config, w1, pos, t1),
        attention::positioned(m, config, w2, pos, t2),
    ensures
        t1.q_proj == t2.q_proj,
        t1.v_proj == t2.v_proj,
        t1.q_rot == t2.q_rot,
        t1.k_rot == t2.k_rot,
{
    let (n, dim, eps) = (x.len() as int, config.head_dim as int, config.rms_eps);
    let (heads, kv_heads) = (config.n_heads as int, config.n_kv_heads as int);
    applied_once(m, w1.q.elems(), w1.q.dims()[0] as int, n, x, t1.q_proj, t2.q_proj);
    applied_once(m, w1.k.elems(), w1.k.dims()[0] as int, n, x, t1.k_proj, t2.k_proj);
    applied_once(m, w1.v.elems(), w1.v.dims()[0] as int, n, x, t1.v_proj, t2.v_proj);
    heads_normed_once(
        m,
        eps,
        t1.q_proj,
        2 * dim,
        dim,
        heads,
        w1.q_norm.elems(),
        t1.q_heads,
        t2.q_heads,
    );
    heads_normed_once(
        m,
        eps,
        t1.k_proj,
        dim,
        dim,
        kv_heads,
        w1.k_norm.elems(),
        t1.k_heads,
        t2.k_heads,
    );
    law_rope_once(
        m,
        config,
        pos,
        t1.q_heads,
        dim,
        t1.q_rot,
        t2.q_rot,
        t1.k_heads,
        dim,
        t1.k_rot,
        t2.k_rot,
    );
}

proof fn heads_attended_once<T: Scalar, M: Math<T>>(
    m: M,
    config: ModelConfig,
    q: Seq<T>,
    keys: Seq<Seq<T>>,
    values: Seq<Seq<T>>,
    a: Seq<T>,
    b: Seq<T>,
)
    requires
        functional::<T, M>(m),
        attention::heads_attended(m, config, q, keys, values, a),
        attention::heads_attended(m, config, q, keys, values, b),
    ensures
        a == b,
{
    let dim = config.head_dim as int;
    let group = config.n_heads as int / config.n_kv_heads as int;
    assert forall|h: int| 0 <= h < config.n_heads implies #[trigger] tensor::row(a, dim, h)
        == tensor::row(b, dim, h) by {
        let (ra, rb) = (tensor::row(a, dim, h), tensor::row(b, dim, h));
        head_attended_once(
            m,
            config.head_dim,
            tensor::row(q, dim, h),
            keys,
            values,
            h / group,
            ra,
            rb,
        );
    }
    lemma_same_rows(a, b, config.n_heads as int, dim);
}

proof fn gated_once<T: Scalar, M: Math<T>>(
    m: M,
    xs: Seq<T>,
    gs: Seq<T>,
    ys: Seq<T>,
    zs: Seq<T>,
)
    requires
        functional::<T, M>(m),
        elementwise::each_pair(xs, gs, |c: T, g: T, r: T| attention::gated(m, c, g, r), ys),
        elementwise::each_pair(xs, gs, |c: T, g: T, r: T| attention::gated(m, c, g, r), zs),
    ensures
        ys == zs,
{
    let f = |c: T, g: T, r: T| attention::gated(m, c, g, r);
    assert forall|c: T, g: T, y: T, z: T| #[trigger] f(c, g, y) && #[trigger] f(c, g, z) implies y
        == z by {
        let s = choose|s: T| #[trigger]
            elementwise::sigmoid(m, g, s) && arith::multiplied(c, s, y);
        let t = choose|t: T| #[trigger]
            elementwise::sigmoid(m, g, t) && arith::multiplied(c, t, z);
        sigmoid_once(m, g, s, t);
    }
    each_pair_once(xs, gs, f, ys, zs);
}

/// The output of attention at a position has one value, and so have the keys and values after
/// it.
pub proof fn law_attention_once<T: Scalar, M: Math<T>>(
    m: M,
    config: ModelConfig,
    w1: AttentionWeights<T>,
    w2: AttentionWeights<T>,
    x: Seq<T>,
    pos: usize,
    keys: Seq<Seq<T>>,
    values: Seq<Seq<T>>,
    keys1: Seq<Seq<T>>,
    values1: Seq<Seq<T>>,
    y1: Seq<T>,
    keys2: Seq<Seq<T>>,
    values2: Seq<Seq<T>>,
    y2: Seq<T>,
)
    requires
        functional::<T, M>(m),
        same_attention(w1, w2),
        attention::attended(m, config, w1, x, pos, keys, values, keys1, values1, y1),
        attention::attended(m, config, w2, x, pos, keys, values, keys2, values2, y2),
    ensures
        keys1 == keys2,
        values1 == values2,
        y1 == y2,
{
    let t1 = choose|t: AttentionTrace<T>| #[trigger]
        attention::attention_run(m, config, w1, x, pos, keys, values, keys1, values1, y1, t);
    let t2 = choose|t: AttentionTrace<T>| #[trigger]
        attention::attention_run(m, config, w2, x, pos, keys, values, keys2, values2, y2, t);
    positioned_once(m, config, w1, w2, x, pos, t1, t2);
    heads_attended_once(
        m,
        config,
        t1.q_rot,
        keys1.take(pos + 1),
        values1.take(pos + 1),
        t1.heads,
        t2.heads,
    );
    let (heads, dim) = (config.n_heads as int, config.head_dim as int);
    gated_once(
        m,
        t1.heads,
        attention::gates(t1.q_proj, dim, heads),
        t1.gated,
        t2.gated,
    );
    applied_once(
        m,
        w1.out.elems(),
        w1.out.dims()[0] as int,
        heads * dim,
        t1.gated,
        y1,
        y2,
    );
}

proof fn log_decay_once<T: Scalar, M: Math<T>>(m: M, a: T, alpha: T, dt: T, r: T, s: T)
    requires
        functional::<T, M>(m),
        recurrent::log_decay(m, a, alpha, dt, r),
        recurrent::log_decay(m, a, alpha, dt, s),
    ensures
        r == s,
{
    let (t, u, e, p, n) = choose|t: T, u: T, e: T, p: T, n: T|
        {
            &&& #[trigger] arith::added(alpha, dt, t)
            &&& #[trigger] elementwise::softplus(m, t, u)
            &&& #[trigger] arith::exp(m, a, e)
            &&& #[trigger] arith::multiplied(e, u, p)
            &&& #[trigger] arith::from_int(m, -1i32, n)
            &&& arith::multiplied(p, n, r)
        };
    let (t2, u2, e2, p2, n2) = choose|t2: T, u2: T, e2: T, p2: T, n2: T|
        {
            &&& #[trigger] arith::added(alpha, dt, t2)
            &&& #[trigger] elementwise::softplus(m, t2, u2)
            &&& #[trigger] arith::exp(m, a, e2)
            &&& #[trigger] arith::multiplied(e2, u2, p2)
            &&& #[trigger] arith::from_int(m, -1i32, n2)
            &&& arith::multiplied(p2, n2, s)
        };
    softplus_once(m, t, u, u2);
}

/// Weights of a recurrent block with the same elements and dimensions.
pub open spec fn same_recurrent<T>(a: RecurrentWeights<T>, b: RecurrentWeights<T>) -> bool {
    &&& same_tensor(a.qkv, b.qkv)
    &&& same_tensor(a.gate, b.gate)
    &&& same_tensor(a.conv, b.conv)
    &&& same_tensor(a.a, b.a)
    &&& same_tensor(a.alpha, b.alpha)
    &&& same_tensor(a.beta, b.beta)
    &&& same_tensor(a.dt, b.dt)
    &&& same_tensor(a.norm, b.norm)
    &&& same_tensor(a.out, b.out)
}

proof fn recurrent_inputs_once<T: Scalar, M: Math<T>>(
    m: M,
    w1: RecurrentWeights<T>,
    w2: RecurrentWeights<T>,
    x: Seq<T>,
    t1: RecurrentTrace<T>,
    t2: RecurrentTrace<T>,
)
    requires
        functional::<T, M>(m),
        same_recurrent(w1, w2),
        recurrent::recurrent_inputs(m, w1, x, t1),
        recurrent::recurrent_inputs(m, w2, x, t2),
    ensures
        t1.qkv == t2.qkv,
        t1.g == t2.g,
        t1.beta == t2.beta,
        t1.z_silu == t2.z_silu,
{
    let n = x.len() as int;
    applied_once(m, w1.qkv.elems(), w1.qkv.dims()[0] as int, n, x, t1.qkv, t2.qkv);
    applied_once(m, w1.gate.elems(), w1.gate.dims()[0] as int, n, x, t1.z, t2.z);
    applied_once(m, w1.alpha.elems(), w1.alpha.dims()[0] as int, n, x, t1.alpha, t2.alpha);
    applied_once(m, w1.beta.elems(), w1.beta.dims()[0] as int, n, x, t1.beta_proj, t2.beta_proj);
    assert forall|i: int| 0 <= i < t1.g.len() implies t1.g[i] == t2.g[i] by {
        log_decay_once(
            m,
            w1.a.elems()[i],
            t1.alpha[i],
            w1.dt.elems()[i],
            t1.g[i],
            t2.g[i],
        );
    }
    assert(t1.g =~= t2.g);
    let f = |a: T, b: T| elementwise::sigmoid(m, a, b);
    assert forall|a: T, y: T, z: T| #[trigger] f(a, y) && #[trigger] f(a, z) implies y == z by {
        sigmoid_once(m, a, y, z);
    }
    each_once(t1.beta_proj, f, t1.beta, t2.beta);
    silus_once(m, t1.z, t1.z_silu, t2.z_silu);
}

proof fn group_stepped_once<T: Scalar, M: Math<T>>(
    m: M,
    size: int,
    state: Seq<T>,
    q: Seq<T>,
    k: Seq<T>,
    v: Seq<T>,
    g: T,
    beta: T,
    s1: Seq<T>,
    o1: Seq<T>,
    s2: Seq<T>,
    o2: Seq<T>,
)
    requires
        functional::<T, M>(m),
        recurrent::group_stepped(m, size, state, q, k, v, g, beta, s1, o1),
        recurrent::group_stepped(m, size, state, q, k, v, g, beta, s2, o2),
    ensures
        s1 == s2,
        o1 == o2,
{
    let t1 = choose|t: GroupTrace<T>| #[trigger]
        recurrent::group_run(m, size, state, q, k, v, g, beta, s1, o1, t);
    let t2 = choose|t: GroupTrace<T>| #[trigger]
        recurrent::group_run(m, size, state, q, k, v, g, beta, s2, o2, t);
    assert(t1.decay == t2.decay);
    each_once(
        state,
        |x: T, y: T| arith::multiplied(x, t1.decay, y),
        t1.faded,
        t2.faded,
    );
    applied_once(m, t1.faded, size, size, k, t1.predicted, t2.predicted);
    each_pair_once(
        v,
        t1.predicted,
        |a: T, b: T, c: T| arith::subtracted(a, b, c),
        t1.delta,
        t2.delta,
    );
    outer_once(m, t1.delta, k, t1.outer, t2.outer);
    each_once(
        t1.outer,
        |x: T, y: T| arith::multiplied(x, beta, y),
        t1.correction,
        t2.correction,
    );
    each_pair_once(
        t1.faded,
        t1.correction,
        |a: T, b: T, c: T| arith::added(a, b, c),
        s1,
        s2,
    );
    applied_once(m, s1, size, size, q, o1, o2);
}

proof fn outer_once<T: Scalar, M: Math<T>>(
    m: M,
    a: Seq<T>,
    b: Seq<T>,
    y: Seq<T>,
    z: Seq<T>,
)
    requires
        functional::<T, M>(m),
        recurrent::outer_product(a, b, y),
        recurrent::outer_product(a, b, z),
    ensures
        y == z,
{
    let (rows, cols) = (a.len() as int, b.len() as int);
    assert forall|e: int| 0 <= e < y.len() implies y[e] == z[e] by {
        shape::lemma_uncell(e, rows, cols);
        let (i, j) = (e / cols, e % cols);
        assert(arith::multiplied(a[i], b[j], y[i * b.len() + j]));
        assert(arith::multiplied(a[i], b[j], z[i * b.len() + j]));
    }
    assert(y =~= z);
}

/// The output of a recurrent block has one value, and so have the states and inputs after it.
pub proof fn law_recurrence_once<T: Scalar, M: Math<T>>(
    m: M,
    config: ModelConfig,
    w1: RecurrentWeights<T>,
    w2: RecurrentWeights<T>,
    x: Seq<T>,
    states: Seq<Seq<T>>,
    history: Seq<Seq<T>>,
    states1: Seq<Seq<T>>,
    history1: Seq<Seq<T>>,
    y1: Seq<T>,
    states2: Seq<Seq<T>>,
    history2: Seq<Seq<T>>,
    y2: Seq<T>,
)
    requires
        functional::<T, M>(m),
        same_recurrent(w1, w2),
        recurrent::recurred(m, config, w1, x, states, history, states1, history1, y1),
        recurrent::recurred(m, config, w2, x, states, history, states2, history2, y2),
    ensures
        states1 == states2,
        history1 == history2,
        y1 == y2,
{
    let t1 = choose|t: RecurrentTrace<T>| #[trigger]
        recurrent::recurrent_run(m, config, w1, x, states, history, states1, history1, y1, t);
    let t2 = choose|t: RecurrentTrace<T>| #[trigger]
        recurrent::recurrent_run(m, config, w2, x, states, history, states2, history2, y2, t);
    let (groups, size) = (config.ssm_group_count as int, config.ssm_state_size as int);
    let dim = groups * size;
    recurrent_inputs_once(m, w1, w2, x, t1, t2);
    let inputs = history.push(t1.qkv.take(3 * dim));
    assert forall|c: int| 0 <= c < 3 * dim implies t1.conv[c] == t2.conv[c] by {
        let row = tensor::row(w1.conv.elems(), CONV_KERNEL as int, c);
        dot_once(m, row, recurrent::channel(inputs, c), t1.conv[c], t2.conv[c]);
    }
    assert(t1.conv =~= t2.conv);
    silus_once(m, t1.conv, t1.mixed, t2.mixed);
    let (q, k, v) = (
        t1.mixed.subrange(0, dim),
        t1.mixed.subrange(dim, 2 * dim),
        t1.mixed.subrange(2 * dim, 3 * dim),
    );
    assert forall|i: int| 0 <= i < groups implies states1[i] == states2[i] && #[trigger] tensor::row(
        t1.output,
        size,
        i,
    ) == tensor::row(t2.output, size, i) by {
        let (r1, r2) = (tensor::row(t1.output, size, i), tensor::row(t2.output, size, i));
        group_stepped_once(
            m,
            size,
            states[i],
            tensor::row(q, size, i),
            tensor::row(k, size, i),
            tensor::row(v, size, i),
            t1.g[i],
            t1.beta[i],
            states1[i],
            r1,
            states2[i],
            r2,
        );
    }
    lemma_same_rows(t1.output, t2.output, groups, size);
    assert forall|i: int| 0 <= i < groups implies states1[i] == states2[i] by {
        assert(tensor::row(t1.output, size, i) == tensor::row(t2.output, size, i));
    }
    assert(states1 =~= states2);
    heads_normed_once(
        m,
        config.rms_eps,
        t1.output,
        size,
        size,
        groups,
        w1.norm.elems(),
        t1.normed,
        t2.normed,
    );
    each_pair_once(
        t1.normed,
        t1.z_silu,
        |a: T, b: T, c: T| arith::multiplied(a, b, c),
        t1.gated,
        t2.gated,
    );
    applied_once(m, w1.out.elems(), w1.out.dims()[0] as int, dim, t1.gated, y1, y2);
}

proof fn times_int_once<T: Scalar, M: Math<T>>(m: M, d: T, n: int, r: T, s: T)
    requires
        functional::<T, M>(m),
        quant::times_int(m, d, n, r),
        quant::times_int(m, d, n, s),
    ensures
        r == s,
{
}

proof fn scaled_once<T: Scalar, M: Math<T>>(
    m: M,
    b: Seq<u8>,
    pos: int,
    scale: int,
    q: int,
    r: T,
    s: T,
)
    requires
        functional::<T, M>(m),
        quant::scaled(m, b, pos, scale, q, r),
        quant::scaled(m, b, pos, scale, q, s),
    ensures
        r == s,
{
    let (d, e) = choose|d: T, e: T|
        {
            &&& #[trigger] quant::half_in(m, b, pos, d)
            &&& #[trigger] quant::times_int(m, d, scale, e)
            &&& quant::times_int(m, e, q, r)
        };
    let (f, g) = choose|f: T, g: T|
        {
            &&& #[trigger] quant::half_in(m, b, pos, f)
            &&& #[trigger] quant::times_int(m, f, scale, g)
            &&& quant::times_int(m, g, q, s)
        };
    times_int_once(m, d, scale, e, g);
    times_int_once(m, e, q, r, s);
}

proof fn affine_once<T: Scalar, M: Math<T>>(
    m: M,
    b: Seq<u8>,
    scale: int,
    min: int,
    q: int,
    r: T,
    s: T,
)
    requires
        functional::<T, M>(m),
        quant::affine(m, b, scale, min, q, r),
        quant::affine(m, b, scale, min, q, s),
    ensures
        r == s,
{
    let (d, e, f) = choose|d: T, e: T, f: T|
        {
            &&& #[trigger] quant::scaled(m, b, 0, scale, q, d)
            &&& #[trigger] quant::half_in(m, b, 2, e)
            &&& #[trigger] quant::times_int(m, e, min, f)
            &&& arith::subtracted(d, f, r)
        };
    let (g, h, i) = choose|g: T, h: T, i: T|
        {
            &&& #[trigger] quant::scaled(m, b, 0, scale, q, g)
            &&& #[trigger] quant::half_in(m, b, 2, h)
            &&& #[trigger] quant::times_int(m, h, min, i)
            &&& arith::subtracted(g, i, s)
        };
    scaled_once(m, b, 0, scale, q, d, g);
    times_int_once(m, e, min, f, i);
}

/// An element of an encoded tensor has one value.
pub proof fn law_element_once<T: Scalar, M: Math<T>>(
    m: M,
    ggml_type: u32,
    b: Seq<u8>,
    i: int,
    r: T,
    s: T,
)
    requires
        functional::<T, M>(m),
        weights::element(m, ggml_type, b, i, r),
        weights::element(m, ggml_type, b, i, s),
    ensures
        r == s,
{
    let e = i % 256;
    if ggml_type == 12 {
        let k = quant::block(b, 144, i / 256);
        let (scale, min) = (quant::k_scale(k, e / 32), quant::k_min(k, e / 32));
        affine_once(m, k, scale, min, quant::q4_k_quant(k, e), r, s);
    } else if ggml_type == 13 {
        let k = quant::block(b, 176, i / 256);
        let (scale, min) = (quant::k_scale(k, e / 32), quant::k_min(k, e / 32));
        affine_once(m, k, scale, min, quant::q5_k_quant(k, e), r, s);
    } else if ggml_type == 14 {
        let k = quant::block(b, 210, i / 256);
        scaled_once(m, k, 208, quant::q6_k_scale(k, e), quant::q6_k_quant(k, e), r, s);
    } else if ggml_type == 23 {
        let k = quant::block(b, 136, i / 256);
        let (scale, q) = (quant::iq4_xs_scale(k, e / 32), quant::iq4_xs_level(k, e));
        scaled_once(m, k, 0, scale, q, r, s);
    }
}

/// Q8_0 blocks behind Q8_0 blocks decode to what the first ones do, and behind it what the others
/// do.
pub proof fn law_q8_0_concat<T: Scalar, M: Math<T>>(
    m: M,
    a: Seq<u8>,
    b: Seq<u8>,
    x: Seq<T>,
    y: Seq<T>,
    z: Seq<T>,
)
    requires
        functional::<T, M>(m),
        a.len() % 34 == 0,
        b.len() % 34 == 0,
        quant::q8_0_decoded(m, a, x),
        quant::q8_0_decoded(m, b, y),
        quant::q8_0_decoded(m, a + b, z),
    ensures
        z == x + y,
{
    quant::law_q8_0_apart(m, a, b, x, y);
    assert forall|i: int| 0 <= i < z.len() implies z[i] == (x + y)[i] by {
        law_element_once(m, 8, a + b, i, z[i], (x + y)[i]);
    }
    assert(z =~= x + y);
}

/// Q4_K blocks behind Q4_K blocks decode to what the first ones do, and behind it what the others
/// do.
pub proof fn law_q4_k_concat<T: Scalar, M: Math<T>>(
    m: M,
    a: Seq<u8>,
    b: Seq<u8>,
    x: Seq<T>,
    y: Seq<T>,
    z: Seq<T>,
)
    requires
        functional::<T, M>(m),
        a.len() % 144 == 0,
        b.len() % 144 == 0,
        quant::q4_k_decoded(m, a, x),
        quant::q4_k_decoded(m, b, y),
        quant::q4_k_decoded(m, a + b, z),
    ensures
        z == x + y,
{
    quant::law_q4_k_apart(m, a, b, x, y);
    assert forall|i: int| 0 <= i < z.len() implies z[i] == (x + y)[i] by {
        law_element_once(m, 12, a + b, i, z[i], (x + y)[i]);
    }
    assert(z =~= x + y);
}

/// Q5_K blocks behind Q5_K blocks decode to what the first ones do, and behind it what the others
/// do.
pub proof fn law_q5_k_concat<T: Scalar, M: Math<T>>(
    m: M,
    a: Seq<u8>,
    b: Seq<u8>,
    x: Seq<T>,
    y: Seq<T>,
    z: Seq<T>,
)
    requires
        functional::<T, M>(m),
        a.len() % 176 == 0,
        b.len() % 176 == 0,
        quant::q5_k_decoded(m, a, x),
        quant::q5_k_decoded(m, b, y),
        quant::q5_k_decoded(m, a + b, z),
    ensures
        z == x + y,
{
    quant::law_q5_k_apart(m, a, b, x, y);
    assert forall|i: int| 0 <= i < z.len() implies z[i] == (x + y)[i] by {
        law_element_once(m, 13, a + b, i, z[i], (x + y)[i]);
    }
    assert(z =~= x + y);
}

/// Q6_K blocks behind Q6_K blocks decode to what the first ones do, and behind it what the others
/// do.
pub proof fn law_q6_k_concat<T: Scalar, M: Math<T>>(
    m: M,
    a: Seq<u8>,
    b: Seq<u8>,
    x: Seq<T>,
    y: Seq<T>,
    z: Seq<T>,
)
    requires
        functional::<T, M>(m),
        a.len() % 210 == 0,
        b.len() % 210 == 0,
        quant::q6_k_decoded(m, a, x),
        quant::q6_k_decoded(m, b, y),
        quant::q6_k_decoded(m, a + b, z),
    ensures
        z == x + y,
{
    quant::law_q6_k_apart(m, a, b, x, y);
    assert forall|i: int| 0 <= i < z.len() implies z[i] == (x + y)[i] by {
        law_element_once(m, 14, a + b, i, z[i], (x + y)[i]);
    }
    assert(z =~= x + y);
}

/// IQ4_XS blocks behind IQ4_XS blocks decode to what the first ones do, and behind it what the others
/// do.
pub proof fn law_iq4_xs_concat<T: Scalar, M: Math<T>>(
    m: M,
    a: Seq<u8>,
    b: Seq<u8>,
    x: Seq<T>,
    y: Seq<T>,
    z: Seq<T>,
)
    requires
        functional::<T, M>(m),
        a.len() % 136 == 0,
        b.len() % 136 == 0,
        quant::iq4_xs_decoded(m, a, x),
        quant::iq4_xs_decoded(m, b, y),
        quant::iq4_xs_decoded(m, a + b, z),
    ensures
        z == x + y,
{
    quant::law_iq4_xs_apart(m, a, b, x, y);
    assert forall|i: int| 0 <= i < z.len() implies z[i] == (x + y)[i] by {
        law_element_once(m, 23, a + b, i, z[i], (x + y)[i]);
    }
    assert(z =~= x + y);
}

proof fn weight_once<T: Scalar, M: Math<T>>(
    o: Origin<M>,
    name: Seq<char>,
    a: Tensor<T>,
    b: Tensor<T>,
)
    requires
        functional::<T, M>(o.math),
        model::is_weight(o, name, a),
        model::is_weight(o, name, b),
    ensures
        same_tensor(a, b),
{
    let len = o.bytes.len() as int;
    let (start, end) = weights::extent_named(o.file, len, name)->Ok_0;
    let t = weights::decodable(o.file, len, name)->Ok_0;
    let bytes = o.bytes.subrange(start, end);
    assert forall|i: int| 0 <= i < a.elems().len() implies a.elems()[i] == b.elems()[i] by {
        law_element_once(o.math, t.ggml_type, bytes, i, a.elems()[i], b.elems()[i]);
    }
    assert(a.elems() =~= b.elems());
}

proof fn attention_weights_once<T: Scalar, M: Math<T>>(
    o: Origin<M>,
    layer: usize,
    a: AttentionWeights<T>,
    b: AttentionWeights<T>,
)
    requires
        functional::<T, M>(o.math),
        model::is_attention(o, layer, a),
        model::is_attention(o, layer, b),
    ensures
        same_attention(a, b),
{
    weight_once(o, model::name(layer, "attn_q.weight"@), a.q, b.q);
    weight_once(o, model::name(layer, "attn_k.weight"@), a.k, b.k);
    weight_once(o, model::name(layer, "attn_v.weight"@), a.v, b.v);
    weight_once(o, model::name(layer, "attn_output.weight"@), a.out, b.out);
    weight_once(o, model::name(layer, "attn_q_norm.weight"@), a.q_norm, b.q_norm);
    weight_once(o, model::name(layer, "attn_k_norm.weight"@), a.k_norm, b.k_norm);
}

/// A cache differs from what it was before only in the key and the value of one layer at one
/// position.
pub open spec fn changed_at<T: Copy>(
    before: &KVCache<T>,
    after: &KVCache<T>,
    config: ModelConfig,
    layer: int,
    pos: int,
) -> bool {
    forall|l: int, p: int|
        0 <= l < config.n_layers && 0 <= p < before.positions() && !(l == layer && p == pos) ==> (
        #[trigger] after.keys()[l][p]) == before.keys()[l][p] && after.values()[l][p]
            == before.values()[l][p]
}

proof fn lemma_changed_at<T: Scalar, M: Math<T>>(
    o: Origin<M>,
    config: ModelConfig,
    layer: usize,
    pos: usize,
    x: Seq<T>,
    before: &KVCache<T>,
    after: &KVCache<T>,
    y: Seq<T>,
)
    requires
        before.wf(&config),
        layer < config.n_layers,
        pos < before.positions(),
        model::attention_done(o, config, layer, pos, x, before, after, y),
    ensures
        changed_at(before, after, config, layer as int, pos as int),
{
    let l = layer as int;
    let (keys, values) = (before.keys()[l], before.values()[l]);
    let (keys2, values2) = (after.keys()[l], after.values()[l]);
    let w = choose|w: AttentionWeights<T>|
        {
            &&& #[trigger] model::is_attention(o, layer, w)
            &&& attention::attended(o.math, config, w, x, pos, keys, values, keys2, values2, y)
        };
    let t = choose|t: AttentionTrace<T>| #[trigger]
        attention::attention_run(o.math, config, w, x, pos, keys, values, keys2, values2, y, t);
    assert(keys2 == keys.update(pos as int, t.k_rot));
    assert(before.keys()[l].len() == before.positions());
    assert(before.values()[l].len() == before.positions());
}

/// Attention in a block at a position gives the same result with two caches that agree on the
/// positions before it in this layer, whatever else they hold and whatever the stores of the
/// weights keep; each cache changes only at this position of this layer, and both in the same
/// way.
pub proof fn law_attention_sees_past<T: Scalar, M: Math<T>>(
    o: Origin<M>,
    config: ModelConfig,
    layer: usize,
    pos: usize,
    x: Seq<T>,
    before1: &KVCache<T>,
    after1: &KVCache<T>,
    y1: Seq<T>,
    before2: &KVCache<T>,
    after2: &KVCache<T>,
    y2: Seq<T>,
)
    requires
        functional::<T, M>(o.math),
        before1.wf(&config),
        before2.wf(&config),
        layer < config.n_layers,
        pos < before1.positions(),
        pos < before2.positions(),
        forall|p: int|
            0 <= p < pos ==> #[trigger] before1.keys()[layer as int][p]
                == before2.keys()[layer as int][p],
        forall|p: int|
            0 <= p < pos ==> #[trigger] before1.values()[layer as int][p]
                == before2.values()[layer as int][p],
        model::attention_done(o, config, layer, pos, x, before1, after1, y1),
        model::attention_done(o, config, layer, pos, x, before2, after2, y2),
    ensures
        y1 == y2,
        after1.keys()[layer as int][pos as int] == after2.keys()[layer as int][pos as int],
        after1.values()[layer as int][pos as int] == after2.values()[layer as int][pos as int],
        changed_at(before1, after1, config, layer as int, pos as int),
        changed_at(before2, after2, config, layer as int, pos as int),
{
    let (m, l, p) = (o.math, layer as int, pos as int);
    let (k1, v1) = (before1.keys()[l], before1.values()[l]);
    let (k2, v2) = (before2.keys()[l], before2.values()[l]);
    let (ka1, va1) = (after1.keys()[l], after1.values()[l]);
    let (ka2, va2) = (after2.keys()[l], after2.values()[l]);
    lemma_changed_at(o, config, layer, pos, x, before1, after1, y1);
    lemma_changed_at(o, config, layer, pos, x, before2, after2, y2);
    let w1 = choose|w: AttentionWeights<T>|
        {
            &&& #[trigger] model::is_attention(o, layer, w)
            &&& attention::attended(m, config, w, x, pos, k1, v1, ka1, va1, y1)
        };
    let w2 = choose|w: AttentionWeights<T>|
        {
            &&& #[trigger] model::is_attention(o, layer, w)
            &&& attention::attended(m, config, w, x, pos, k2, v2, ka2, va2, y2)
        };
    attention_weights_once(o, layer, w1, w2);
    assert(k1.take(p) =~= k2.take(p));
    assert(v1.take(p) =~= v2.take(p));
    attention::law_attention_is_causal(m, config, w2, x, pos, k2, v2, ka2, va2, y2, k1, v1);
    law_attention_once(
        m,
        config,
        w1,
        w2,
        x,
        pos,
        k1,
        v1,
        ka1,
        va1,
        y1,
        k1.update(p, ka2[p]),
        v1.update(p, va2[p]),
        y2,
    );
}

proof fn recurrent_weights_once<T: Scalar, M: Math<T>>(
    o: Origin<M>,
    layer: usize,
    a: RecurrentWeights<T>,
    b: RecurrentWeights<T>,
)
    requires
        functional::<T, M>(o.math),
        model::is_recurrent(o, layer, a),
        model::is_recurrent(o, layer, b),
    ensures
        same_recurrent(a, b),
{
    weight_once(o, model::name(layer, "attn_qkv.weight"@), a.qkv, b.qkv);
    weight_once(o, model::name(layer, "attn_gate.weight"@), a.gate, b.gate);
    weight_once(o, model::name(layer, "ssm_conv1d.weight"@), a.conv, b.conv);
    weight_once(o, model::name(layer, "ssm_a"@), a.a, b.a);
    weight_once(o, model::name(layer, "ssm_alpha.weight"@), a.alpha, b.alpha);
    weight_once(o, model::name(layer, "ssm_beta.weight"@), a.beta, b.beta);
    weight_once(o, model::name(layer, "ssm_dt.bias"@), a.dt, b.dt);
    weight_once(o, model::name(layer, "ssm_norm.weight"@), a.norm, b.norm);
    weight_once(o, model::name(layer, "ssm_out.weight"@), a.out, b.out);
}

proof fn fed_forward_once<T: Scalar, M: Math<T>>(
    o: Origin<M>,
    layer: usize,
    a: FfnWeights<T>,
    b: FfnWeights<T>,
    x: Seq<T>,
    y: Seq<T>,
    z: Seq<T>,
)
    requires
        functional::<T, M>(o.math),
        model::is_ffn(o, layer, a),
        model::is_ffn(o, layer, b),
        feedforward::fed_forward(o.math, a, x, y),
        feedforward::fed_forward(o.math, b, x, z),
    ensures
        y == z,
{
    let m = o.math;
    weight_once(o, model::name(layer, "ffn_gate.weight"@), a.gate, b.gate);
    weight_once(o, model::name(layer, "ffn_up.weight"@), a.up, b.up);
    weight_once(o, model::name(layer, "ffn_down.weight"@), a.down, b.down);
    let t = choose|t: FfnTrace<T>| #[trigger] feedforward::ffn_run(m, a, x, y, t);
    let u = choose|u: FfnTrace<T>| #[trigger] feedforward::ffn_run(m, b, x, z, u);
    let (n, hidden) = (x.len() as int, a.gate.dims()[0] as int);
    applied_once(m, a.gate.elems(), hidden, n, x, t.gate, u.gate);
    silus_once(m, t.gate, t.gate_silu, u.gate_silu);
    applied_once(m, a.up.elems(), hidden, n, x, t.up, u.up);
    each_pair_once(
        t.gate_silu,
        t.up,
        |a: T, b: T, c: T| arith::multiplied(a, b, c),
        t.gated,
        u.gated,
    );
    applied_once(m, a.down.elems(), a.down.dims()[0] as int, hidden, t.gated, y, z);
}

proof fn transformed_once<T: Scalar, M: Math<T>>(
    o: Origin<M>,
    config: ModelConfig,
    layer: usize,
    x: Seq<T>,
    pos: usize,
    keys: Seq<Seq<T>>,
    values: Seq<Seq<T>>,
    keys1: Seq<Seq<T>>,
    values1: Seq<Seq<T>>,
    y1: Seq<T>,
    keys2: Seq<Seq<T>>,
    values2: Seq<Seq<T>>,
    y2: Seq<T>,
)
    requires
        functional::<T, M>(o.math),
        model::transformed(o, config, layer, x, pos, keys, values, keys1, values1, y1),
        model::transformed(o, config, layer, x, pos, keys, values, keys2, values2, y2),
    ensures
        keys1 == keys2,
        values1 == values2,
        y1 == y2,
{
    let m = o.math;
    let t = choose|t: TransformerTrace<T>| #[trigger]
        model::transformer_run(o, config, layer, x, pos, keys, values, keys1, values1, y1, t);
    let u = choose|u: TransformerTrace<T>| #[trigger]
        model::transformer_run(o, config, layer, x, pos, keys, values, keys2, values2, y2, u);
    weight_once(o, model::name(layer, "attn_norm.weight"@), t.norm1, u.norm1);
    weight_once(o, model::name(layer, "post_attention_norm.weight"@), t.norm2, u.norm2);
    attention_weights_once(o, layer, t.attention, u.attention);
    normed_once(m, config.rms_eps, x, t.norm1.elems(), t.normed1, u.normed1);
    law_attention_once(
        m,
        config,
        t.attention,
        u.attention,
        t.normed1,
        pos,
        keys,
        values,
        keys1,
        values1,
        t.attended,
        keys2,
        values2,
        u.attended,
    );
    each_pair_once(
        x,
        t.attended,
        |a: T, b: T, c: T| arith::added(a, b, c),
        t.middle,
        u.middle,
    );
    normed_once(m, config.rms_eps, t.middle, t.norm2.elems(), t.normed2, u.normed2);
    fed_forward_once(o, layer, t.ffn, u.ffn, t.normed2, t.fed, u.fed);
    each_pair_once(t.middle, t.fed, |a: T, b: T, c: T| arith::added(a, b, c), y1, y2);
}

proof fn recurrent_block_once<T: Scalar, M: Math<T>>(
    o: Origin<M>,
    config: ModelConfig,
    layer: usize,
    x: Seq<T>,
    states: Seq<Seq<T>>,
    history: Seq<Seq<T>>,
    states1: Seq<Seq<T>>,
    history1: Seq<Seq<T>>,
    y1: Seq<T>,
    states2: Seq<Seq<T>>,
    history2: Seq<Seq<T>>,
    y2: Seq<T>,
)
    requires
        functional::<T, M>(o.math),
        model::recurrent_block_done(
            o,
            config,
            layer,
            x,
            states,
            history,
            states1,
            history1,
            y1,
        ),
        model::recurrent_block_done(
            o,
            config,
            layer,
            x,
            states,
            history,
            states2,
            history2,
            y2,
        ),
    ensures
        states1 == states2,
        history1 == history2,
        y1 == y2,
{
    let m = o.math;
    let t = choose|t: RecurrentBlockTrace<T>| #[trigger]
        model::recurrent_block_run(
            o,
            config,
            layer,
            x,
            states,
            history,
            states1,
            history1,
            y1,
            t,
        );
    let u = choose|u: RecurrentBlockTrace<T>| #[trigger]
        model::recurrent_block_run(
            o,
            config,
            layer,
            x,
            states,
            history,
            states2,
            history2,
            y2,
            u,
        );
    weight_once(o, model::name(layer, "attn_norm.weight"@), t.norm, u.norm);
    recurrent_weights_once(o, layer, t.recurrent, u.recurrent);
    normed_once(m, config.rms_eps, x, t.norm.elems(), t.normed, u.normed);
    law_recurrence_once(
        m,
        config,
        t.recurrent,
        u.recurrent,
        t.normed,
        states,
        history,
        states1,
        history1,
        t.recurred,
        states2,
        history2,
        u.recurred,
    );
    each_pair_once(x, t.recurred, |a: T, b: T, c: T| arith::added(a, b, c), y1, y2);
}

proof fn layer_once<T: Scalar, M: Math<T>>(
    o: Origin<M>,
    config: ModelConfig,
    layer: int,
    pos: usize,
    x: Seq<T>,
    before: Memory<T>,
    y1: Seq<T>,
    after1: Memory<T>,
    y2: Seq<T>,
    after2: Memory<T>,
)
    requires
        functional::<T, M>(o.math),
        model::layer_done(o, config, layer, pos, x, before, y1, after1),
        model::layer_done(o, config, layer, pos, x, before, y2, after2),
    ensures
        y1 == y2,
        after1 == after2,
{
    if model::attends(layer) {
        transformed_once(
            o,
            config,
            layer as usize,
            x,
            pos,
            before.keys[layer],
            before.values[layer],
            after1.keys[layer],
            after1.values[layer],
            y1,
            after2.keys[layer],
            after2.values[layer],
            y2,
        );
    } else {
        recurrent_block_once(
            o,
            config,
            layer as usize,
            x,
            before.states[layer],
            before.history[layer],
            after1.states[layer],
            after1.history[layer],
            y1,
            after2.states[layer],
            after2.history[layer],
            y2,
        );
    }
}

proof fn layers_once<T: Scalar, M: Math<T>>(
    o: Origin<M>,
    config: ModelConfig,
    k: nat,
    pos: usize,
    x: Seq<T>,
    before: Memory<T>,
    y1: Seq<T>,
    after1: Memory<T>,
    y2: Seq<T>,
    after2: Memory<T>,
)
    requires
        functional::<T, M>(o.math),
        model::layers_done(o, config, k, pos, x, before, y1, after1),
        model::layers_done(o, config, k, pos, x, before, y2, after2),
    ensures
        y1 == y2,
        after1 == after2,
    decreases k,
{
    if k > 0 {
        let (z1, mid1) = choose|z: Seq<T>, mid: Memory<T>|
            {
                &&& model::layers_done(o, config, (k - 1) as nat, pos, x, before, z, mid)
                &&& #[trigger] model::layer_done(o, config, k - 1, pos, z, mid, y1, after1)
            };
        let (z2, mid2) = choose|z: Seq<T>, mid: Memory<T>|
            {
                &&& model::layers_done(o, config, (k - 1) as nat, pos, x, before, z, mid)
                &&& #[trigger] model::layer_done(o, config, k - 1, pos, z, mid, y2, after2)
            };
        layers_once(o, config, (k - 1) as nat, pos, x, before, z1, mid1, z2, mid2);
        layer_once(o, config, k - 1, pos, z1, mid1, y1, after1, y2, after2);
    }
}

/// The logits of a token at a position have one value, and so has what the blocks carry after
/// it: both are determined by the file, the token, the position, and what was carried before.
pub proof fn law_forward_once<T: Scalar, M: Math<T>>(
    o: Origin<M>,
    config: ModelConfig,
    token: u32,
    pos: usize,
    before: Memory<T>,
    after1: Memory<T>,
    logits1: Seq<T>,
    after2: Memory<T>,
    logits2: Seq<T>,
)
    requires
        functional::<T, M>(o.math),
        model::forwarded(o, config, token, pos, before, after1, logits1),
        model::forwarded(o, config, token, pos, before, after2, logits2),
    ensures
        after1 == after2,
        logits1 == logits2,
{
    let m = o.math;
    let table = "token_embd.weight"@;
    let t = choose|t: ForwardTrace<T>| #[trigger]
        model::forward_run(o, config, token, pos, before, after1, logits1, t);
    let u = choose|u: ForwardTrace<T>| #[trigger]
        model::forward_run(o, config, token, pos, before, after2, logits2, u);
    let (width, row) = (config.embed_dim as int, token as int);
    let a = choose|a: Tensor<T>|
        {
            &&& #[trigger] model::is_weight(o, table, a)
            &&& t.embedding == tensor::row(a.elems(), width, row)
        };
    let b = choose|b: Tensor<T>|
        {
            &&& #[trigger] model::is_weight(o, table, b)
            &&& u.embedding == tensor::row(b.elems(), width, row)
        };
    weight_once(o, table, a, b);
    weight_once(o, table, t.table, u.table);
    weight_once(o, "output_norm.weight"@, t.norm, u.norm);
    let k = config.n_layers as nat;
    layers_once(o, config, k, pos, t.embedding, before, t.hidden, after1, u.hidden, after2);
    normed_once(m, config.rms_eps, t.hidden, t.norm.elems(), t.normed, u.normed);
    applied_once(
        m,
        t.table.elems(),
        t.table.dims()[0] as int,
        width,
        t.normed,
        logits1,
        logits2,
    );
}

proof fn accumulated_once<T: Scalar, M: Math<T>>(
    m: M,
    probs: Seq<(u32, T)>,
    p: int,
    q: int,
    a: Seq<T>,
    b: Seq<T>,
    i: int,
)
    requires
        functional::<T, M>(m),
        0 <= p <= probs.len(),
        0 <= q <= probs.len(),
        sampler::accumulated(probs.take(p), a),
        sampler::accumulated(probs.take(q), b),
        0 <= i <= p,
        i <= q,
    ensures
        a[i] == b[i],
    decreases i,
{
    if i > 0 {
        accumulated_once(m, probs, p, q, a, b, i - 1);
        let k = i - 1;
        assert(probs.take(p)[k] == probs[k] && probs.take(q)[k] == probs[k]);
        assert(arith::added(a[k], probs.take(p)[k].1, a[k + 1]));
        assert(arith::added(b[k], probs.take(q)[k].1, b[k + 1]));
    }
}

proof fn nucleus_once<T: Scalar, M: Math<T>>(
    m: M,
    probs: Seq<(u32, T)>,
    p: T,
    a: Seq<(u32, T)>,
    b: Seq<(u32, T)>,
)
    requires
        functional::<T, M>(m),
        sampler::nucleus(probs, p, a),
        sampler::nucleus(probs, p, b),
    ensures
        a == b,
{
    let (k, l) = (a.len() as int, b.len() as int);
    let s = choose|s: Seq<T>|
        {
            &&& #[trigger] sampler::accumulated(a, s)
            &&& a.len() <= probs.len()
            &&& a == probs.take(a.len() as int)
            &&& forall|i: int| 0 < i < a.len() ==> arith::at_least(#[trigger] s[i], p, false)
            &&& a.len() < probs.len() ==> a.len() > 0 && arith::at_least(
                s[a.len() as int],
                p,
                true,
            )
        };
    let t = choose|t: Seq<T>|
        {
            &&& #[trigger] sampler::accumulated(b, t)
            &&& b.len() <= probs.len()
            &&& b == probs.take(b.len() as int)
            &&& forall|i: int| 0 < i < b.len() ==> arith::at_least(#[trigger] t[i], p, false)
            &&& b.len() < probs.len() ==> b.len() > 0 && arith::at_least(
                t[b.len() as int],
                p,
                true,
            )
        };
    if k < l {
        accumulated_once(m, probs, k, l, s, t, k);
        assert(arith::at_least(t[k], p, false));
    } else if l < k {
        accumulated_once(m, probs, k, l, s, t, l);
        assert(arith::at_least(s[l], p, false));
    }
}

/// The candidates for the next token have one value, where their probabilities can be ranked.
pub proof fn law_candidates_once<T: Scalar, M: Math<T>>(
    m: M,
    logits: Seq<T>,
    temp: T,
    top_k: int,
    top_p: T,
    r1: Seq<(u32, T)>,
    t1: CandidateTrace<T>,
    r2: Seq<(u32, T)>,
    t2: CandidateTrace<T>,
)
    requires
        functional::<T, M>(m),
        logits.len() <= usize::MAX,
        ranking::rankable(sampler::placed(t1.probs)),
        sampler::candidates_run(m, logits, temp, top_k, top_p, r1, t1),
        sampler::candidates_run(m, logits, temp, top_k, top_p, r2, t2),
    ensures
        r1 == r2,
{
    let (o, i) = choose|o: T, i: T|
        {
            &&& #[trigger] arith::from_usize(m, 1, o)
            &&& #[trigger] arith::divided(o, temp, i)
            &&& elementwise::each(
                logits,
                |x: T, y: T| arith::multiplied(x, i, y),
                t1.tempered,
            )
        };
    let (p, j) = choose|p: T, j: T|
        {
            &&& #[trigger] arith::from_usize(m, 1, p)
            &&& #[trigger] arith::divided(p, temp, j)
            &&& elementwise::each(
                logits,
                |x: T, y: T| arith::multiplied(x, j, y),
                t2.tempered,
            )
        };
    assert(i == j);
    each_once(logits, |x: T, y: T| arith::multiplied(x, i, y), t1.tempered, t2.tempered);
    law_softmax_once(m, t1.tempered, t1.probs, t2.probs);
    ranking::law_ranked_once(sampler::placed(t1.probs), t1.sorted, t2.sorted);
    let first = sampler::first_k(sampler::tokens_of(t1.sorted), top_k);
    nucleus_once(m, first, top_p, t1.kept, t2.kept);
    summed_once(m, sampler::weights_of(t1.kept), t1.total, t2.total);
    assert forall|k: int| 0 <= k < r1.len() implies r1[k] == r2[k] by {
        assert(arith::divided(t1.kept[k].1, t1.total, r1[k].1));
        assert(arith::divided(t2.kept[k].1, t2.total, r2[k].1));
    }
    assert(r1 =~= r2);
}

} // verus!
