//! What turning queries and keys comes to where arithmetic is exact.

use crate::arith::{self, Math, Scalar};
use crate::config::ModelConfig;
use crate::exact::{
    exact, lemma_cancel, lemma_minus_times, lemma_plus_times, lemma_quotient, lemma_quotient_sum,
    lemma_times_minus, lemma_times_plus, lemma_times_times, Reals,
};
use crate::rotary;
use crate::shape;
use vstd::prelude::*;

verus! {

/// The angle of pair `i` is the position, divided by `theta` to the power of `2 * i / dim`.
pub proof fn law_angle<T: Scalar, M: Math<T>>(
    m: M,
    v: Reals<T>,
    theta: u32,
    dim: usize,
    pos: usize,
    i: int,
    r: T,
)
    requires
        exact(m, v),
        (v.bits)(theta) > 0real,
        0 <= i,
        2 * i < dim,
        rotary::angle(m, theta, dim, pos, i, r),
    ensures
        v.of(r) * (v.pow)((v.bits)(theta), (2 * i) as real / (dim as real)) == pos as real,
        v.of(r) == pos as real / (v.pow)((v.bits)(theta), (2 * i) as real / (dim as real)),
{
    let (t, a, b, e, w, p) = choose|t: T, a: T, b: T, e: T, w: T, p: T|
        {
            &&& #[trigger] arith::from_bits(m, theta, t)
            &&& #[trigger] arith::from_usize(m, (2 * i) as usize, a)
            &&& #[trigger] arith::from_usize(m, dim, b)
            &&& #[trigger] arith::divided(a, b, e)
            &&& #[trigger] arith::pow(m, t, e, w)
            &&& #[trigger] arith::from_usize(m, pos, p)
            &&& arith::divided(p, w, r)
        };
    assert(v.of(b) == dim as real && v.of(b) != 0real);
    assert(v.of(e) == (2 * i) as real / (dim as real));
    lemma_quotient(pos as real, v.of(w));
}

/// A pair among pairs of elements has the same angle as the one of twice its number among twice
/// as many.
pub proof fn law_angle_scales<T: Scalar, M: Math<T>>(
    m: M,
    v: Reals<T>,
    theta: u32,
    dim: usize,
    pos: usize,
    i: int,
    r: T,
    double: usize,
    s: T,
)
    requires
        exact(m, v),
        (v.bits)(theta) > 0real,
        0 <= i,
        2 * i < dim,
        double == 2 * dim,
        rotary::angle(m, theta, dim, pos, i, r),
        rotary::angle(m, theta, double, pos, 2 * i, s),
    ensures
        v.of(r) == v.of(s),
{
    law_angle(m, v, theta, dim, pos, i, r);
    law_angle(m, v, theta, double, pos, 2 * i, s);
    let (a, b) = ((2 * i) as real, dim as real);
    let (c, d) = ((2 * (2 * i)) as real, double as real);
    assert(c == a + a && d == b + b);
    lemma_quotient(a, b);
    lemma_quotient(c, d);
    lemma_times_plus(a / b, b, b);
    lemma_cancel(a / b, c / d, d);
}

/// Turning takes a pair of elements of a head, half of `rope_dim` apart, by the angle of the pair:
/// the position divided by `theta` to the power of twice the number of the pair over `rope_dim`.
proof fn lemma_turned<T: Scalar, M: Math<T>>(
    m: M,
    v: Reals<T>,
    config: ModelConfig,
    pos: usize,
    cos: Seq<T>,
    sin: Seq<T>,
    xs: Seq<T>,
    width: int,
    heads: int,
    out: Seq<T>,
    h: int,
    c: int,
)
    requires
        exact(m, v),
        (v.bits)(config.rope_theta) > 0real,
        rotary::turns(m, config, pos, cos, sin),
        rotary::turned(cos, sin, xs, width, heads, out),
        0 <= h < heads,
        heads * width <= xs.len(),
        config.rope_dim / 2 * 2 <= width,
        0 <= c < config.rope_dim / 2,
    ensures
        out.len() == xs.len(),
        ({
            let half = config.rope_dim as int / 2;
            let a = pos as real / (v.pow)(
                (v.bits)(config.rope_theta),
                (2 * c) as real / (config.rope_dim as real),
            );
            let (x0, x1) = (v.of(xs[h * width + c]), v.of(xs[h * width + c + half]));
            &&& v.of(out[h * width + c]) == x0 * (v.cos)(a) - x1 * (v.sin)(a)
            &&& v.of(out[h * width + c + half]) == x0 * (v.sin)(a) + x1 * (v.cos)(a)
        }),
{
    let half = config.rope_dim as int / 2;
    let (e, f) = (h * width + c, h * width + c + half);
    shape::lemma_cell(h, c, heads, width);
    shape::lemma_cell(h, c + half, heads, width);
    assert(rotary::turn(m, config, pos, c, cos[c], sin[c]));
    let a = choose|a: T|
        {
            &&& #[trigger] rotary::angle(m, config.rope_theta, config.rope_dim, pos, c, a)
            &&& arith::cos(m, a, cos[c])
            &&& arith::sin(m, a, sin[c])
        };
    law_angle(m, v, config.rope_theta, config.rope_dim, pos, c, a);
    assert(rotary::turned_at(cos, sin, xs, width, heads, e, out[e]));
    assert(rotary::turned_at(cos, sin, xs, width, heads, f, out[f]));
}

/// Queries and keys are turned: in each head the elements `c` and `c + rope_dim / 2` are the
/// coordinates of a point that goes round by the angle `pos / theta^(2 * c / rope_dim)`, and the
/// elements from `rope_dim` on stay.
pub proof fn law_rope<T: Scalar, M: Math<T>>(
    m: M,
    v: Reals<T>,
    config: ModelConfig,
    pos: usize,
    q: Seq<T>,
    q_width: int,
    q_out: Seq<T>,
    k: Seq<T>,
    k_width: int,
    k_out: Seq<T>,
    h: int,
    c: int,
)
    requires
        exact(m, v),
        (v.bits)(config.rope_theta) > 0real,
        rotary::roped(m, config, pos, q, q_width, q_out, k, k_width, k_out),
        0 <= h,
        0 <= c < config.rope_dim / 2,
        config.rope_dim / 2 * 2 <= q_width,
        config.rope_dim / 2 * 2 <= k_width,
        config.n_heads * q_width <= q.len(),
        config.n_kv_heads * k_width <= k.len(),
    ensures
        ({
            let half = config.rope_dim as int / 2;
            let a = pos as real / (v.pow)(
                (v.bits)(config.rope_theta),
                (2 * c) as real / (config.rope_dim as real),
            );
            &&& h < config.n_heads ==> {
                let (e, f) = (h * q_width + c, h * q_width + c + half);
                &&& v.of(q_out[e]) == v.of(q[e]) * (v.cos)(a) - v.of(q[f]) * (v.sin)(a)
                &&& v.of(q_out[f]) == v.of(q[e]) * (v.sin)(a) + v.of(q[f]) * (v.cos)(a)
            }
            &&& h < config.n_kv_heads ==> {
                let (e, f) = (h * k_width + c, h * k_width + c + half);
                &&& v.of(k_out[e]) == v.of(k[e]) * (v.cos)(a) - v.of(k[f]) * (v.sin)(a)
                &&& v.of(k_out[f]) == v.of(k[e]) * (v.sin)(a) + v.of(k[f]) * (v.cos)(a)
            }
        }),
{
    let (n, l) = (config.n_heads as int, config.n_kv_heads as int);
    let (cos, sin) = choose|cos: Seq<T>, sin: Seq<T>|
        {
            &&& #[trigger] rotary::turns(m, config, pos, cos, sin)
            &&& rotary::turned(cos, sin, q, q_width, n, q_out)
            &&& rotary::turned(cos, sin, k, k_width, l, k_out)
        };
    if h < n {
        lemma_turned(m, v, config, pos, cos, sin, q, q_width, n, q_out, h, c);
    }
    if h < l {
        lemma_turned(m, v, config, pos, cos, sin, k, k_width, l, k_out, h, c);
    }
}

/// Turning a point twice.
proof fn lemma_turn_twice(
    x0: real,
    x1: real,
    cx: real,
    sx: real,
    y0: real,
    y1: real,
    cy: real,
    sy: real,
)
    requires
        y0 == x0 * cx - x1 * sx,
        y1 == x0 * sx + x1 * cx,
    ensures
        y0 * cy - y1 * sy == x0 * (cx * cy - sx * sy) - x1 * (sx * cy + cx * sy),
        y0 * sy + y1 * cy == x0 * (sx * cy + cx * sy) + x1 * (cx * cy - sx * sy),
{
    lemma_minus_times(x0 * cx, x1 * sx, cy);
    lemma_plus_times(x0 * sx, x1 * cx, sy);
    lemma_minus_times(x0 * cx, x1 * sx, sy);
    lemma_plus_times(x0 * sx, x1 * cx, cy);
    lemma_times_times(x0, cx, cy);
    lemma_times_times(x1, sx, cy);
    lemma_times_times(x0, sx, sy);
    lemma_times_times(x1, cx, sy);
    lemma_times_times(x0, cx, sy);
    lemma_times_times(x1, sx, sy);
    lemma_times_times(x0, sx, cy);
    lemma_times_times(x1, cx, cy);
    lemma_times_minus(x0, cx * cy, sx * sy);
    lemma_times_plus(x1, sx * cy, cx * sy);
    lemma_times_plus(x0, sx * cy, cx * sy);
    lemma_times_minus(x1, cx * cy, sx * sy);
}

/// Turning for one position and then for another is turning for the sum of the two: how queries
/// and keys are turned against each other depends on how far they are apart.
pub proof fn law_rope_adds<T: Scalar, M: Math<T>>(
    m: M,
    v: Reals<T>,
    config: ModelConfig,
    a: usize,
    b: usize,
    both: usize,
    q: Seq<T>,
    q1: Seq<T>,
    q2: Seq<T>,
    q3: Seq<T>,
    k: Seq<T>,
    k1: Seq<T>,
    k2: Seq<T>,
    k3: Seq<T>,
    width: int,
    h: int,
    c: int,
)
    requires
        exact(m, v),
        (v.bits)(config.rope_theta) > 0real,
        both == a + b,
        rotary::roped(m, config, a, q, width, q1, k, width, k1),
        rotary::roped(m, config, b, q1, width, q2, k1, width, k2),
        rotary::roped(m, config, both, q, width, q3, k, width, k3),
        config.rope_dim / 2 * 2 <= width,
        config.n_heads * width <= q.len(),
        config.n_kv_heads * width <= k.len(),
        0 <= h,
        0 <= c < config.rope_dim / 2,
    ensures
        h < config.n_heads ==> v.of(q2[h * width + c]) == v.of(q3[h * width + c]),
        h < config.n_heads ==> v.of(q2[h * width + c + config.rope_dim / 2]) == v.of(
            q3[h * width + c + config.rope_dim / 2],
        ),
        h < config.n_kv_heads ==> v.of(k2[h * width + c]) == v.of(k3[h * width + c]),
        h < config.n_kv_heads ==> v.of(k2[h * width + c + config.rope_dim / 2]) == v.of(
            k3[h * width + c + config.rope_dim / 2],
        ),
{
    let half = config.rope_dim as int / 2;
    rotary::law_rope_is_partial(m, config, a, q, width, q1, k, width, k1, 0);
    law_rope(m, v, config, a, q, width, q1, k, width, k1, h, c);
    law_rope(m, v, config, b, q1, width, q2, k1, width, k2, h, c);
    law_rope(m, v, config, both, q, width, q3, k, width, k3, h, c);
    let p = (v.pow)(
        (v.bits)(config.rope_theta),
        (2 * c) as real / (config.rope_dim as real),
    );
    let (ra, rb) = (a as real, b as real);
    let (x, y) = (ra / p, rb / p);
    assert(both as real == ra + rb);
    lemma_quotient_sum(ra, rb, p);
    assert(v.turn_of_sum(x, y));
    let (cx, sx, cy, sy) = ((v.cos)(x), (v.sin)(x), (v.cos)(y), (v.sin)(y));
    let (e, f) = (h * width + c, h * width + c + half);
    if h < config.n_heads {
        lemma_turn_twice(v.of(q[e]), v.of(q[f]), cx, sx, v.of(q1[e]), v.of(q1[f]), cy, sy);
    }
    if h < config.n_kv_heads {
        lemma_turn_twice(v.of(k[e]), v.of(k[f]), cx, sx, v.of(k1[e]), v.of(k1[f]), cy, sy);
    }
}

} // verus!
