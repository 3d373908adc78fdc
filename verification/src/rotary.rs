//! Rotary position embedding: pairs of elements of queries and keys are turned by an angle that
//! grows with the position.
//!
//! Of each head only the first `rope_dim` elements are turned, in the rotate-half convention:
//! element `i` of the first half of them is paired with element `i` of the second half.

use crate::arith::{self, Math, Scalar};
use crate::config::ModelConfig;
use crate::elementwise::build;
use crate::shape;
use crate::tensor::Tensor;
use vstd::prelude::*;

verus! {

/// `r` is a value of the angle of pair `i` at a position: `pos / theta^(2 * i / dim)`.
pub open spec fn angle<T: Scalar, M: Math<T>>(
    m: M,
    theta: u32,
    dim: usize,
    pos: usize,
    i: int,
    r: T,
) -> bool {
    exists|t: T, a: T, b: T, e: T, w: T, p: T|
        {
            &&& #[trigger] arith::from_bits(m, theta, t)
            &&& #[trigger] arith::from_usize(m, (2 * i) as usize, a)
            &&& #[trigger] arith::from_usize(m, dim, b)
            &&& #[trigger] arith::divided(a, b, e)
            &&& #[trigger] arith::pow(m, t, e, w)
            &&& #[trigger] arith::from_usize(m, pos, p)
            &&& arith::divided(p, w, r)
        }
}

/// `c` and `s` are values of the cosine and the sine of the angle of pair `i` at a position.
pub open spec fn turn<T: Scalar, M: Math<T>>(
    m: M,
    config: ModelConfig,
    pos: usize,
    i: int,
    c: T,
    s: T,
) -> bool {
    exists|a: T|
        {
            &&& #[trigger] angle(m, config.rope_theta, config.rope_dim, pos, i, a)
            &&& arith::cos(m, a, c)
            &&& arith::sin(m, a, s)
        }
}

/// `r` is a value of the first coordinate of `(x0, x1)` after the turn: `x0 * cos - x1 * sin`.
pub open spec fn turned_first<T: Scalar>(c: T, s: T, x0: T, x1: T, r: T) -> bool {
    exists|p0: T, p1: T|
        {
            &&& #[trigger] arith::multiplied(x0, c, p0)
            &&& #[trigger] arith::multiplied(x1, s, p1)
            &&& arith::subtracted(p0, p1, r)
        }
}

/// `r` is a value of the second coordinate of `(x0, x1)` after the turn: `x0 * sin + x1 * cos`.
pub open spec fn turned_second<T: Scalar>(c: T, s: T, x0: T, x1: T, r: T) -> bool {
    exists|p0: T, p1: T|
        {
            &&& #[trigger] arith::multiplied(x0, s, p0)
            &&& #[trigger] arith::multiplied(x1, c, p1)
            &&& arith::added(p0, p1, r)
        }
}

/// `r` is a value of element `e` of a matrix of `width` columns, the first `heads` rows of which
/// are turned; `cos` and `sin` hold the cosines and sines of the pairs.
pub open spec fn turned_at<T: Scalar>(
    cos: Seq<T>,
    sin: Seq<T>,
    elems: Seq<T>,
    width: int,
    heads: int,
    e: int,
    r: T,
) -> bool {
    let half = cos.len() as int;
    let (h, c) = (e / width, e % width);
    if h < heads && c < half {
        turned_first(cos[c], sin[c], elems[e], elems[e + half], r)
    } else if h < heads && c < 2 * half {
        turned_second(cos[c - half], sin[c - half], elems[e - half], elems[e], r)
    } else {
        r == elems[e]
    }
}

/// `out` is a value of the matrix `elems` of `width` columns with its first `heads` rows turned.
pub open spec fn turned<T: Scalar>(
    cos: Seq<T>,
    sin: Seq<T>,
    elems: Seq<T>,
    width: int,
    heads: int,
    out: Seq<T>,
) -> bool {
    &&& out.len() == elems.len()
    &&& forall|e: int|
        0 <= e < out.len() ==> turned_at(cos, sin, elems, width, heads, e, #[trigger] out[e])
}

/// `cos` and `sin` hold values of the cosines and sines of all pairs at a position.
pub open spec fn turns<T: Scalar, M: Math<T>>(
    m: M,
    config: ModelConfig,
    pos: usize,
    cos: Seq<T>,
    sin: Seq<T>,
) -> bool {
    &&& cos.len() == config.rope_dim / 2
    &&& sin.len() == config.rope_dim / 2
    &&& forall|i: int|
        0 <= i < cos.len() ==> turn(m, config, pos, i, #[trigger] cos[i], #[trigger] sin[i])
}

/// `q_out` and `k_out` are values of queries and keys, turned for a position.
pub open spec fn roped<T: Scalar, M: Math<T>>(
    m: M,
    config: ModelConfig,
    pos: usize,
    q: Seq<T>,
    q_width: int,
    q_out: Seq<T>,
    k: Seq<T>,
    k_width: int,
    k_out: Seq<T>,
) -> bool {
    exists|cos: Seq<T>, sin: Seq<T>|
        {
            &&& #[trigger] turns(m, config, pos, cos, sin)
            &&& turned(cos, sin, q, q_width, config.n_heads as int, q_out)
            &&& turned(cos, sin, k, k_width, config.n_kv_heads as int, k_out)
        }
}

/// Elements of a head beyond the first `rope_dim` are left as they are.
pub proof fn law_rope_is_partial<T: Scalar, M: Math<T>>(
    m: M,
    config: ModelConfig,
    pos: usize,
    q: Seq<T>,
    q_width: int,
    q_out: Seq<T>,
    k: Seq<T>,
    k_width: int,
    k_out: Seq<T>,
    e: int,
)
    requires
        roped(m, config, pos, q, q_width, q_out, k, k_width, k_out),
    ensures
        q_out.len() == q.len(),
        k_out.len() == k.len(),
        0 <= e < q.len() && e % q_width >= config.rope_dim ==> q_out[e] == q[e],
        0 <= e < k.len() && e % k_width >= config.rope_dim ==> k_out[e] == k[e],
{
    let (cos, sin) = choose|cos: Seq<T>, sin: Seq<T>|
        {
            &&& #[trigger] turns(m, config, pos, cos, sin)
            &&& turned(cos, sin, q, q_width, config.n_heads as int, q_out)
            &&& turned(cos, sin, k, k_width, config.n_kv_heads as int, k_out)
        };
    if 0 <= e < q.len() {
        assert(turned_at(cos, sin, q, q_width, config.n_heads as int, e, q_out[e]));
    }
    if 0 <= e < k.len() {
        assert(turned_at(cos, sin, k, k_width, config.n_kv_heads as int, e, k_out[e]));
    }
}

fn angle_of<T: Scalar, M: Math<T>>(m: &M, theta: u32, dim: usize, pos: usize, i: usize) -> (r: T)
    requires
        arith::total::<T>(),
        i < dim / 2,
    ensures
        angle(*m, theta, dim, pos, i as int, r),
{
    let t = m.from_bits(theta);
    let a = m.from_usize(2 * i);
    let b = m.from_usize(dim);
    let e = a / b;
    let w = m.pow(t, e);
    let p = m.from_usize(pos);
    assert(arith::from_bits(*m, theta, t) && arith::from_usize(*m, (2 * i as int) as usize, a)
        && arith::from_usize(*m, dim, b) && arith::divided(a, b, e) && arith::pow(*m, t, e, w)
        && arith::from_usize(*m, pos, p));
    p / w
}

/// The cosines and sines of all pairs at a position.
fn turns_of<T: Scalar, M: Math<T>>(m: &M, config: &ModelConfig, pos: usize) -> (r: (Vec<T>, Vec<T>))
    requires
        arith::total::<T>(),
    ensures
        turns(*m, *config, pos, r.0@, r.1@),
{
    let half = config.rope_dim / 2;
    let mut cos: Vec<T> = Vec::with_capacity(half);
    let mut sin: Vec<T> = Vec::with_capacity(half);
    while cos.len() < half
        invariant
            arith::total::<T>(),
            half == config.rope_dim / 2,
            cos@.len() == sin@.len() <= half,
            forall|i: int|
                0 <= i < cos@.len() ==> turn(
                    *m,
                    *config,
                    pos,
                    i,
                    #[trigger] cos@[i],
                    #[trigger] sin@[i],
                ),
        decreases half - cos@.len(),
    {
        let a = angle_of(m, config.rope_theta, config.rope_dim, pos, cos.len());
        let c = m.cos(a);
        let s = m.sin(a);
        assert(turn(*m, *config, pos, cos@.len() as int, c, s));
        cos.push(c);
        sin.push(s);
    }
    (cos, sin)
}

/// Turns the first `heads` rows of a matrix.
fn turned_of<T: Scalar>(cos: &Vec<T>, sin: &Vec<T>, t: &Tensor<T>, heads: usize) -> (r: Tensor<T>)
    requires
        arith::total::<T>(),
        cos@.len() == sin@.len(),
        t.wf(),
        t.dims().len() == 2,
        t.dims()[0] >= heads,
        heads > 0 ==> 2 * cos@.len() <= t.dims()[1],
    ensures
        r.wf(),
        r.dims() == t.dims(),
        turned(cos@, sin@, t.elems(), t.dims()[1] as int, heads as int, r.elems()),
{
    let half = cos.len();
    let rows = t.shape()[0];
    let width = t.shape()[1];
    let ghost (h, w) = (rows as int, width as int);
    proof {
        shape::lemma_matrix_shape(t.dims());
    }
    let x = t.data();
    let data = build(
        t.numel(),
        |e: usize| -> (r: T)
            requires
                e < t.elems().len()
            ensures
                turned_at(cos@, sin@, t.elems(), w, heads as int, e as int, r)
        {
            proof {
                shape::lemma_uncell(e as int, h, w);
                shape::lemma_cell(e as int / w, e as int % w, h, w);
            }
            let c = e % width;
            if e / width < heads && c < half {
                proof {
                    shape::lemma_cell(e as int / w, c + half, h, w);
                }
                let p0 = x[e] * cos[c];
                let p1 = x[e + half] * sin[c];
                assert(arith::multiplied(x@[e as int], cos@[c as int], p0) && arith::multiplied(
                    x@[e + half],
                    sin@[c as int],
                    p1,
                ));
                p0 - p1
            } else if e / width < heads && c < 2 * half {
                let p0 = x[e - half] * sin[c - half];
                let p1 = x[e] * cos[c - half];
                assert(arith::multiplied(x@[e - half], sin@[c - half], p0) && arith::multiplied(
                    x@[e as int],
                    cos@[c - half],
                    p1,
                ));
                p0 + p1
            } else {
                x[e]
            }
        },
    );
    let shape = vec![rows, width];
    assert(shape@ =~= t.dims());
    Tensor::from_vec(data, shape)
}

/// Turns the queries and the keys of a position, each given as a matrix with a row for each
/// head.
pub fn rope<T: Scalar, M: Math<T>>(
    q: &Tensor<T>,
    k: &Tensor<T>,
    pos: usize,
    config: &ModelConfig,
    m: &M,
) -> (r: (Tensor<T>, Tensor<T>))
    requires
        arith::total::<T>(),
        q.wf(),
        q.dims().len() == 2,
        q.dims()[0] >= config.n_heads,
        config.n_heads > 0 ==> config.rope_dim / 2 * 2 <= q.dims()[1],
        k.wf(),
        k.dims().len() == 2,
        k.dims()[0] >= config.n_kv_heads,
        config.n_kv_heads > 0 ==> config.rope_dim / 2 * 2 <= k.dims()[1],
    ensures
        r.0.wf(),
        r.0.dims() == q.dims(),
        r.1.wf(),
        r.1.dims() == k.dims(),
        roped(
            *m,
            *config,
            pos,
            q.elems(),
            q.dims()[1] as int,
            r.0.elems(),
            k.elems(),
            k.dims()[1] as int,
            r.1.elems(),
        ),
{
    let (cos, sin) = turns_of(m, config, pos);
    let q_out = turned_of(&cos, &sin, q, config.n_heads);
    let k_out = turned_of(&cos, &sin, k, config.n_kv_heads);
    (q_out, k_out)
}

} // verus!
