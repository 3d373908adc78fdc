//! What attention comes to where arithmetic is exact.

use crate::arith::{self, Math, Scalar};
use crate::attention::{self, AttentionTrace, AttentionWeights};
use crate::config::ModelConfig;
use crate::elementwise;
use crate::exact::{
    exact, law_dot, law_sigmoid, law_softmax, lemma_times_minus, lemma_times_times,
    lemma_total_times, products, total, values, Reals,
};
use crate::rotary;
use crate::shape;
use crate::tensor;
use vstd::prelude::*;

verus! {

/// Query heads share key heads in runs: with `g` query heads to a key head, the query heads from
/// `j * g` up to `(j + 1) * g` use key head `j`. The result gives the weights of the positions:
/// they are positive, their sum is one, and they are to each other as the exponentials of the dot
/// products of query and key, over the root of the size of a head. The output is the sum of the
/// values of key head `j`, each times the weight of its position.
pub proof fn law_heads_share_keys<T: Scalar, M: Math<T>>(
    m: M,
    v: Reals<T>,
    config: ModelConfig,
    q: Seq<T>,
    keys: Seq<Seq<T>>,
    vals: Seq<Seq<T>>,
    out: Seq<T>,
    g: int,
    j: int,
    h: int,
) -> (ws: Seq<T>)
    requires
        exact(m, v),
        config.head_dim > 0,
        config.n_kv_heads > 0,
        g > 0,
        config.n_heads == g * config.n_kv_heads,
        0 <= j < config.n_kv_heads,
        j * g <= h < j * g + g,
        q.len() == config.n_heads * config.head_dim,
        keys.len() == vals.len(),
        keys.len() > 0,
        forall|t: int|
            0 <= t < keys.len() ==> (#[trigger] keys[t]).len() == config.n_kv_heads
                * config.head_dim,
        attention::heads_attended(m, config, q, keys, vals, out),
    ensures
        ws.len() == keys.len(),
        forall|t: int| 0 <= t < ws.len() ==> v.of(#[trigger] ws[t]) > 0real,
        total(values(v, ws)) == 1real,
        forall|t: int, u: int|
            0 <= t < keys.len() && 0 <= u < keys.len() ==> {
                let dim = config.head_dim as int;
                let query = q.subrange(h * dim, h * dim + dim);
                let a = total(products(v, query, keys[t].subrange(j * dim, j * dim + dim)));
                let b = total(products(v, query, keys[u].subrange(j * dim, j * dim + dim)));
                let root = (v.sqrt)(config.head_dim as real);
                v.of(#[trigger] ws[t]) * (v.exp)(b / root) == v.of(#[trigger] ws[u]) * (v.exp)(
                    a / root,
                )
            },
        forall|d: int|
            0 <= d < config.head_dim ==> v.of(#[trigger] out[h * config.head_dim + d]) == total(
                Seq::new(
                    keys.len(),
                    |t: int| v.of(ws[t]) * v.of(vals[t][j * config.head_dim + d]),
                ),
            ),
{
    let dim = config.head_dim as int;
    let kv = config.n_kv_heads as int;
    let n = config.n_heads as int;
    assert(n / kv == g) by {
        assert(g * kv == kv * g) by (nonlinear_arith);
        vstd::arithmetic::div_mod::lemma_fundamental_div_mod_converse(n, kv, g, 0);
    }
    assert(h / g == j) by {
        assert(j * g == g * j) by (nonlinear_arith);
        vstd::arithmetic::div_mod::lemma_fundamental_div_mod_converse(h, g, j, h - j * g);
    }
    assert(0 <= h < n) by (nonlinear_arith)
        requires
            0 <= j < kv,
            j * g <= h < j * g + g,
            n == g * kv,
            g > 0,
    ;
    shape::lemma_cell(h, 0, n, dim);
    shape::lemma_cell(j, 0, kv, dim);
    let query = tensor::row(q, dim, h);
    let part = tensor::row(out, dim, h);
    assert(attention::head_attended(m, config.head_dim, query, keys, vals, j, part));
    let (scores, ws) = choose|scores: Seq<T>, ws: Seq<T>|
        {
            &&& #[trigger] attention::all_scored(m, config.head_dim, query, keys, j, scores)
            &&& #[trigger] tensor::softmaxed(m, scores, ws)
            &&& part.len() == dim
            &&& forall|d: int|
                0 <= d < dim ==> arith::dot(
                    ws,
                    attention::value_column(vals, dim, j, d),
                    #[trigger] part[d],
                )
        };
    law_softmax(m, v, scores, ws);
    let size = config.head_dim as real;
    let root = (v.sqrt)(size);
    assert(root != 0real) by {
        assert(0real * 0real == 0real) by (nonlinear_arith);
        assert(root * root == size);
    }
    assert forall|t: int| 0 <= t < scores.len() implies v.of(#[trigger] scores[t]) == total(
        products(v, query, keys[t].subrange(j * dim, j * dim + dim)),
    ) / root by {
        let key = tensor::row(keys[t], dim, j);
        assert(attention::scored(m, query, key, config.head_dim, scores[t]));
        let (d, k, s) = choose|d: T, k: T, s: T|
            {
                &&& arith::dot(query, key, d)
                &&& #[trigger] arith::from_usize(m, config.head_dim, k)
                &&& #[trigger] arith::sqrt(m, k, s)
                &&& #[trigger] arith::divided(d, s, scores[t])
            };
        assert(keys[t].len() == kv * dim);
        law_dot(m, v, query, key, d);
    }
    assert forall|t: int, u: int| 0 <= t < keys.len() && 0 <= u < keys.len() implies {
        let a = total(products(v, query, keys[t].subrange(j * dim, j * dim + dim)));
        let b = total(products(v, query, keys[u].subrange(j * dim, j * dim + dim)));
        v.of(#[trigger] ws[t]) * (v.exp)(b / root) == v.of(#[trigger] ws[u]) * (v.exp)(a / root)
    } by {
        assert(v.of(ws[t]) * (v.exp)(v.of(scores[u])) == v.of(ws[u]) * (v.exp)(v.of(scores[t])));
    }
    assert forall|d: int| 0 <= d < dim implies v.of(#[trigger] out[h * dim + d]) == total(
        Seq::new(keys.len(), |t: int| v.of(ws[t]) * v.of(vals[t][j * dim + d])),
    ) by {
        let column = attention::value_column(vals, dim, j, d);
        assert(part[d] == out[h * dim + d]);
        law_dot(m, v, ws, column, part[d]);
        assert(products(v, ws, column) =~= Seq::new(
            keys.len(),
            |t: int| v.of(ws[t]) * v.of(vals[t][j * dim + d]),
        ));
    }
    ws
}

/// Where all positions have the same value in an element of a key head, every query head that
/// uses this key head gives this value.
pub proof fn law_heads_average<T: Scalar, M: Math<T>>(
    m: M,
    v: Reals<T>,
    config: ModelConfig,
    q: Seq<T>,
    keys: Seq<Seq<T>>,
    vals: Seq<Seq<T>>,
    out: Seq<T>,
    g: int,
    j: int,
    h: int,
    d: int,
    c: real,
)
    requires
        exact(m, v),
        config.head_dim > 0,
        config.n_kv_heads > 0,
        g > 0,
        config.n_heads == g * config.n_kv_heads,
        0 <= j < config.n_kv_heads,
        j * g <= h < j * g + g,
        0 <= d < config.head_dim,
        q.len() == config.n_heads * config.head_dim,
        keys.len() == vals.len(),
        keys.len() > 0,
        forall|t: int|
            0 <= t < keys.len() ==> (#[trigger] keys[t]).len() == config.n_kv_heads
                * config.head_dim,
        attention::heads_attended(m, config, q, keys, vals, out),
        forall|t: int|
            0 <= t < vals.len() ==> v.of((#[trigger] vals[t])[j * config.head_dim + d]) == c,
    ensures
        v.of(out[h * config.head_dim + d]) == c,
{
    let ws = law_heads_share_keys(m, v, config, q, keys, vals, out, g, j, h);
    let dim = config.head_dim as int;
    let terms = Seq::new(keys.len(), |t: int| v.of(ws[t]) * v.of(vals[t][j * dim + d]));
    assert forall|t: int| 0 <= t < terms.len() implies #[trigger] terms[t] == values(v, ws)[t]
        * c by {
        assert(v.of(vals[t][j * config.head_dim + d]) == c);
    }
    lemma_total_times(values(v, ws), c, terms);
    assert(1real * c == c) by (nonlinear_arith);
    assert(v.of(out[h * config.head_dim + d]) == total(terms));
}

/// What is let through of an element and what is held back are to each other as the exponential of
/// the other element to one.
proof fn lemma_gated<T: Scalar, M: Math<T>>(m: M, v: Reals<T>, x: T, g: T, r: T)
    requires
        exact(m, v),
        attention::gated(m, x, g, r),
    ensures
        v.of(r) == (v.of(x) - v.of(r)) * (v.exp)(v.of(g)),
{
    let s = choose|s: T| #[trigger] elementwise::sigmoid(m, g, s) && arith::multiplied(x, s, r);
    law_sigmoid(m, v, g, s);
    let (a, b, e) = (v.of(x), v.of(s), (v.exp)(v.of(g)));
    lemma_times_minus(a, 1real, b);
    assert(a * 1real == a) by (nonlinear_arith);
    lemma_times_times(a, 1real - b, e);
}

/// Attention in a block, in terms of the rows of its weights and the elements of its input. The
/// result gives the values in between.
///
/// In the query projection each head has its query first and its gates behind it. Queries and
/// keys are normalised by heads and turned for the position; the key and the value of the
/// position are kept; all positions up to this one are attended to; each element of the heads
/// goes through its gate; and the output projection comes last.
pub proof fn law_attention_by_rows<T: Scalar, M: Math<T>>(
    m: M,
    v: Reals<T>,
    config: ModelConfig,
    w: AttentionWeights<T>,
    x: Seq<T>,
    pos: usize,
    keys: Seq<Seq<T>>,
    vals: Seq<Seq<T>>,
    keys_after: Seq<Seq<T>>,
    vals_after: Seq<Seq<T>>,
    y: Seq<T>,
) -> (tr: AttentionTrace<T>)
    requires
        exact(m, v),
        attention::attended(m, config, w, x, pos, keys, vals, keys_after, vals_after, y),
        pos < keys.len(),
        pos < vals.len(),
    ensures
        forall|i: int|
            0 <= i < w.q.dims()[0] ==> arith::dot(
                w.q.elems().subrange(i * x.len(), i * x.len() + x.len()),
                x,
                #[trigger] tr.q_proj[i],
            ),
        forall|i: int|
            0 <= i < w.k.dims()[0] ==> arith::dot(
                w.k.elems().subrange(i * x.len(), i * x.len() + x.len()),
                x,
                #[trigger] tr.k_proj[i],
            ),
        forall|i: int|
            0 <= i < w.v.dims()[0] ==> arith::dot(
                w.v.elems().subrange(i * x.len(), i * x.len() + x.len()),
                x,
                #[trigger] tr.v_proj[i],
            ),
        forall|h: int|
            0 <= h < config.n_heads ==> attention::normed(
                m,
                config.rms_eps,
                tr.q_proj.subrange(
                    2 * (h * config.head_dim),
                    2 * (h * config.head_dim) + config.head_dim,
                ),
                w.q_norm.elems(),
                #[trigger] tensor::row(tr.q_heads, config.head_dim as int, h),
            ),
        forall|h: int|
            0 <= h < config.n_kv_heads ==> attention::normed(
                m,
                config.rms_eps,
                tr.k_proj.subrange(
                    h * config.head_dim,
                    h * config.head_dim + config.head_dim,
                ),
                w.k_norm.elems(),
                #[trigger] tensor::row(tr.k_heads, config.head_dim as int, h),
            ),
        rotary::roped(
            m,
            config,
            pos,
            tr.q_heads,
            config.head_dim as int,
            tr.q_rot,
            tr.k_heads,
            config.head_dim as int,
            keys_after[pos as int],
        ),
        keys_after == keys.update(pos as int, keys_after[pos as int]),
        vals_after == vals.update(
            pos as int,
            tr.v_proj.subrange(0, config.n_kv_heads * config.head_dim),
        ),
        attention::heads_attended(
            m,
            config,
            tr.q_rot,
            keys_after.subrange(0, pos + 1),
            vals_after.subrange(0, pos + 1),
            tr.heads,
        ),
        forall|h: int, e: int|
            0 <= h < config.n_heads && 0 <= e < config.head_dim ==> {
                let (x, r) = (
                    v.of(tr.heads[h * config.head_dim + e]),
                    v.of(#[trigger] tr.gated[h * config.head_dim + e]),
                );
                r == (x - r) * (v.exp)(
                    v.of(tr.q_proj[2 * (h * config.head_dim) + config.head_dim + e]),
                )
            },
        forall|i: int|
            0 <= i < w.out.dims()[0] ==> arith::dot(
                w.out.elems().subrange(
                    i * (config.n_heads * config.head_dim),
                    i * (config.n_heads * config.head_dim) + config.n_heads * config.head_dim,
                ),
                tr.gated,
                #[trigger] y[i],
            ),
{
    let tr = choose|tr: AttentionTrace<T>| #[trigger]
        attention::attention_run(
            m,
            config,
            w,
            x,
            pos,
            keys,
            vals,
            keys_after,
            vals_after,
            y,
            tr,
        );
    let (n, kv, dim) = (config.n_heads as int, config.n_kv_heads as int, config.head_dim as int);
    assert forall|h: int| 0 <= h < n implies attention::normed(
        m,
        config.rms_eps,
        tr.q_proj.subrange(2 * (h * dim), 2 * (h * dim) + dim),
        w.q_norm.elems(),
        #[trigger] tensor::row(tr.q_heads, dim, h),
    ) by {
        assert(h * (2 * dim) == 2 * (h * dim)) by (nonlinear_arith);
    }
    assert forall|h: int, e: int| 0 <= h < n && 0 <= e < dim implies {
        let (x, r) = (v.of(tr.heads[h * dim + e]), v.of(#[trigger] tr.gated[h * dim + e]));
        r == (x - r) * (v.exp)(v.of(tr.q_proj[2 * (h * dim) + dim + e]))
    } by {
        shape::lemma_cell(h, e, n, dim);
        assert(h * (2 * dim) == 2 * (h * dim)) by (nonlinear_arith);
        let gates = attention::gates(tr.q_proj, dim, n);
        assert(gates[h * dim + e] == tr.q_proj[2 * (h * dim) + dim + e]);
        lemma_gated(
            m,
            v,
            tr.heads[h * dim + e],
            gates[h * dim + e],
            tr.gated[h * dim + e],
        );
    }
    assert(keys_after.take(pos + 1) =~= keys_after.subrange(0, pos + 1));
    assert(vals_after.take(pos + 1) =~= vals_after.subrange(0, pos + 1));
    assert(tr.v_proj.take(kv * dim) =~= tr.v_proj.subrange(0, kv * dim));
    assert forall|i: int| 0 <= i < w.q.dims()[0] implies arith::dot(
        w.q.elems().subrange(i * x.len(), i * x.len() + x.len()),
        x,
        #[trigger] tr.q_proj[i],
    ) by {
        assert(tensor::row(w.q.elems(), x.len() as int, i) == w.q.elems().subrange(
            i * x.len(),
            i * x.len() + x.len(),
        ));
    }
    assert forall|i: int| 0 <= i < w.out.dims()[0] implies arith::dot(
        w.out.elems().subrange(i * (n * dim), i * (n * dim) + n * dim),
        tr.gated,
        #[trigger] y[i],
    ) by {
        assert(tensor::row(w.out.elems(), n * dim, i) == w.out.elems().subrange(
            i * (n * dim),
            i * (n * dim) + n * dim,
        ));
    }
    tr
}

} // verus!
