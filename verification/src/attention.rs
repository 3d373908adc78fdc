//! Grouped-query attention with gated output, for one position.

use crate::arith::{self, Math, Scalar};
use crate::cache::{self, KVCache};
use crate::config::ModelConfig;
use crate::elementwise::{self, build, combine, sigmoid_of};
use crate::rotary::{self, rope};
use crate::sequences;
use crate::shape;
use crate::tensor::{self, Tensor};
use vstd::prelude::*;
use vstd::slice::{slice_subrange, slice_to_vec};

verus! {

/// The weights of an attention block, without those of its norms and its feed-forward part.
pub struct AttentionWeights<T> {
    pub q: Tensor<T>,
    pub k: Tensor<T>,
    pub v: Tensor<T>,
    pub out: Tensor<T>,
    pub q_norm: Tensor<T>,
    pub k_norm: Tensor<T>,
}

/// The shapes of the weights go with each other, with the configuration and with an input of
/// `n` elements.
pub open spec fn attention_shapes(
    config: ModelConfig,
    n: int,
    q: Seq<usize>,
    k: Seq<usize>,
    v: Seq<usize>,
    out: Seq<usize>,
    q_norm: Seq<usize>,
    k_norm: Seq<usize>,
) -> bool {
    let (heads, kv_heads, dim) = (
        config.n_heads as int,
        config.n_kv_heads as int,
        config.head_dim as int,
    );
    &&& q.len() == 2 && q[0] >= 2 * (heads * dim) && q[1] == n
    &&& k.len() == 2 && k[0] >= kv_heads * dim && k[1] == n
    &&& v.len() == 2 && v[0] >= kv_heads * dim && v[1] == n
    &&& out.len() == 2 && out[1] == heads * dim
    &&& q_norm =~= seq![config.head_dim]
    &&& k_norm =~= seq![config.head_dim]
}

impl<T> AttentionWeights<T> {
    /// The shapes go with each other, with the configuration and with an input of `n` elements.
    pub open spec fn wf(&self, config: ModelConfig, n: int) -> bool {
        &&& self.q.wf()
        &&& self.k.wf()
        &&& self.v.wf()
        &&& self.out.wf()
        &&& self.q_norm.wf()
        &&& self.k_norm.wf()
        &&& attention_shapes(
            config,
            n,
            self.q.dims(),
            self.k.dims(),
            self.v.dims(),
            self.out.dims(),
            self.q_norm.dims(),
            self.k_norm.dims(),
        )
    }
}

impl ModelConfig {
    /// Attention can be computed: the query heads share the key heads evenly, the part of a head
    /// that is turned is no larger than the head, and the sizes fit the machine.
    pub open spec fn attention_sound(&self) -> bool {
        &&& self.n_kv_heads > 0
        &&& self.n_heads as int % self.n_kv_heads as int == 0
        &&& self.rope_dim / 2 * 2 <= self.head_dim
        &&& 2 * self.head_dim <= usize::MAX
        &&& 2 * (self.n_heads * self.head_dim) <= usize::MAX
        &&& self.n_kv_heads * self.head_dim <= usize::MAX
    }
}

/// `ys` is a value of the root-mean-square normalisation of `xs`; `eps` is an encoding.
pub open spec fn normed<T: Scalar, M: Math<T>>(
    m: M,
    eps: u32,
    xs: Seq<T>,
    ws: Seq<T>,
    ys: Seq<T>,
) -> bool {
    exists|e: T| #[trigger] arith::from_bits(m, eps, e) && tensor::rms_normed(m, xs, ws, e, ys)
}

/// `out` holds values of `count` normalised heads of `dim` elements each; the heads begin
/// `stride` apart in `xs`.
pub open spec fn heads_normed<T: Scalar, M: Math<T>>(
    m: M,
    eps: u32,
    xs: Seq<T>,
    stride: int,
    dim: int,
    count: int,
    ws: Seq<T>,
    out: Seq<T>,
) -> bool {
    &&& out.len() == count * dim
    &&& forall|h: int|
        0 <= h < count ==> normed(
            m,
            eps,
            xs.subrange(h * stride, h * stride + dim),
            ws,
            #[trigger] tensor::row(out, dim, h),
        )
}

/// What gates the outputs of `count` heads of `dim` elements each; in the projection `xs` it
/// stands, for each head, directly behind the query.
pub open spec fn gates<T>(xs: Seq<T>, dim: int, count: int) -> Seq<T> {
    Seq::new((count * dim) as nat, |e: int| xs[e / dim * (2 * dim) + dim + e % dim])
}

/// `r` is a value of the score of a query against a key: their dot product, divided by the root
/// of the number of elements.
pub open spec fn scored<T: Scalar, M: Math<T>>(
    m: M,
    q: Seq<T>,
    k: Seq<T>,
    dim: usize,
    r: T,
) -> bool {
    exists|d: T, n: T, s: T|
        {
            &&& arith::dot(q, k, d)
            &&& #[trigger] arith::from_usize(m, dim, n)
            &&& #[trigger] arith::sqrt(m, n, s)
            &&& #[trigger] arith::divided(d, s, r)
        }
}

/// `scores` holds values of the scores of a query against one head of the keys of the positions
/// so far.
pub open spec fn all_scored<T: Scalar, M: Math<T>>(
    m: M,
    dim: usize,
    q: Seq<T>,
    keys: Seq<Seq<T>>,
    head: int,
    scores: Seq<T>,
) -> bool {
    &&& scores.len() == keys.len()
    &&& forall|t: int|
        0 <= t < scores.len() ==> scored(
            m,
            q,
            tensor::row(keys[t], dim as int, head),
            dim,
            #[trigger] scores[t],
        )
}

/// Element `d` of one head of the values of the positions so far.
pub open spec fn value_column<T>(values: Seq<Seq<T>>, dim: int, head: int, d: int) -> Seq<T> {
    Seq::new(values.len(), |t: int| values[t][head * dim + d])
}

/// `out` is a value of the attention of one query to one head of the keys and values of the
/// positions so far: the values, weighted by the softmax of the scores.
pub open spec fn head_attended<T: Scalar, M: Math<T>>(
    m: M,
    dim: usize,
    q: Seq<T>,
    keys: Seq<Seq<T>>,
    values: Seq<Seq<T>>,
    head: int,
    out: Seq<T>,
) -> bool {
    exists|scores: Seq<T>, ws: Seq<T>|
        {
            &&& #[trigger] all_scored(m, dim, q, keys, head, scores)
            &&& #[trigger] tensor::softmaxed(m, scores, ws)
            &&& out.len() == dim
            &&& forall|d: int|
                0 <= d < dim ==> arith::dot(
                    ws,
                    value_column(values, dim as int, head, d),
                    #[trigger] out[d],
                )
        }
}

/// `r` is a value of `x` times the logistic function of `g`.
pub open spec fn gated<T: Scalar, M: Math<T>>(m: M, x: T, g: T, r: T) -> bool {
    exists|s: T| #[trigger] elementwise::sigmoid(m, g, s) && arith::multiplied(x, s, r)
}

/// The values between the steps of an attention block.
pub struct AttentionTrace<T> {
    pub q_proj: Seq<T>,
    pub k_proj: Seq<T>,
    pub v_proj: Seq<T>,
    pub q_heads: Seq<T>,
    pub k_heads: Seq<T>,
    pub q_rot: Seq<T>,
    pub k_rot: Seq<T>,
    pub heads: Seq<T>,
    pub gated: Seq<T>,
}

/// The projections of the input.
pub open spec fn projected<T: Scalar>(
    w: AttentionWeights<T>,
    x: Seq<T>,
    tr: AttentionTrace<T>,
) -> bool {
    let n = x.len() as int;
    &&& tensor::applied(w.q.elems(), w.q.dims()[0] as int, n, x, tr.q_proj)
    &&& tensor::applied(w.k.elems(), w.k.dims()[0] as int, n, x, tr.k_proj)
    &&& tensor::applied(w.v.elems(), w.v.dims()[0] as int, n, x, tr.v_proj)
}

/// The heads of queries and keys, normalised and turned.
pub open spec fn positioned<T: Scalar, M: Math<T>>(
    m: M,
    config: ModelConfig,
    w: AttentionWeights<T>,
    pos: usize,
    tr: AttentionTrace<T>,
) -> bool {
    let dim = config.head_dim as int;
    let eps = config.rms_eps;
    &&& heads_normed(
        m,
        eps,
        tr.q_proj,
        2 * dim,
        dim,
        config.n_heads as int,
        w.q_norm.elems(),
        tr.q_heads,
    )
    &&& heads_normed(
        m,
        eps,
        tr.k_proj,
        dim,
        dim,
        config.n_kv_heads as int,
        w.k_norm.elems(),
        tr.k_heads,
    )
    &&& rotary::roped(m, config, pos, tr.q_heads, dim, tr.q_rot, tr.k_heads, dim, tr.k_rot)
}

/// The attention of all heads to the positions so far; query heads share key heads in equal
/// groups.
pub open spec fn heads_attended<T: Scalar, M: Math<T>>(
    m: M,
    config: ModelConfig,
    q_rot: Seq<T>,
    keys: Seq<Seq<T>>,
    values: Seq<Seq<T>>,
    out: Seq<T>,
) -> bool {
    let dim = config.head_dim as int;
    let group = config.n_heads as int / config.n_kv_heads as int;
    &&& out.len() == config.n_heads * dim
    &&& forall|h: int|
        0 <= h < config.n_heads ==> head_attended(
            m,
            config.head_dim,
            tensor::row(q_rot, dim, h),
            keys,
            values,
            h / group,
            #[trigger] tensor::row(out, dim, h),
        )
}

/// The keys and values of one layer before and after a position, and the output of attention.
pub open spec fn attention_run<T: Scalar, M: Math<T>>(
    m: M,
    config: ModelConfig,
    w: AttentionWeights<T>,
    x: Seq<T>,
    pos: usize,
    keys: Seq<Seq<T>>,
    values: Seq<Seq<T>>,
    keys_after: Seq<Seq<T>>,
    values_after: Seq<Seq<T>>,
    y: Seq<T>,
    tr: AttentionTrace<T>,
) -> bool {
    let (heads, kv_heads, dim) = (
        config.n_heads as int,
        config.n_kv_heads as int,
        config.head_dim as int,
    );
    &&& projected(w, x, tr)
    &&& positioned(m, config, w, pos, tr)
    &&& keys_after == keys.update(pos as int, tr.k_rot)
    &&& values_after == values.update(pos as int, tr.v_proj.take(kv_heads * dim))
    &&& heads_attended(
        m,
        config,
        tr.q_rot,
        keys_after.take(pos + 1),
        values_after.take(pos + 1),
        tr.heads,
    )
    &&& elementwise::each_pair(
        tr.heads,
        gates(tr.q_proj, dim, heads),
        |c: T, g: T, r: T| gated(m, c, g, r),
        tr.gated,
    )
    &&& tensor::applied(w.out.elems(), w.out.dims()[0] as int, heads * dim, tr.gated, y)
}

/// `y` is a value of the output of attention at a position, and the keys and values of the layer
/// change with it.
pub open spec fn attended<T: Scalar, M: Math<T>>(
    m: M,
    config: ModelConfig,
    w: AttentionWeights<T>,
    x: Seq<T>,
    pos: usize,
    keys: Seq<Seq<T>>,
    values: Seq<Seq<T>>,
    keys_after: Seq<Seq<T>>,
    values_after: Seq<Seq<T>>,
    y: Seq<T>,
) -> bool {
    exists|tr: AttentionTrace<T>| #[trigger]
        attention_run(m, config, w, x, pos, keys, values, keys_after, values_after, y, tr)
}

/// Attention is causal: its output at a position does not depend on the keys and values of that
/// or any later position.
pub proof fn law_attention_is_causal<T: Scalar, M: Math<T>>(
    m: M,
    config: ModelConfig,
    w: AttentionWeights<T>,
    x: Seq<T>,
    pos: usize,
    keys: Seq<Seq<T>>,
    values: Seq<Seq<T>>,
    keys_after: Seq<Seq<T>>,
    values_after: Seq<Seq<T>>,
    y: Seq<T>,
    other_keys: Seq<Seq<T>>,
    other_values: Seq<Seq<T>>,
)
    requires
        attended(m, config, w, x, pos, keys, values, keys_after, values_after, y),
        pos < keys.len(),
        pos < values.len(),
        pos < other_keys.len(),
        pos < other_values.len(),
        other_keys.take(pos as int) == keys.take(pos as int),
        other_values.take(pos as int) == values.take(pos as int),
    ensures
        attended(
            m,
            config,
            w,
            x,
            pos,
            other_keys,
            other_values,
            other_keys.update(pos as int, keys_after[pos as int]),
            other_values.update(pos as int, values_after[pos as int]),
            y,
        ),
{
    let tr = choose|tr: AttentionTrace<T>| #[trigger]
        attention_run(m, config, w, x, pos, keys, values, keys_after, values_after, y, tr);
    let p = pos as int;
    let keys2 = other_keys.update(p, keys_after[p]);
    let values2 = other_values.update(p, values_after[p]);
    lemma_same_past(keys, other_keys, p, tr.k_rot);
    lemma_same_past(
        values,
        other_values,
        p,
        tr.v_proj.take(config.n_kv_heads as int * config.head_dim as int),
    );
    assert(attention_run(m, config, w, x, pos, other_keys, other_values, keys2, values2, y, tr));
}

/// Rows that agree up to a place agree up to behind it once the row at this place is replaced.
proof fn lemma_same_past<T>(a: Seq<Seq<T>>, b: Seq<Seq<T>>, p: int, row: Seq<T>)
    requires
        0 <= p < a.len(),
        p < b.len(),
        a.take(p) == b.take(p),
    ensures
        a.update(p, row).take(p + 1) == b.update(p, row).take(p + 1),
{
    assert forall|i: int| 0 <= i < p implies a[i] == b[i] by {
        assert(a.take(p)[i] == b.take(p)[i]);
    }
    assert(a.update(p, row).take(p + 1) =~= b.update(p, row).take(p + 1));
}

/// A vector of the given elements.
pub(crate) fn vector<T: Copy>(data: Vec<T>) -> (r: Tensor<T>)
    ensures
        r.wf(),
        r.is_vector(data@.len() as int),
        r.elems() == data@,
{
    let shape = vec![data.len()];
    proof {
        shape::lemma_vector_shape(shape@);
    }
    Tensor::from_vec(data, shape)
}

/// The root-mean-square normalisation of a vector.
pub(crate) fn normed_of<T: Scalar, M: Math<T>>(
    m: &M,
    eps: u32,
    xs: &Tensor<T>,
    ws: &Tensor<T>,
) -> (r: Tensor<T>)
    requires
        arith::total::<T>(),
        xs.wf(),
        ws.wf(),
        xs.dims() == ws.dims(),
    ensures
        r.wf(),
        r.dims() == xs.dims(),
        normed(*m, eps, xs.elems(), ws.elems(), r.elems()),
{
    let e = m.from_bits(eps);
    assert(arith::from_bits(*m, eps, e));
    xs.rms_norm(ws, e, m)
}

/// The normalised heads, one behind the other.
pub(crate) fn heads_normed_of<T: Scalar, M: Math<T>>(
    m: &M,
    eps: u32,
    xs: &[T],
    stride: usize,
    dim: usize,
    count: usize,
    ws: &Tensor<T>,
) -> (r: Vec<T>)
    requires
        arith::total::<T>(),
        stride >= dim,
        count * stride <= xs@.len(),
        ws.wf(),
        ws.dims() =~= seq![dim],
    ensures
        heads_normed(
            *m,
            eps,
            xs@,
            stride as int,
            dim as int,
            count as int,
            ws.elems(),
            r@,
        ),
{
    assert(xs.len() == xs@.len());
    let ghost (s, d) = (stride as int, dim as int);
    let mut r: Vec<T> = Vec::new();
    let mut h: usize = 0;
    assert(0 * d == 0) by (nonlinear_arith);
    while h < count
        invariant
            arith::total::<T>(),
            h <= count,
            stride == s >= d,
            dim == d,
            count * s <= xs@.len() <= usize::MAX,
            ws.wf(),
            ws.dims() =~= seq![dim],
            heads_normed(*m, eps, xs@, s, d, h as int, ws.elems(), r@),
        decreases count - h,
    {
        assert(0 <= h * s && h * s + s <= count * s) by (nonlinear_arith)
            requires
                0 <= h < count,
                s >= 0,
        ;
        let head = vector(slice_to_vec(slice_subrange(xs, h * stride, h * stride + dim)));
        assert(head.dims() =~= ws.dims());
        let out = normed_of(m, eps, &head, ws);
        let mut piece = slice_to_vec(out.data());
        proof {
            tensor::lemma_push_row(r@, d, h as int, out.elems());
        }
        r.append(&mut piece);
        h += 1;
    }
    r
}

/// What gates the outputs of the heads, one behind the other.
fn gates_of<T: Scalar>(xs: &[T], dim: usize, count: usize) -> (r: Vec<T>)
    requires
        2 * (count * dim) <= xs@.len(),
    ensures
        r@ == gates(xs@, dim as int, count as int),
{
    assert(xs.len() == xs@.len());
    let ghost (d, c) = (dim as int, count as int);
    assert(c * d >= 0) by (nonlinear_arith)
        requires
            c >= 0,
            d >= 0,
    ;
    let r = build(
        count * dim,
        |e: usize| -> (x: T)
            requires
                e < c * d
            ensures
                x == xs@[e as int / d * (2 * d) + d + e as int % d]
        {
            proof {
                let h = e as int / d;
                shape::lemma_uncell(e as int, c, d);
                shape::lemma_cell(h, 0, c, 2 * d);
                assert(c * (2 * d) == 2 * (c * d)) by (nonlinear_arith);
            }
            xs[e / dim * (2 * dim) + dim + e % dim]
        },
    );
    assert(r@ =~= gates(xs@, d, c));
    r
}

/// The score of a query against a key that begins at `start` in `keys`.
fn score_of<T: Scalar, M: Math<T>>(m: &M, q: &[T], keys: &[T], start: usize, dim: usize) -> (r: T)
    requires
        arith::total::<T>(),
        q@.len() == dim,
        start + dim <= keys@.len(),
    ensures
        scored(*m, q@, keys@.subrange(start as int, start + dim), dim, r),
{
    let d = arith::strided_dot(q, 0, keys, start, 1, dim);
    assert(q@.subrange(0, dim as int) =~= q@);
    assert(arith::strided(keys@, start as int, 1, dim as int) =~= keys@.subrange(
        start as int,
        start + dim,
    ));
    let n = m.from_usize(dim);
    let s = m.sqrt(n);
    let r = d / s;
    assert(arith::from_usize(*m, dim, n) && arith::sqrt(*m, n, s) && arith::divided(d, s, r));
    r
}

/// Where a row of a head begins in tables of rows of `width` elements, one behind the other.
proof fn lemma_head_row<T>(rows: Seq<Seq<T>>, width: int, heads: int, dim: int, t: int, head: int)
    requires
        forall|i: int| 0 <= i < rows.len() ==> (#[trigger] rows[i]).len() == width,
        width == heads * dim,
        dim >= 0,
        0 <= t < rows.len(),
        0 <= head < heads,
    ensures
        0 <= head * dim,
        head * dim + dim <= width,
        0 <= t * width,
        t * width + width <= sequences::flat(rows).len(),
        tensor::row(rows[t], dim, head) == sequences::flat(rows).subrange(
            t * width + head * dim,
            t * width + head * dim + dim,
        ),
        forall|d: int|
            0 <= d < dim ==> rows[t][head * dim + d] == #[trigger] sequences::flat(rows)[t * width
                + head * dim + d],
{
    assert(0 <= head * dim && head * dim + dim <= heads * dim) by (nonlinear_arith)
        requires
            0 <= head < heads,
            dim >= 0,
    ;
    cache::lemma_flat(rows, width);
    assert(0 <= t * width && t * width + width <= rows.len() * width) by (nonlinear_arith)
        requires
            0 <= t < rows.len(),
            width >= 0,
    ;
    let all = sequences::flat(rows);
    assert(tensor::row(all, width, t) == rows[t]);
    assert(tensor::row(rows[t], dim, head) =~= all.subrange(
        t * width + head * dim,
        t * width + head * dim + dim,
    ));
    assert forall|d: int| 0 <= d < dim implies rows[t][head * dim + d] == #[trigger] all[t * width
        + head * dim + d] by {
        assert(tensor::row(all, width, t)[head * dim + d] == all[t * width + (head * dim + d)]);
    }
}

/// The attention of one query to one head of the keys and values of the positions so far.
fn head_attended_of<T: Scalar, M: Math<T>>(
    m: &M,
    config: &ModelConfig,
    q: &[T],
    keys: &[T],
    values: &[T],
    Ghost(key_rows): Ghost<Seq<Seq<T>>>,
    Ghost(value_rows): Ghost<Seq<Seq<T>>>,
    positions: usize,
    head: usize,
) -> (r: Vec<T>)
    requires
        arith::total::<T>(),
        q@.len() == config.head_dim,
        head < config.n_kv_heads,
        config.n_kv_heads * config.head_dim <= usize::MAX,
        keys@ == sequences::flat(key_rows),
        values@ == sequences::flat(value_rows),
        key_rows.len() == positions,
        value_rows.len() == positions,
        forall|i: int|
            0 <= i < positions ==> (#[trigger] key_rows[i]).len() == config.n_kv_heads
                * config.head_dim,
        forall|i: int|
            0 <= i < positions ==> (#[trigger] value_rows[i]).len() == config.n_kv_heads
                * config.head_dim,
    ensures
        head_attended(*m, config.head_dim, q@, key_rows, value_rows, head as int, r@),
{
    assert(keys.len() == keys@.len() && values.len() == values@.len());
    let dim = config.head_dim;
    let width = config.n_kv_heads * config.head_dim;
    let ghost (h, g, d, w) = (config.n_kv_heads as int, head as int, dim as int, width as int);
    let scores = build(
        positions,
        |t: usize| -> (s: T)
            requires
                t < positions
            ensures
                scored(*m, q@, tensor::row(key_rows[t as int], d, g), dim, s)
        {
            proof {
                lemma_head_row(key_rows, w, h, d, t as int, g);
            }
            score_of(m, q, keys, t * width + head * dim, dim)
        },
    );
    assert(all_scored(*m, dim, q@, key_rows, g, scores@));
    let ws = vector(scores).softmax(m);
    let weights = ws.data();
    let r = build(
        dim,
        |e: usize| -> (x: T)
            requires
                e < d
            ensures
                arith::dot(weights@, value_column(value_rows, d, g, e as int), x)
        {
            let ghost column = value_column(value_rows, d, g, e as int);
            proof {
                assert(0 <= g * d && g * d + d <= h * d) by (nonlinear_arith)
                    requires
                        0 <= g < h,
                        d >= 0,
                ;
                if positions > 0 {
                    lemma_head_row(value_rows, w, h, d, positions - 1, g);
                }
                let all = arith::strided(values@, g * d + e, w, positions as int);
                assert forall|t: int| 0 <= t < positions implies #[trigger] all[t] == column[t] by {
                    lemma_head_row(value_rows, w, h, d, t, g);
                    assert(values@[t * w + g * d + e] == value_rows[t][g * d + e]);
                }
                assert(all =~= column);
                assert(weights@.subrange(0, positions as int) =~= weights@);
            }
            arith::strided_dot(weights, 0, values, head * dim + e, width, positions)
        },
    );
    r
}

/// The attention of all heads, one behind the other.
fn heads_attended_of<T: Scalar, M: Math<T>>(
    m: &M,
    config: &ModelConfig,
    q_rot: &[T],
    keys: &[T],
    values: &[T],
    Ghost(key_rows): Ghost<Seq<Seq<T>>>,
    Ghost(value_rows): Ghost<Seq<Seq<T>>>,
    positions: usize,
) -> (r: Vec<T>)
    requires
        arith::total::<T>(),
        config.attention_sound(),
        q_rot@.len() == config.n_heads * config.head_dim,
        config.n_kv_heads * config.head_dim <= usize::MAX,
        keys@ == sequences::flat(key_rows),
        values@ == sequences::flat(value_rows),
        key_rows.len() == positions,
        value_rows.len() == positions,
        forall|i: int|
            0 <= i < positions ==> (#[trigger] key_rows[i]).len() == config.n_kv_heads
                * config.head_dim,
        forall|i: int|
            0 <= i < positions ==> (#[trigger] value_rows[i]).len() == config.n_kv_heads
                * config.head_dim,
    ensures
        heads_attended(*m, *config, q_rot@, key_rows, value_rows, r@),
{
    assert(q_rot.len() == q_rot@.len());
    let dim = config.head_dim;
    let heads = config.n_heads;
    let group = heads / config.n_kv_heads;
    let ghost (d, n, kv) = (dim as int, heads as int, config.n_kv_heads as int);
    let mut r: Vec<T> = Vec::new();
    let mut h: usize = 0;
    assert(0 * d == 0) by (nonlinear_arith);
    while h < heads
        invariant
            arith::total::<T>(),
            h <= heads,
            heads == config.n_heads == n,
            dim == config.head_dim == d,
            config.n_kv_heads == kv,
            kv > 0,
            n % kv == 0,
            group == n / kv,
            q_rot@.len() == n * d <= usize::MAX,
            config.n_kv_heads * config.head_dim <= usize::MAX,
            keys@ == sequences::flat(key_rows),
            values@ == sequences::flat(value_rows),
            key_rows.len() == positions,
            value_rows.len() == positions,
            forall|i: int|
                0 <= i < positions ==> (#[trigger] key_rows[i]).len() == config.n_kv_heads
                    * config.head_dim,
            forall|i: int|
                0 <= i < positions ==> (#[trigger] value_rows[i]).len() == config.n_kv_heads
                    * config.head_dim,
            r@.len() == h * d,
            forall|g: int|
                0 <= g < h ==> head_attended(
                    *m,
                    config.head_dim,
                    tensor::row(q_rot@, d, g),
                    key_rows,
                    value_rows,
                    g / (n / kv),
                    #[trigger] tensor::row(r@, d, g),
                ),
        decreases heads - h,
    {
        proof {
            lemma_group(h as int, n, kv);
            assert(0 <= h * d && h * d + d <= n * d) by (nonlinear_arith)
                requires
                    0 <= h < n,
                    d >= 0,
            ;
        }
        let q = slice_subrange(q_rot, h * dim, h * dim + dim);
        let mut out = head_attended_of(
            m,
            config,
            q,
            keys,
            values,
            Ghost(key_rows),
            Ghost(value_rows),
            positions,
            h / group,
        );
        proof {
            tensor::lemma_push_row(r@, d, h as int, out@);
        }
        r.append(&mut out);
        h += 1;
    }
    r
}

/// The key head of a query head, where the query heads share the key heads evenly.
proof fn lemma_group(h: int, heads: int, kv_heads: int)
    requires
        kv_heads > 0,
        0 <= h < heads,
        heads % kv_heads == 0,
    ensures
        heads / kv_heads > 0,
        0 <= h / (heads / kv_heads) < kv_heads,
{
    let g = heads / kv_heads;
    vstd::arithmetic::div_mod::lemma_fundamental_div_mod(heads, kv_heads);
    assert(g > 0) by (nonlinear_arith)
        requires
            heads == kv_heads * g,
            heads > 0,
            kv_heads > 0,
    ;
    vstd::arithmetic::div_mod::lemma_fundamental_div_mod(h, g);
    let q = h / g;
    assert(0 <= q < kv_heads) by (nonlinear_arith)
        requires
            h == g * q + h % g,
            0 <= h % g < g,
            0 <= h < kv_heads * g,
            g > 0,
    ;
}

/// Gated grouped-query attention of the vector `x` at a position: sets the key and the value of
/// the position, and attends to all positions up to it.
pub fn attend<T: Scalar, M: Math<T>>(
    m: &M,
    config: &ModelConfig,
    w: &AttentionWeights<T>,
    x: &Tensor<T>,
    layer: usize,
    pos: usize,
    cache: &mut KVCache<T>,
) -> (y: Tensor<T>)
    requires
        arith::total::<T>(),
        config.attention_sound(),
        x.wf(),
        x.dims().len() == 1,
        w.wf(*config, x.dims()[0] as int),
        old(cache).wf(config),
        layer < config.n_layers,
        pos < old(cache).positions(),
    ensures
        y.wf(),
        y.is_vector(w.out.dims()[0] as int),
        final(cache).wf(config),
        final(cache).positions() == old(cache).positions(),
        final(cache).keys() == old(cache).keys().update(
            layer as int,
            final(cache).keys()[layer as int],
        ),
        final(cache).values() == old(cache).values().update(
            layer as int,
            final(cache).values()[layer as int],
        ),
        attended(
            *m,
            *config,
            *w,
            x.elems(),
            pos,
            old(cache).keys()[layer as int],
            old(cache).values()[layer as int],
            final(cache).keys()[layer as int],
            final(cache).values()[layer as int],
            y.elems(),
        ),
{
    let dim = config.head_dim;
    let heads = config.n_heads;
    let kv_heads = config.n_kv_heads;
    let ghost (d, n, kv) = (dim as int, heads as int, kv_heads as int);
    proof {
        shape::lemma_vector_shape(x.dims());
        shape::lemma_row_fits(cache.positions(), kv_heads, dim);
        assert(n * d >= 0 && n * (2 * d) == 2 * (n * d)) by (nonlinear_arith)
            requires
                n >= 0,
                d >= 0,
        ;
    }
    let q_proj = w.q.matvec(x);
    let k_proj = w.k.matvec(x);
    let v_proj = w.v.matvec(x);

    let q_heads = heads_normed_of(m, config.rms_eps, q_proj.data(), 2 * dim, dim, heads, &w.q_norm);
    let k_heads = heads_normed_of(m, config.rms_eps, k_proj.data(), dim, dim, kv_heads, &w.k_norm);
    let gate = gates_of(q_proj.data(), dim, heads);
    let value = slice_to_vec(slice_subrange(v_proj.data(), 0, kv_heads * dim));

    let q_stacked = matrix(q_heads, heads, dim);
    let k_stacked = matrix(k_heads, kv_heads, dim);
    let v_stacked = matrix(value, kv_heads, dim);
    let (q_rot, k_rot) = rope(&q_stacked, &k_stacked, pos, config, m);

    cache.update(config, layer, pos, &k_rot, &v_stacked);
    proof {
        cache::lemma_whole_corner(k_rot.elems(), kv, d);
        cache::lemma_whole_corner(v_stacked.elems(), kv, d);
    }
    let ghost keys_after = cache.keys()[layer as int];
    let ghost values_after = cache.values()[layer as int];
    let keys = cache.get_keys_up_to(layer, pos + 1, config);
    let values = cache.get_values_up_to(layer, pos + 1, config);
    let out = heads_attended_of(
        m,
        config,
        q_rot.data(),
        keys.data(),
        values.data(),
        Ghost(keys_after.take(pos + 1)),
        Ghost(values_after.take(pos + 1)),
        pos + 1,
    );
    let gated_out = combine(
        out.as_slice(),
        gate.as_slice(),
        |c: T, g: T| -> (r: T)
            ensures
                gated(*m, c, g, r)
        {
            let s = sigmoid_of(m, g);
            c * s
        },
    );
    let gated_vector = vector(gated_out);
    let y = w.out.matvec(&gated_vector);
    proof {
        let tr = AttentionTrace {
            q_proj: q_proj.elems(),
            k_proj: k_proj.elems(),
            v_proj: v_proj.elems(),
            q_heads: q_stacked.elems(),
            k_heads: k_stacked.elems(),
            q_rot: q_rot.elems(),
            k_rot: k_rot.elems(),
            heads: out@,
            gated: gated_vector.elems(),
        };
        assert(projected(*w, x.elems(), tr));
        assert(positioned(*m, *config, *w, pos, tr));
        assert(v_proj.elems().take(kv * d) =~= v_stacked.elems());
        assert(attention_run(
            *m,
            *config,
            *w,
            x.elems(),
            pos,
            old(cache).keys()[layer as int],
            old(cache).values()[layer as int],
            keys_after,
            values_after,
            y.elems(),
            tr,
        ));
    }
    y
}

/// A matrix of the given elements.
pub(crate) fn matrix<T: Copy>(data: Vec<T>, rows: usize, cols: usize) -> (r: Tensor<T>)
    requires
        data@.len() == rows * cols,
        rows * cols <= usize::MAX,
    ensures
        r.wf(),
        r.is_matrix(rows as int, cols as int),
        r.elems() == data@,
{
    let shape = vec![rows, cols];
    proof {
        shape::lemma_matrix_shape(shape@);
    }
    Tensor::from_vec(data, shape)
}

} // verus!
