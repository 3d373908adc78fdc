//! The model: its blocks, and the pass of one token through them.

use crate::arith::{self, Math, Scalar};
use crate::attention::{self, attend, normed_of, vector, AttentionTrace, AttentionWeights};
use crate::cache::{self, KVCache, SSMState, CONV_KERNEL};
use crate::config::ModelConfig;
use crate::elementwise;
use crate::feedforward::{self, feed_forward, FfnWeights};
use crate::gguf::{FileRecord, GGUFError};
use crate::names::{self, block_name_of};
use crate::recurrent::{self, recur, RecurrentWeights};
use crate::shape::{self, product};
use crate::tensor::{self, Tensor};
use crate::weights::{self, WeightStore};
use vstd::prelude::*;
use vstd::slice::{slice_subrange, slice_to_vec};

verus! {

/// Where weights come from: a file, as parsed and as bytes, and the arithmetic they are decoded
/// with.
pub struct Origin<M> {
    pub math: M,
    pub file: FileRecord,
    pub bytes: Seq<u8>,
}

/// `t` is a value of the weight of the given name.
pub open spec fn is_weight<T: Scalar, M: Math<T>>(
    o: Origin<M>,
    name: Seq<char>,
    t: Tensor<T>,
) -> bool {
    weights::decoded(o.math, o.file, o.bytes, name, t)
}

/// Why the weight of the given name cannot be had, if it cannot.
pub open spec fn weight_error<M>(o: Origin<M>, name: Seq<char>) -> Option<GGUFError> {
    match weights::decodable(o.file, o.bytes.len() as int, name) {
        Ok(_) => None,
        Err(e) => Some(e),
    }
}

/// The dimensions of the weight of the given name, where it can be had.
pub open spec fn weight_dims<M>(o: Origin<M>, name: Seq<char>) -> Seq<usize> {
    weights::dims_of((weights::decodable(o.file, o.bytes.len() as int, name)->Ok_0).shape)
}

/// The first of two errors.
pub open spec fn either(a: Option<GGUFError>, b: Option<GGUFError>) -> Option<GGUFError> {
    if a is Some {
        a
    } else {
        b
    }
}

/// An error where the shapes do not fit.
pub open spec fn misfit(fits: bool) -> Option<GGUFError> {
    if fits {
        None
    } else {
        Some(GGUFError::InvalidShape)
    }
}

/// The name of a weight of a block.
pub open spec fn name(layer: usize, suffix: Seq<char>) -> Seq<char> {
    names::block_name(layer as nat, suffix)
}

/// Why attention cannot be computed on an input of `n` elements, if it cannot.
pub open spec fn attention_error<M>(
    o: Origin<M>,
    config: ModelConfig,
    layer: usize,
    n: int,
) -> Option<GGUFError> {
    let q = name(layer, "attn_q.weight"@);
    let k = name(layer, "attn_k.weight"@);
    let v = name(layer, "attn_v.weight"@);
    let out = name(layer, "attn_output.weight"@);
    let q_norm = name(layer, "attn_q_norm.weight"@);
    let k_norm = name(layer, "attn_k_norm.weight"@);
    either(
        weight_error(o, q),
        either(
            weight_error(o, k),
            either(
                weight_error(o, v),
                either(
                    weight_error(o, out),
                    either(
                        weight_error(o, q_norm),
                        either(
                            weight_error(o, k_norm),
                            misfit(
                                attention::attention_shapes(
                                    config,
                                    n,
                                    weight_dims(o, q),
                                    weight_dims(o, k),
                                    weight_dims(o, v),
                                    weight_dims(o, out),
                                    weight_dims(o, q_norm),
                                    weight_dims(o, k_norm),
                                ),
                            ),
                        ),
                    ),
                ),
            ),
        ),
    )
}

/// The weights of attention in a block.
pub open spec fn is_attention<T: Scalar, M: Math<T>>(
    o: Origin<M>,
    layer: usize,
    w: AttentionWeights<T>,
) -> bool {
    &&& is_weight(o, name(layer, "attn_q.weight"@), w.q)
    &&& is_weight(o, name(layer, "attn_k.weight"@), w.k)
    &&& is_weight(o, name(layer, "attn_v.weight"@), w.v)
    &&& is_weight(o, name(layer, "attn_output.weight"@), w.out)
    &&& is_weight(o, name(layer, "attn_q_norm.weight"@), w.q_norm)
    &&& is_weight(o, name(layer, "attn_k_norm.weight"@), w.k_norm)
}

/// Why the feed-forward part of a block cannot be computed on an input of `n` elements, if it
/// cannot.
pub open spec fn ffn_error<M>(o: Origin<M>, layer: usize, n: int) -> Option<GGUFError> {
    let gate = name(layer, "ffn_gate.weight"@);
    let up = name(layer, "ffn_up.weight"@);
    let down = name(layer, "ffn_down.weight"@);
    either(
        weight_error(o, gate),
        either(
            weight_error(o, up),
            either(
                weight_error(o, down),
                misfit(
                    feedforward::ffn_shapes(
                        n,
                        weight_dims(o, gate),
                        weight_dims(o, up),
                        weight_dims(o, down),
                    ),
                ),
            ),
        ),
    )
}

/// The weights of the feed-forward part of a block.
pub open spec fn is_ffn<T: Scalar, M: Math<T>>(
    o: Origin<M>,
    layer: usize,
    w: FfnWeights<T>,
) -> bool {
    &&& is_weight(o, name(layer, "ffn_gate.weight"@), w.gate)
    &&& is_weight(o, name(layer, "ffn_up.weight"@), w.up)
    &&& is_weight(o, name(layer, "ffn_down.weight"@), w.down)
}

/// Why an attention block cannot be computed on an input of `n` elements, if it cannot.
#[verifier::opaque]
pub open spec fn transformer_error<M>(
    o: Origin<M>,
    config: ModelConfig,
    layer: usize,
    n: usize,
) -> Option<GGUFError> {
    let norm1 = name(layer, "attn_norm.weight"@);
    let norm2 = name(layer, "post_attention_norm.weight"@);
    either(
        weight_error(o, norm1),
        either(
            attention_error(o, config, layer, n as int),
            either(
                weight_error(o, norm2),
                either(
                    ffn_error(o, layer, n as int),
                    misfit(
                        {
                            &&& weight_dims(o, norm1) =~= seq![n]
                            &&& weight_dims(o, norm2) =~= seq![n]
                            &&& weight_dims(o, name(layer, "attn_output.weight"@))[0] == n
                            &&& weight_dims(o, name(layer, "ffn_down.weight"@))[0] == n
                        },
                    ),
                ),
            ),
        ),
    )
}

/// The weights of an attention block, and the values between its steps.
pub struct TransformerTrace<T> {
    pub norm1: Tensor<T>,
    pub attention: AttentionWeights<T>,
    pub norm2: Tensor<T>,
    pub ffn: FfnWeights<T>,
    pub normed1: Seq<T>,
    pub attended: Seq<T>,
    pub middle: Seq<T>,
    pub normed2: Seq<T>,
    pub fed: Seq<T>,
}

/// The steps of an attention block: attention and the feed-forward part, each on its normalised
/// input, and each added to that input.
pub open spec fn transformer_run<T: Scalar, M: Math<T>>(
    o: Origin<M>,
    config: ModelConfig,
    layer: usize,
    x: Seq<T>,
    pos: usize,
    keys: Seq<Seq<T>>,
    values: Seq<Seq<T>>,
    keys_after: Seq<Seq<T>>,
    values_after: Seq<Seq<T>>,
    y: Seq<T>,
    tr: TransformerTrace<T>,
) -> bool {
    let m = o.math;
    &&& is_weight(o, name(layer, "attn_norm.weight"@), tr.norm1)
    &&& is_attention(o, layer, tr.attention)
    &&& is_weight(o, name(layer, "post_attention_norm.weight"@), tr.norm2)
    &&& is_ffn(o, layer, tr.ffn)
    &&& attention::normed(m, config.rms_eps, x, tr.norm1.elems(), tr.normed1)
    &&& attention::attended(
        m,
        config,
        tr.attention,
        tr.normed1,
        pos,
        keys,
        values,
        keys_after,
        values_after,
        tr.attended,
    )
    &&& elementwise::each_pair(
        x,
        tr.attended,
        |a: T, b: T, c: T| arith::added(a, b, c),
        tr.middle,
    )
    &&& attention::normed(m, config.rms_eps, tr.middle, tr.norm2.elems(), tr.normed2)
    &&& feedforward::fed_forward(m, tr.ffn, tr.normed2, tr.fed)
    &&& elementwise::each_pair(tr.middle, tr.fed, |a: T, b: T, c: T| arith::added(a, b, c), y)
}

/// `y` is a value of the output of an attention block at a position, and the keys and values of
/// the layer change with it.
pub open spec fn transformed<T: Scalar, M: Math<T>>(
    o: Origin<M>,
    config: ModelConfig,
    layer: usize,
    x: Seq<T>,
    pos: usize,
    keys: Seq<Seq<T>>,
    values: Seq<Seq<T>>,
    keys_after: Seq<Seq<T>>,
    values_after: Seq<Seq<T>>,
    y: Seq<T>,
) -> bool {
    exists|tr: TransformerTrace<T>| #[trigger]
        transformer_run(o, config, layer, x, pos, keys, values, keys_after, values_after, y, tr)
}

/// Why a recurrent block cannot be computed on an input of `n` elements, if it cannot.
pub open spec fn ssm_error<M>(
    o: Origin<M>,
    config: ModelConfig,
    layer: usize,
    n: int,
) -> Option<GGUFError> {
    let qkv = name(layer, "attn_qkv.weight"@);
    let gate = name(layer, "attn_gate.weight"@);
    let conv = name(layer, "ssm_conv1d.weight"@);
    let a = name(layer, "ssm_a"@);
    let alpha = name(layer, "ssm_alpha.weight"@);
    let beta = name(layer, "ssm_beta.weight"@);
    let dt = name(layer, "ssm_dt.bias"@);
    let norm = name(layer, "ssm_norm.weight"@);
    let out = name(layer, "ssm_out.weight"@);
    either(
        weight_error(o, qkv),
        either(
            weight_error(o, gate),
            either(
                weight_error(o, conv),
                either(
                    weight_error(o, a),
                    either(
                        weight_error(o, alpha),
                        either(
                            weight_error(o, beta),
                            either(
                                weight_error(o, dt),
                                either(
                                    weight_error(o, norm),
                                    either(
                                        weight_error(o, out),
                                        misfit(
                                            recurrent::recurrent_shapes(
                                                config,
                                                n,
                                                weight_dims(o, qkv),
                                                weight_dims(o, gate),
                                                weight_dims(o, conv),
                                                weight_dims(o, a),
                                                weight_dims(o, alpha),
                                                weight_dims(o, beta),
                                                weight_dims(o, dt),
                                                weight_dims(o, norm),
                                                weight_dims(o, out),
                                            ),
                                        ),
                                    ),
                                ),
                            ),
                        ),
                    ),
                ),
            ),
        ),
    )
}

/// The weights of a recurrent block.
pub open spec fn is_recurrent<T: Scalar, M: Math<T>>(
    o: Origin<M>,
    layer: usize,
    w: RecurrentWeights<T>,
) -> bool {
    &&& is_weight(o, name(layer, "attn_qkv.weight"@), w.qkv)
    &&& is_weight(o, name(layer, "attn_gate.weight"@), w.gate)
    &&& is_weight(o, name(layer, "ssm_conv1d.weight"@), w.conv)
    &&& is_weight(o, name(layer, "ssm_a"@), w.a)
    &&& is_weight(o, name(layer, "ssm_alpha.weight"@), w.alpha)
    &&& is_weight(o, name(layer, "ssm_beta.weight"@), w.beta)
    &&& is_weight(o, name(layer, "ssm_dt.bias"@), w.dt)
    &&& is_weight(o, name(layer, "ssm_norm.weight"@), w.norm)
    &&& is_weight(o, name(layer, "ssm_out.weight"@), w.out)
}

/// A model: its hyperparameters and its weights.
#[verifier::reject_recursive_types(T)]
pub struct Model<'a, T, M> {
    pub config: ModelConfig,
    pub weights: WeightStore<'a, T, M>,
}

impl<'a, T: Scalar, M: Math<T>> Model<'a, T, M> {
    /// Where the weights come from.
    pub open spec fn origin(&self) -> Origin<M> {
        Origin {
            math: self.weights.arithmetic(),
            file: self.weights.file(),
            bytes: self.weights.source(),
        }
    }

    /// What the store keeps is true to the file.
    pub open spec fn wf(&self) -> bool {
        self.weights.wf()
    }

    /// The same model, which may have decoded more weights.
    pub open spec fn continues(&self, before: &Self) -> bool {
        &&& self.config == before.config
        &&& self.weights.extends(&before.weights)
    }

    /// A model with the given hyperparameters and weights.
    pub fn new(config: ModelConfig, weights: WeightStore<'a, T, M>) -> (model: Self)
        ensures
            model.config == config,
            model.weights == weights,
    {
        Model { config, weights }
    }

    /// The store of the weights.
    pub fn weights(&self) -> (r: &WeightStore<'a, T, M>)
        ensures
            *r == self.weights,
    {
        &self.weights
    }

    /// Loads a weight that can be had.
    fn fetch(&mut self, name: &str) -> (t: Tensor<T>)
        requires
            arith::total::<T>(),
            old(self).wf(),
            weight_error(old(self).origin(), name@) is None,
        ensures
            final(self).continues(old(self)),
            final(self).origin() == old(self).origin(),
            is_weight(old(self).origin(), name@, t),
            t.dims() == weight_dims(old(self).origin(), name@),
    {
        match self.weights.load(name) {
            Ok(t) => t,
            Err(_) => vstd::pervasive::unreached(),
        }
    }

    /// Why attention cannot be computed on an input of `n` elements, if it cannot.
    fn check_attention(&self, layer: usize, n: usize) -> (r: Option<GGUFError>)
        requires
            self.config.attention_sound(),
        ensures
            r == attention_error(self.origin(), self.config, layer, n as int),
    {
        let cfg = &self.config;
        assert(cfg.n_heads * cfg.head_dim >= 0 && cfg.n_kv_heads * cfg.head_dim >= 0)
            by (nonlinear_arith)
            requires
                cfg.n_heads >= 0,
                cfg.head_dim >= 0,
                cfg.n_kv_heads >= 0,
        ;
        let q = match self.weights.dims(block_name_of(layer, "attn_q.weight").as_str()) {
            Ok(dims) => dims,
            Err(e) => return Some(e),
        };
        let k = match self.weights.dims(block_name_of(layer, "attn_k.weight").as_str()) {
            Ok(dims) => dims,
            Err(e) => return Some(e),
        };
        let v = match self.weights.dims(block_name_of(layer, "attn_v.weight").as_str()) {
            Ok(dims) => dims,
            Err(e) => return Some(e),
        };
        let out = match self.weights.dims(block_name_of(layer, "attn_output.weight").as_str()) {
            Ok(dims) => dims,
            Err(e) => return Some(e),
        };
        let q_norm = match self.weights.dims(block_name_of(layer, "attn_q_norm.weight").as_str()) {
            Ok(dims) => dims,
            Err(e) => return Some(e),
        };
        let k_norm = match self.weights.dims(block_name_of(layer, "attn_k_norm.weight").as_str()) {
            Ok(dims) => dims,
            Err(e) => return Some(e),
        };
        let q_dim = cfg.n_heads * cfg.head_dim;
        let kv_dim = cfg.n_kv_heads * cfg.head_dim;
        let fits = is_matrix_of(&q, n) && q[0] >= 2 * q_dim && is_matrix_of(&k, n) && k[0] >= kv_dim
            && is_matrix_of(&v, n) && v[0] >= kv_dim && is_matrix_of(&out, q_dim) && is_vector_of(
            &q_norm,
            cfg.head_dim,
        ) && is_vector_of(&k_norm, cfg.head_dim);
        if fits {
            None
        } else {
            Some(GGUFError::InvalidShape)
        }
    }

    /// Why the feed-forward part of a block cannot be computed on an input of `n` elements, if it
    /// cannot.
    fn check_ffn(&self, layer: usize, n: usize) -> (r: Option<GGUFError>)
        ensures
            r == ffn_error(self.origin(), layer, n as int),
    {
        let gate = match self.weights.dims(block_name_of(layer, "ffn_gate.weight").as_str()) {
            Ok(dims) => dims,
            Err(e) => return Some(e),
        };
        let up = match self.weights.dims(block_name_of(layer, "ffn_up.weight").as_str()) {
            Ok(dims) => dims,
            Err(e) => return Some(e),
        };
        let down = match self.weights.dims(block_name_of(layer, "ffn_down.weight").as_str()) {
            Ok(dims) => dims,
            Err(e) => return Some(e),
        };
        let fits = is_matrix_of(&gate, n) && is_matrix_of(&up, n) && up[0] == gate[0]
            && is_matrix_of(&down, gate[0]);
        if fits {
            None
        } else {
            Some(GGUFError::InvalidShape)
        }
    }

    /// Why an attention block cannot be computed on an input of `n` elements, if it cannot.
    fn check_transformer(&self, layer: usize, n: usize) -> (r: Option<GGUFError>)
        requires
            self.config.attention_sound(),
        ensures
            r == transformer_error(self.origin(), self.config, layer, n),
    {
        reveal(transformer_error);
        let norm1 = match self.weights.dims(block_name_of(layer, "attn_norm.weight").as_str()) {
            Ok(dims) => dims,
            Err(e) => return Some(e),
        };
        match self.check_attention(layer, n) {
            Some(e) => return Some(e),
            None => {},
        }
        let post_norm = block_name_of(layer, "post_attention_norm.weight");
        let norm2 = match self.weights.dims(post_norm.as_str()) {
            Ok(dims) => dims,
            Err(e) => return Some(e),
        };
        match self.check_ffn(layer, n) {
            Some(e) => return Some(e),
            None => {},
        }
        let out = match self.weights.dims(block_name_of(layer, "attn_output.weight").as_str()) {
            Ok(dims) => dims,
            Err(e) => return Some(e),
        };
        let down = match self.weights.dims(block_name_of(layer, "ffn_down.weight").as_str()) {
            Ok(dims) => dims,
            Err(e) => return Some(e),
        };
        let fits = is_vector_of(&norm1, n) && is_vector_of(&norm2, n) && out[0] == n && down[0] == n;
        if fits {
            None
        } else {
            Some(GGUFError::InvalidShape)
        }
    }

    /// Why a recurrent block cannot be computed on an input of `n` elements, if it cannot.
    fn check_ssm(&self, layer: usize, n: usize) -> (r: Option<GGUFError>)
        requires
            self.config.recurrent_sound(),
        ensures
            r == ssm_error(self.origin(), self.config, layer, n as int),
    {
        let groups = self.config.ssm_group_count;
        let size = self.config.ssm_state_size;
        assert(groups * size >= 0) by (nonlinear_arith)
            requires
                groups >= 0,
                size >= 0,
        ;
        let qkv = match self.weights.dims(block_name_of(layer, "attn_qkv.weight").as_str()) {
            Ok(dims) => dims,
            Err(e) => return Some(e),
        };
        let gate = match self.weights.dims(block_name_of(layer, "attn_gate.weight").as_str()) {
            Ok(dims) => dims,
            Err(e) => return Some(e),
        };
        let conv = match self.weights.dims(block_name_of(layer, "ssm_conv1d.weight").as_str()) {
            Ok(dims) => dims,
            Err(e) => return Some(e),
        };
        let a = match self.weights.dims(block_name_of(layer, "ssm_a").as_str()) {
            Ok(dims) => dims,
            Err(e) => return Some(e),
        };
        let alpha = match self.weights.dims(block_name_of(layer, "ssm_alpha.weight").as_str()) {
            Ok(dims) => dims,
            Err(e) => return Some(e),
        };
        let beta = match self.weights.dims(block_name_of(layer, "ssm_beta.weight").as_str()) {
            Ok(dims) => dims,
            Err(e) => return Some(e),
        };
        let dt = match self.weights.dims(block_name_of(layer, "ssm_dt.bias").as_str()) {
            Ok(dims) => dims,
            Err(e) => return Some(e),
        };
        let norm = match self.weights.dims(block_name_of(layer, "ssm_norm.weight").as_str()) {
            Ok(dims) => dims,
            Err(e) => return Some(e),
        };
        let out = match self.weights.dims(block_name_of(layer, "ssm_out.weight").as_str()) {
            Ok(dims) => dims,
            Err(e) => return Some(e),
        };
        let dim = groups * size;
        let fits = is_matrix_of(&qkv, n) && qkv[0] >= 3 * dim && is_matrix_of(&gate, n) && gate[0]
            == dim && is_matrix_of(&conv, CONV_KERNEL) && conv[0] >= 3 * dim && is_matrix_of(
            &alpha,
            n,
        ) && alpha[0] >= groups && is_matrix_of(&beta, n) && beta[0] >= groups && is_vector_of(
            &a,
            alpha[0],
        ) && is_vector_of(&dt, alpha[0]) && is_vector_of(&norm, size) && is_matrix_of(&out, dim);
        if fits {
            None
        } else {
            Some(GGUFError::InvalidShape)
        }
    }
}

/// Whether the dimensions are those of a matrix of `cols` columns.
fn is_matrix_of(dims: &Vec<usize>, cols: usize) -> (r: bool)
    ensures
        r == (dims@.len() == 2 && dims@[1] == cols),
{
    dims.len() == 2 && dims[1] == cols
}

/// Whether the dimensions are those of a vector of `n` elements.
fn is_vector_of(dims: &Vec<usize>, n: usize) -> (r: bool)
    ensures
        r == (dims@ =~= seq![n]),
{
    dims.len() == 1 && dims[0] == n
}

/// `y` is a value of the output of attention in a block at a position, and the cache goes from
/// `before` to `after` with it: the keys and values of the layer change, and no others.
pub open spec fn attention_done<T: Scalar, M: Math<T>>(
    o: Origin<M>,
    config: ModelConfig,
    layer: usize,
    pos: usize,
    x: Seq<T>,
    before: &KVCache<T>,
    after: &KVCache<T>,
    y: Seq<T>,
) -> bool {
    let l = layer as int;
    &&& after.keys() == before.keys().update(l, after.keys()[l])
    &&& after.values() == before.values().update(l, after.values()[l])
    &&& exists|w: AttentionWeights<T>|
        {
            &&& #[trigger] is_attention(o, layer, w)
            &&& attention::attended(
                o.math,
                config,
                w,
                x,
                pos,
                before.keys()[l],
                before.values()[l],
                after.keys()[l],
                after.values()[l],
                y,
            )
        }
}

/// What attention in a block at a position may give with one cache, it may give with every other
/// that agrees with it on the positions before in this layer, and it then puts the same key and
/// value there: it sees nothing at that position or behind it, nor in other layers.
pub proof fn law_attention_sees_no_more<T: Scalar, M: Math<T>>(
    o: Origin<M>,
    config: ModelConfig,
    layer: usize,
    pos: usize,
    x: Seq<T>,
    before: &KVCache<T>,
    after: &KVCache<T>,
    y: Seq<T>,
    other: &KVCache<T>,
    other_after: &KVCache<T>,
)
    requires
        before.wf(&config),
        other.wf(&config),
        layer < config.n_layers,
        pos < before.positions(),
        pos < other.positions(),
        forall|p: int|
            0 <= p < pos ==> #[trigger] before.keys()[layer as int][p]
                == other.keys()[layer as int][p],
        forall|p: int|
            0 <= p < pos ==> #[trigger] before.values()[layer as int][p]
                == other.values()[layer as int][p],
        attention_done(o, config, layer, pos, x, before, after, y),
        other_after.keys() == other.keys().update(
            layer as int,
            other.keys()[layer as int].update(pos as int, after.keys()[layer as int][pos as int]),
        ),
        other_after.values() == other.values().update(
            layer as int,
            other.values()[layer as int].update(
                pos as int,
                after.values()[layer as int][pos as int],
            ),
        ),
    ensures
        attention_done(o, config, layer, pos, x, other, other_after, y),
{
    let (m, l, p) = (o.math, layer as int, pos as int);
    let (k1, v1) = (before.keys()[l], before.values()[l]);
    let (k2, v2) = (other.keys()[l], other.values()[l]);
    let (ka, va) = (after.keys()[l], after.values()[l]);
    let w = choose|w: AttentionWeights<T>|
        {
            &&& #[trigger] is_attention(o, layer, w)
            &&& attention::attended(m, config, w, x, pos, k1, v1, ka, va, y)
        };
    assert(k1.take(p) =~= k2.take(p));
    assert(v1.take(p) =~= v2.take(p));
    attention::law_attention_is_causal(m, config, w, x, pos, k1, v1, ka, va, y, k2, v2);
    assert(other_after.keys() =~= other.keys().update(l, other_after.keys()[l]));
    assert(other_after.values() =~= other.values().update(l, other_after.values()[l]));
}

/// Gated grouped-query attention of the vector `x` in a block, at a position.
pub fn attention<T: Scalar, M: Math<T>>(
    x: &Tensor<T>,
    layer: usize,
    pos: usize,
    model: &mut Model<'_, T, M>,
    cache: &mut KVCache<T>,
) -> (r: Result<Tensor<T>, GGUFError>)
    requires
        arith::total::<T>(),
        old(model).wf(),
        old(model).config.attention_sound(),
        x.wf(),
        x.dims().len() == 1,
        old(cache).wf(&old(model).config),
        layer < old(model).config.n_layers,
        pos < old(cache).positions(),
    ensures
        final(model).continues(old(model)),
        final(cache).wf(&old(model).config),
        final(cache).positions() == old(cache).positions(),
        match r {
            Err(e) => {
                &&& attention_error(
                    old(model).origin(),
                    old(model).config,
                    layer,
                    x.dims()[0] as int,
                ) == Some(e)
                &&& *final(model) == *old(model)
                &&& *final(cache) == *old(cache)
            },
            Ok(y) => {
                &&& attention_error(
                    old(model).origin(),
                    old(model).config,
                    layer,
                    x.dims()[0] as int,
                ) is None
                &&& y.wf()
                &&& y.is_vector(
                    weight_dims(
                        old(model).origin(),
                        name(layer, "attn_output.weight"@),
                    )[0] as int,
                )
                &&& attention_done(
                    old(model).origin(),
                    old(model).config,
                    layer,
                    pos,
                    x.elems(),
                    old(cache),
                    final(cache),
                    y.elems(),
                )
            },
        },
{
    match model.check_attention(layer, x.shape()[0]) {
        Some(e) => return Err(e),
        None => {},
    }
    let w = AttentionWeights {
        q: model.fetch(block_name_of(layer, "attn_q.weight").as_str()),
        k: model.fetch(block_name_of(layer, "attn_k.weight").as_str()),
        v: model.fetch(block_name_of(layer, "attn_v.weight").as_str()),
        out: model.fetch(block_name_of(layer, "attn_output.weight").as_str()),
        q_norm: model.fetch(block_name_of(layer, "attn_q_norm.weight").as_str()),
        k_norm: model.fetch(block_name_of(layer, "attn_k_norm.weight").as_str()),
    };
    assert(is_attention(old(model).origin(), layer, w));
    Ok(attend(model.weights.math(), &model.config, &w, x, layer, pos, cache))
}

/// The feed-forward part of a block on the vector `x`.
fn ffn<T: Scalar, M: Math<T>>(x: &Tensor<T>, layer: usize, model: &mut Model<'_, T, M>) -> (y:
    Tensor<T>)
    requires
        arith::total::<T>(),
        old(model).wf(),
        x.wf(),
        x.dims().len() == 1,
        ffn_error(old(model).origin(), layer, x.dims()[0] as int) is None,
    ensures
        final(model).continues(old(model)),
        y.wf(),
        y.is_vector(
            weight_dims(old(model).origin(), name(layer, "ffn_down.weight"@))[0] as int,
        ),
        exists|w: FfnWeights<T>|
            {
                &&& #[trigger] is_ffn(old(model).origin(), layer, w)
                &&& feedforward::fed_forward(
                    old(model).origin().math,
                    w,
                    x.elems(),
                    y.elems(),
                )
            },
{
    let w = FfnWeights {
        gate: model.fetch(block_name_of(layer, "ffn_gate.weight").as_str()),
        up: model.fetch(block_name_of(layer, "ffn_up.weight").as_str()),
        down: model.fetch(block_name_of(layer, "ffn_down.weight").as_str()),
    };
    assert(is_ffn(old(model).origin(), layer, w));
    feed_forward(model.weights.math(), &w, x)
}

/// An attention block on the vector `x`, at a position.
pub fn transformer_block<T: Scalar, M: Math<T>>(
    x: &Tensor<T>,
    layer: usize,
    pos: usize,
    model: &mut Model<'_, T, M>,
    cache: &mut KVCache<T>,
) -> (r: Result<Tensor<T>, GGUFError>)
    requires
        arith::total::<T>(),
        old(model).wf(),
        old(model).config.attention_sound(),
        x.wf(),
        x.dims().len() == 1,
        old(cache).wf(&old(model).config),
        layer < old(model).config.n_layers,
        pos < old(cache).positions(),
    ensures
        final(model).continues(old(model)),
        final(cache).wf(&old(model).config),
        final(cache).positions() == old(cache).positions(),
        match r {
            Err(e) => {
                &&& transformer_error(
                    old(model).origin(),
                    old(model).config,
                    layer,
                    x.dims()[0],
                ) == Some(e)
                &&& *final(model) == *old(model)
                &&& *final(cache) == *old(cache)
            },
            Ok(y) => {
                &&& transformer_error(
                    old(model).origin(),
                    old(model).config,
                    layer,
                    x.dims()[0],
                ) is None
                &&& y.wf()
                &&& y.dims() == x.dims()
                &&& final(cache).keys() == old(cache).keys().update(
                    layer as int,
                    final(cache).keys()[layer as int],
                )
                &&& final(cache).values() == old(cache).values().update(
                    layer as int,
                    final(cache).values()[layer as int],
                )
                &&& transformed(
                    old(model).origin(),
                    old(model).config,
                    layer,
                    x.elems(),
                    pos,
                    old(cache).keys()[layer as int],
                    old(cache).values()[layer as int],
                    final(cache).keys()[layer as int],
                    final(cache).values()[layer as int],
                    y.elems(),
                )
            },
        },
{
    reveal(transformer_error);
    let ghost before = *model;
    let ghost cache_before = *cache;
    match model.check_transformer(layer, x.shape()[0]) {
        Some(e) => return Err(e),
        None => {},
    }
    let norm1 = model.fetch(block_name_of(layer, "attn_norm.weight").as_str());
    assert(norm1.dims() =~= x.dims());
    let normed1 = normed_of(model.weights.math(), model.config.rms_eps, x, &norm1);
    let attended = match attention(&normed1, layer, pos, model, cache) {
        Ok(y) => y,
        Err(e) => return Err(e),
    };
    assert(attended.dims() =~= x.dims());
    let middle = x.add(&attended);
    let norm2 = model.fetch(block_name_of(layer, "post_attention_norm.weight").as_str());
    assert(norm2.dims() =~= middle.dims());
    let normed2 = normed_of(model.weights.math(), model.config.rms_eps, &middle, &norm2);
    let fed = ffn(&normed2, layer, model);
    assert(fed.dims() =~= middle.dims());
    let y = middle.add(&fed);
    proof {
        let o = before.origin();
        let cfg = before.config;
        let l = layer as int;
        let aw = choose|w: AttentionWeights<T>|
            {
                &&& #[trigger] is_attention(o, layer, w)
                &&& attention::attended(
                    o.math,
                    cfg,
                    w,
                    normed1.elems(),
                    pos,
                    cache_before.keys()[l],
                    cache_before.values()[l],
                    cache.keys()[l],
                    cache.values()[l],
                    attended.elems(),
                )
            };
        let fw = choose|w: FfnWeights<T>|
            {
                &&& #[trigger] is_ffn(o, layer, w)
                &&& feedforward::fed_forward(o.math, w, normed2.elems(), fed.elems())
            };
        let tr = TransformerTrace {
            norm1,
            attention: aw,
            norm2,
            ffn: fw,
            normed1: normed1.elems(),
            attended: attended.elems(),
            middle: middle.elems(),
            normed2: normed2.elems(),
            fed: fed.elems(),
        };
        assert(transformer_run(
            o,
            cfg,
            layer,
            x.elems(),
            pos,
            cache_before.keys()[l],
            cache_before.values()[l],
            cache.keys()[l],
            cache.values()[l],
            y.elems(),
            tr,
        ));
    }
    Ok(y)
}

/// The gated delta-rule recurrence of a block on the vector `x`.
pub fn ssm_block<T: Scalar, M: Math<T>>(
    x: &Tensor<T>,
    layer: usize,
    model: &mut Model<'_, T, M>,
    ssm_state: &mut SSMState<T>,
) -> (r: Result<Tensor<T>, GGUFError>)
    requires
        arith::total::<T>(),
        old(model).wf(),
        old(model).config.recurrent_sound(),
        x.wf(),
        x.dims().len() == 1,
        old(ssm_state).wf(&old(model).config),
        layer < old(model).config.n_layers,
    ensures
        final(model).continues(old(model)),
        final(ssm_state).wf(&old(model).config),
        match r {
            Err(e) => {
                &&& ssm_error(
                    old(model).origin(),
                    old(model).config,
                    layer,
                    x.dims()[0] as int,
                ) == Some(e)
                &&& *final(model) == *old(model)
                &&& *final(ssm_state) == *old(ssm_state)
            },
            Ok(y) => {
                &&& ssm_error(
                    old(model).origin(),
                    old(model).config,
                    layer,
                    x.dims()[0] as int,
                ) is None
                &&& y.wf()
                &&& y.is_vector(
                    weight_dims(old(model).origin(), name(layer, "ssm_out.weight"@))[0] as int,
                )
                &&& final(ssm_state).states() == old(ssm_state).states().update(
                    layer as int,
                    final(ssm_state).states()[layer as int],
                )
                &&& final(ssm_state).history() == old(ssm_state).history().update(
                    layer as int,
                    final(ssm_state).history()[layer as int],
                )
                &&& exists|w: RecurrentWeights<T>|
                    {
                        &&& #[trigger] is_recurrent(old(model).origin(), layer, w)
                        &&& recurrent::recurred(
                            old(model).origin().math,
                            old(model).config,
                            w,
                            x.elems(),
                            old(ssm_state).states()[layer as int],
                            old(ssm_state).history()[layer as int],
                            final(ssm_state).states()[layer as int],
                            final(ssm_state).history()[layer as int],
                            y.elems(),
                        )
                    }
            },
        },
{
    match model.check_ssm(layer, x.shape()[0]) {
        Some(e) => return Err(e),
        None => {},
    }
    let w = RecurrentWeights {
        qkv: model.fetch(block_name_of(layer, "attn_qkv.weight").as_str()),
        gate: model.fetch(block_name_of(layer, "attn_gate.weight").as_str()),
        conv: model.fetch(block_name_of(layer, "ssm_conv1d.weight").as_str()),
        a: model.fetch(block_name_of(layer, "ssm_a").as_str()),
        alpha: model.fetch(block_name_of(layer, "ssm_alpha.weight").as_str()),
        beta: model.fetch(block_name_of(layer, "ssm_beta.weight").as_str()),
        dt: model.fetch(block_name_of(layer, "ssm_dt.bias").as_str()),
        norm: model.fetch(block_name_of(layer, "ssm_norm.weight").as_str()),
        out: model.fetch(block_name_of(layer, "ssm_out.weight").as_str()),
    };
    assert(is_recurrent(old(model).origin(), layer, w));
    Ok(recur(model.weights.math(), &model.config, &w, x, layer, ssm_state))
}

/// Why the embedding of a token cannot be had, if it cannot.
pub open spec fn embed_error<M>(o: Origin<M>, config: ModelConfig, token: u32) -> Option<
    GGUFError,
> {
    let table = "token_embd.weight"@;
    either(
        weight_error(o, table),
        misfit(
            token * config.embed_dim + config.embed_dim <= shape::numel_of(weight_dims(o, table)),
        ),
    )
}

/// `x` is a value of the embedding of a token: its row of the embedding table.
pub open spec fn embedded<T: Scalar, M: Math<T>>(
    o: Origin<M>,
    config: ModelConfig,
    token: u32,
    x: Seq<T>,
) -> bool {
    exists|t: Tensor<T>|
        {
            &&& #[trigger] is_weight(o, "token_embd.weight"@, t)
            &&& x == tensor::row(t.elems(), config.embed_dim as int, token as int)
        }
}

/// What the blocks carry from one position to the next: keys and values, states and inputs of
/// convolutions, each by layer.
pub struct Memory<T> {
    pub keys: Seq<Seq<Seq<T>>>,
    pub values: Seq<Seq<Seq<T>>>,
    pub states: Seq<Seq<Seq<T>>>,
    pub history: Seq<Seq<Seq<T>>>,
}

/// Every fourth block is an attention block.
pub open spec fn attends(layer: int) -> bool {
    (layer + 1) % 4 == 0
}

/// Why a recurrent block, with the norm in front of it and its input added to its output, cannot
/// be computed on an input of `n` elements, if it cannot.
#[verifier::opaque]
pub open spec fn recurrent_error<M>(
    o: Origin<M>,
    config: ModelConfig,
    layer: usize,
    n: usize,
) -> Option<GGUFError> {
    let norm = name(layer, "attn_norm.weight"@);
    either(
        weight_error(o, norm),
        either(
            ssm_error(o, config, layer, n as int),
            misfit(
                {
                    &&& weight_dims(o, norm) =~= seq![n]
                    &&& weight_dims(o, name(layer, "ssm_out.weight"@))[0] == n
                },
            ),
        ),
    )
}

/// The weights of a recurrent block, and the values between its steps.
pub struct RecurrentBlockTrace<T> {
    pub norm: Tensor<T>,
    pub recurrent: RecurrentWeights<T>,
    pub normed: Seq<T>,
    pub recurred: Seq<T>,
}

/// The steps of a recurrent block: the recurrence on the normalised input, added to the input.
pub open spec fn recurrent_block_run<T: Scalar, M: Math<T>>(
    o: Origin<M>,
    config: ModelConfig,
    layer: usize,
    x: Seq<T>,
    states: Seq<Seq<T>>,
    history: Seq<Seq<T>>,
    states_after: Seq<Seq<T>>,
    history_after: Seq<Seq<T>>,
    y: Seq<T>,
    tr: RecurrentBlockTrace<T>,
) -> bool {
    &&& is_weight(o, name(layer, "attn_norm.weight"@), tr.norm)
    &&& is_recurrent(o, layer, tr.recurrent)
    &&& attention::normed(o.math, config.rms_eps, x, tr.norm.elems(), tr.normed)
    &&& recurrent::recurred(
        o.math,
        config,
        tr.recurrent,
        tr.normed,
        states,
        history,
        states_after,
        history_after,
        tr.recurred,
    )
    &&& elementwise::each_pair(x, tr.recurred, |a: T, b: T, c: T| arith::added(a, b, c), y)
}

/// `y` is a value of the output of a recurrent block, and the states and inputs of the layer
/// change with it.
pub open spec fn recurrent_block_done<T: Scalar, M: Math<T>>(
    o: Origin<M>,
    config: ModelConfig,
    layer: usize,
    x: Seq<T>,
    states: Seq<Seq<T>>,
    history: Seq<Seq<T>>,
    states_after: Seq<Seq<T>>,
    history_after: Seq<Seq<T>>,
    y: Seq<T>,
) -> bool {
    exists|tr: RecurrentBlockTrace<T>| #[trigger]
        recurrent_block_run(
            o,
            config,
            layer,
            x,
            states,
            history,
            states_after,
            history_after,
            y,
            tr,
        )
}

/// Why a block cannot be computed on an input of `n` elements, if it cannot.
#[verifier::opaque]
pub open spec fn layer_error<M>(
    o: Origin<M>,
    config: ModelConfig,
    layer: usize,
    n: usize,
) -> Option<GGUFError> {
    if attends(layer as int) {
        transformer_error(o, config, layer, n)
    } else {
        recurrent_error(o, config, layer, n)
    }
}

/// Why one of the first `k` blocks cannot be computed on an input of `n` elements, if one cannot.
pub open spec fn layers_error<M>(o: Origin<M>, config: ModelConfig, k: nat, n: usize) -> Option<
    GGUFError,
>
    decreases k,
{
    if k == 0 {
        None
    } else {
        either(
            layers_error(o, config, (k - 1) as nat, n),
            layer_error(o, config, (k - 1) as usize, n),
        )
    }
}

/// The pass of `x` through a block: an attention block changes the keys and values of its layer,
/// a recurrent block the states and inputs, and neither changes anything else.
pub open spec fn layer_done<T: Scalar, M: Math<T>>(
    o: Origin<M>,
    config: ModelConfig,
    layer: int,
    pos: usize,
    x: Seq<T>,
    before: Memory<T>,
    y: Seq<T>,
    after: Memory<T>,
) -> bool {
    if attends(layer) {
        &&& after.keys == before.keys.update(layer, after.keys[layer])
        &&& after.values == before.values.update(layer, after.values[layer])
        &&& after.states == before.states
        &&& after.history == before.history
        &&& transformed(
            o,
            config,
            layer as usize,
            x,
            pos,
            before.keys[layer],
            before.values[layer],
            after.keys[layer],
            after.values[layer],
            y,
        )
    } else {
        &&& after.keys == before.keys
        &&& after.values == before.values
        &&& after.states == before.states.update(layer, after.states[layer])
        &&& after.history == before.history.update(layer, after.history[layer])
        &&& recurrent_block_done(
            o,
            config,
            layer as usize,
            x,
            before.states[layer],
            before.history[layer],
            after.states[layer],
            after.history[layer],
            y,
        )
    }
}

/// The pass of `x` through the first `k` blocks.
pub open spec fn layers_done<T: Scalar, M: Math<T>>(
    o: Origin<M>,
    config: ModelConfig,
    k: nat,
    pos: usize,
    x: Seq<T>,
    before: Memory<T>,
    y: Seq<T>,
    after: Memory<T>,
) -> bool
    decreases k,
{
    if k == 0 {
        y == x && after == before
    } else {
        exists|z: Seq<T>, mid: Memory<T>|
            {
                &&& layers_done(o, config, (k - 1) as nat, pos, x, before, z, mid)
                &&& #[trigger] layer_done(o, config, k - 1, pos, z, mid, y, after)
            }
    }
}

/// Why a token cannot pass through the model, if it cannot.
pub open spec fn forward_error<M>(o: Origin<M>, config: ModelConfig, token: u32) -> Option<
    GGUFError,
> {
    let table = "token_embd.weight"@;
    let norm = "output_norm.weight"@;
    either(
        embed_error(o, config, token),
        either(
            weight_error(o, norm),
            either(
                misfit(
                    {
                        &&& weight_dims(o, table).len() == 2
                        &&& weight_dims(o, table)[1] == config.embed_dim
                        &&& weight_dims(o, norm) =~= seq![config.embed_dim]
                    },
                ),
                layers_error(o, config, config.n_layers as nat, config.embed_dim),
            ),
        ),
    )
}

/// The weights around the blocks, and the values between the steps of a pass.
pub struct ForwardTrace<T> {
    pub norm: Tensor<T>,
    pub table: Tensor<T>,
    pub embedding: Seq<T>,
    pub hidden: Seq<T>,
    pub normed: Seq<T>,
}

/// The steps of a pass: the embedding of the token, all blocks, the final norm, and the products
/// with all rows of the embedding table.
pub open spec fn forward_run<T: Scalar, M: Math<T>>(
    o: Origin<M>,
    config: ModelConfig,
    token: u32,
    pos: usize,
    before: Memory<T>,
    after: Memory<T>,
    logits: Seq<T>,
    tr: ForwardTrace<T>,
) -> bool {
    &&& embedded(o, config, token, tr.embedding)
    &&& layers_done(
        o,
        config,
        config.n_layers as nat,
        pos,
        tr.embedding,
        before,
        tr.hidden,
        after,
    )
    &&& is_weight(o, "output_norm.weight"@, tr.norm)
    &&& attention::normed(o.math, config.rms_eps, tr.hidden, tr.norm.elems(), tr.normed)
    &&& is_weight(o, "token_embd.weight"@, tr.table)
    &&& tensor::applied(
        tr.table.elems(),
        tr.table.dims()[0] as int,
        config.embed_dim as int,
        tr.normed,
        logits,
    )
}

/// `logits` is a value of the output of the model for a token at a position, and what the blocks
/// carry changes with it.
pub open spec fn forwarded<T: Scalar, M: Math<T>>(
    o: Origin<M>,
    config: ModelConfig,
    token: u32,
    pos: usize,
    before: Memory<T>,
    after: Memory<T>,
    logits: Seq<T>,
) -> bool {
    exists|tr: ForwardTrace<T>| #[trigger]
        forward_run(o, config, token, pos, before, after, logits, tr)
}

/// What cache and state hold.
pub open spec fn memory<T: Copy>(cache: &KVCache<T>, ssm_state: &SSMState<T>) -> Memory<T> {
    Memory {
        keys: cache.keys(),
        values: cache.values(),
        states: ssm_state.states(),
        history: ssm_state.history(),
    }
}

impl<'a, T: Scalar, M: Math<T>> Model<'a, T, M> {
    /// Why the embedding of a token cannot be had, if it cannot.
    fn check_embed(&self, token: u32) -> (r: Option<GGUFError>)
        ensures
            r == embed_error(self.origin(), self.config, token),
    {
        let dims = match self.weights.dims("token_embd.weight") {
            Ok(dims) => dims,
            Err(e) => return Some(e),
        };
        let n = product(&dims);
        let width = self.config.embed_dim;
        match (token as usize).checked_mul(width) {
            Some(start) => if width <= n && start <= n - width {
                None
            } else {
                Some(GGUFError::InvalidShape)
            },
            None => Some(GGUFError::InvalidShape),
        }
    }

    /// The embedding of a token.
    pub fn embed(&mut self, token_id: u32) -> (r: Result<Tensor<T>, GGUFError>)
        requires
            arith::total::<T>(),
            old(self).wf(),
        ensures
            final(self).continues(old(self)),
            match r {
                Err(e) => {
                    &&& embed_error(old(self).origin(), old(self).config, token_id) == Some(e)
                    &&& *final(self) == *old(self)
                },
                Ok(x) => {
                    &&& embed_error(old(self).origin(), old(self).config, token_id) is None
                    &&& x.wf()
                    &&& x.is_vector(old(self).config.embed_dim as int)
                    &&& embedded(old(self).origin(), old(self).config, token_id, x.elems())
                },
            },
    {
        match self.check_embed(token_id) {
            Some(e) => return Err(e),
            None => {},
        }
        let width = self.config.embed_dim;
        let table = self.fetch("token_embd.weight");
        let data = table.data();
        assert(data.len() == data@.len());
        assert(token_id * width >= 0) by (nonlinear_arith)
            requires
                token_id >= 0,
                width >= 0,
        ;
        let start = token_id as usize * width;
        let row = slice_to_vec(slice_subrange(data, start, start + width));
        Ok(vector(row))
    }

    /// Why a recurrent block, with the norm in front of it and its input added to its output,
    /// cannot be computed on an input of `n` elements, if it cannot.
    fn check_recurrent(&self, layer: usize, n: usize) -> (r: Option<GGUFError>)
        requires
            self.config.recurrent_sound(),
        ensures
            r == recurrent_error(self.origin(), self.config, layer, n),
    {
        reveal(recurrent_error);
        let norm = match self.weights.dims(block_name_of(layer, "attn_norm.weight").as_str()) {
            Ok(dims) => dims,
            Err(e) => return Some(e),
        };
        match self.check_ssm(layer, n) {
            Some(e) => return Some(e),
            None => {},
        }
        let out = match self.weights.dims(block_name_of(layer, "ssm_out.weight").as_str()) {
            Ok(dims) => dims,
            Err(e) => return Some(e),
        };
        if is_vector_of(&norm, n) && out[0] == n {
            None
        } else {
            Some(GGUFError::InvalidShape)
        }
    }

    /// Why a block cannot be computed on an input of `n` elements, if it cannot.
    fn check_layer(&self, layer: usize, n: usize) -> (r: Option<GGUFError>)
        requires
            self.config.attention_sound(),
            self.config.recurrent_sound(),
        ensures
            r == layer_error(self.origin(), self.config, layer, n),
    {
        reveal(layer_error);
        if layer % 4 == 3 {
            self.check_transformer(layer, n)
        } else {
            self.check_recurrent(layer, n)
        }
    }

    /// Why one of the blocks cannot be computed on an input of `n` elements, if one cannot.
    fn check_layers(&self, n: usize) -> (r: Option<GGUFError>)
        requires
            self.config.attention_sound(),
            self.config.recurrent_sound(),
        ensures
            r == layers_error(self.origin(), self.config, self.config.n_layers as nat, n),
    {
        let ghost o = self.origin();
        let mut layer: usize = 0;
        while layer < self.config.n_layers
            invariant
                self.config.attention_sound(),
                self.config.recurrent_sound(),
                o == self.origin(),
                layer <= self.config.n_layers,
                layers_error(o, self.config, layer as nat, n) is None,
            decreases self.config.n_layers - layer,
        {
            match self.check_layer(layer, n) {
                Some(e) => {
                    proof {
                        lemma_layers_error(
                            o,
                            self.config,
                            (layer + 1) as nat,
                            self.config.n_layers as nat,
                            n,
                        );
                    }
                    return Some(e);
                },
                None => {},
            }
            layer += 1;
        }
        None
    }

    /// Why a token cannot pass through the model, if it cannot.
    fn check_forward(&self, token: u32) -> (r: Option<GGUFError>)
        requires
            self.config.attention_sound(),
            self.config.recurrent_sound(),
        ensures
            r == forward_error(self.origin(), self.config, token),
    {
        match self.check_embed(token) {
            Some(e) => return Some(e),
            None => {},
        }
        let norm = match self.weights.dims("output_norm.weight") {
            Ok(dims) => dims,
            Err(e) => return Some(e),
        };
        let table = match self.weights.dims("token_embd.weight") {
            Ok(dims) => dims,
            Err(e) => return Some(e),
        };
        if is_matrix_of(&table, self.config.embed_dim) && is_vector_of(
            &norm,
            self.config.embed_dim,
        ) {
            self.check_layers(self.config.embed_dim)
        } else {
            Some(GGUFError::InvalidShape)
        }
    }
}

/// The first error of some blocks is the first error of more blocks.
proof fn lemma_layers_error<M>(o: Origin<M>, config: ModelConfig, j: nat, k: nat, n: usize)
    requires
        j <= k,
        layers_error(o, config, j, n) is Some,
    ensures
        layers_error(o, config, k, n) == layers_error(o, config, j, n),
    decreases k,
{
    if j < k {
        lemma_layers_error(o, config, j, (k - 1) as nat, n);
    }
}

/// Without an error in some blocks there is none in the first of them.
proof fn lemma_no_layer_error<M>(o: Origin<M>, config: ModelConfig, layer: nat, k: nat, n: usize)
    requires
        layer < k,
        layers_error(o, config, k, n) is None,
    ensures
        layer_error(o, config, layer as usize, n) is None,
    decreases k,
{
    if layer + 1 < k {
        lemma_no_layer_error(o, config, layer, (k - 1) as nat, n);
    }
}

/// A recurrent block on the vector `x`, with the norm in front of it and its input added to its
/// output.
fn recurrent_block<T: Scalar, M: Math<T>>(
    x: &Tensor<T>,
    layer: usize,
    model: &mut Model<'_, T, M>,
    ssm_state: &mut SSMState<T>,
) -> (y: Tensor<T>)
    requires
        arith::total::<T>(),
        old(model).wf(),
        old(model).config.recurrent_sound(),
        x.wf(),
        x.dims().len() == 1,
        old(ssm_state).wf(&old(model).config),
        layer < old(model).config.n_layers,
        recurrent_error(old(model).origin(), old(model).config, layer, x.dims()[0]) is None,
    ensures
        final(model).continues(old(model)),
        final(ssm_state).wf(&old(model).config),
        y.wf(),
        y.dims() == x.dims(),
        final(ssm_state).states() == old(ssm_state).states().update(
            layer as int,
            final(ssm_state).states()[layer as int],
        ),
        final(ssm_state).history() == old(ssm_state).history().update(
            layer as int,
            final(ssm_state).history()[layer as int],
        ),
        recurrent_block_done(
            old(model).origin(),
            old(model).config,
            layer,
            x.elems(),
            old(ssm_state).states()[layer as int],
            old(ssm_state).history()[layer as int],
            final(ssm_state).states()[layer as int],
            final(ssm_state).history()[layer as int],
            y.elems(),
        ),
{
    reveal(recurrent_error);
    let ghost before = *model;
    let ghost state_before = *ssm_state;
    let norm = model.fetch(block_name_of(layer, "attn_norm.weight").as_str());
    assert(norm.dims() =~= x.dims());
    let normed = normed_of(model.weights.math(), model.config.rms_eps, x, &norm);
    let recurred = match ssm_block(&normed, layer, model, ssm_state) {
        Ok(y) => y,
        Err(_) => vstd::pervasive::unreached(),
    };
    assert(recurred.dims() =~= x.dims());
    let y = x.add(&recurred);
    proof {
        let o = before.origin();
        let l = layer as int;
        let w = choose|w: RecurrentWeights<T>|
            {
                &&& #[trigger] is_recurrent(o, layer, w)
                &&& recurrent::recurred(
                    o.math,
                    before.config,
                    w,
                    normed.elems(),
                    state_before.states()[l],
                    state_before.history()[l],
                    ssm_state.states()[l],
                    ssm_state.history()[l],
                    recurred.elems(),
                )
            };
        let tr = RecurrentBlockTrace {
            norm,
            recurrent: w,
            normed: normed.elems(),
            recurred: recurred.elems(),
        };
        assert(recurrent_block_run(
            o,
            before.config,
            layer,
            x.elems(),
            state_before.states()[l],
            state_before.history()[l],
            ssm_state.states()[l],
            ssm_state.history()[l],
            y.elems(),
            tr,
        ));
    }
    y
}

impl<'a, T: Scalar, M: Math<T>> Model<'a, T, M> {
    /// The pass of the vector `x` through a block.
    fn pass(
        &mut self,
        x: &Tensor<T>,
        layer: usize,
        pos: usize,
        cache: &mut KVCache<T>,
        ssm_state: &mut SSMState<T>,
    ) -> (y: Tensor<T>)
        requires
            arith::total::<T>(),
            old(self).wf(),
            old(self).config.attention_sound(),
            old(self).config.recurrent_sound(),
            x.wf(),
            x.dims().len() == 1,
            old(cache).wf(&old(self).config),
            pos < old(cache).positions(),
            old(ssm_state).wf(&old(self).config),
            layer < old(self).config.n_layers,
            layer_error(old(self).origin(), old(self).config, layer, x.dims()[0]) is None,
        ensures
            final(self).continues(old(self)),
            final(cache).wf(&old(self).config),
            final(cache).positions() == old(cache).positions(),
            final(ssm_state).wf(&old(self).config),
            y.wf(),
            y.dims() == x.dims(),
            layer_done(
                old(self).origin(),
                old(self).config,
                layer as int,
                pos,
                x.elems(),
                memory(old(cache), old(ssm_state)),
                y.elems(),
                memory(final(cache), final(ssm_state)),
            ),
    {
        reveal(layer_error);
        if layer % 4 == 3 {
            match transformer_block(x, layer, pos, self, cache) {
                Ok(y) => y,
                Err(_) => vstd::pervasive::unreached(),
            }
        } else {
            recurrent_block(x, layer, self, ssm_state)
        }
    }

    /// The logits of the token that follows `tokens[pos]`. The tokens before it must have been
    /// passed before, in their order, with the same cache and state.
    pub fn forward(
        &mut self,
        tokens: &[u32],
        pos: usize,
        cache: &mut KVCache<T>,
        ssm_state: &mut SSMState<T>,
    ) -> (r: Result<Tensor<T>, GGUFError>)
        requires
            arith::total::<T>(),
            old(self).wf(),
            old(self).config.attention_sound(),
            old(self).config.recurrent_sound(),
            pos < tokens@.len(),
            old(cache).wf(&old(self).config),
            pos < old(cache).positions(),
            old(ssm_state).wf(&old(self).config),
        ensures
            final(self).continues(old(self)),
            final(cache).wf(&old(self).config),
            final(cache).positions() == old(cache).positions(),
            final(ssm_state).wf(&old(self).config),
            match r {
                Err(e) => {
                    &&& forward_error(
                        old(self).origin(),
                        old(self).config,
                        tokens@[pos as int],
                    ) == Some(e)
                    &&& *final(self) == *old(self)
                    &&& *final(cache) == *old(cache)
                    &&& *final(ssm_state) == *old(ssm_state)
                },
                Ok(logits) => {
                    &&& forward_error(
                        old(self).origin(),
                        old(self).config,
                        tokens@[pos as int],
                    ) is None
                    &&& logits.wf()
                    &&& logits.is_vector(
                        weight_dims(old(self).origin(), "token_embd.weight"@)[0] as int,
                    )
                    &&& forwarded(
                        old(self).origin(),
                        old(self).config,
                        tokens@[pos as int],
                        pos,
                        memory(old(cache), old(ssm_state)),
                        memory(final(cache), final(ssm_state)),
                        logits.elems(),
                    )
                },
            },
    {
        let ghost before = *self;
        let ghost o = self.origin();
        let ghost start = memory(cache, ssm_state);
        let token = tokens[pos];
        match self.check_forward(token) {
            Some(e) => return Err(e),
            None => {},
        }
        let mut x = match self.embed(token) {
            Ok(x) => x,
            Err(e) => return Err(e),
        };
        let ghost embedding = x.elems();
        let n_layers = self.config.n_layers;
        let mut layer: usize = 0;
        while layer < n_layers
            invariant
                arith::total::<T>(),
                before.config.attention_sound(),
                before.config.recurrent_sound(),
                n_layers == before.config.n_layers,
                layer <= n_layers,
                o == before.origin(),
                self.continues(&before),
                cache.wf(&before.config),
                cache.positions() == old(cache).positions(),
                pos < cache.positions(),
                ssm_state.wf(&before.config),
                x.wf(),
                x.is_vector(before.config.embed_dim as int),
                layers_error(o, before.config, n_layers as nat, before.config.embed_dim) is None,
                layers_done(
                    o,
                    before.config,
                    layer as nat,
                    pos,
                    embedding,
                    start,
                    x.elems(),
                    memory(cache, ssm_state),
                ),
            decreases n_layers - layer,
        {
            proof {
                lemma_no_layer_error(
                    o,
                    before.config,
                    layer as nat,
                    n_layers as nat,
                    before.config.embed_dim,
                );
            }
            let ghost mid = memory(cache, ssm_state);
            let ghost z = x.elems();
            let y = self.pass(&x, layer, pos, cache, ssm_state);
            assert(layer_done(
                o,
                before.config,
                (layer + 1) as nat - 1,
                pos,
                z,
                mid,
                y.elems(),
                memory(cache, ssm_state),
            ));
            x = y;
            layer += 1;
        }
        let norm = self.fetch("output_norm.weight");
        assert(norm.dims() =~= x.dims());
        let normed = normed_of(self.weights.math(), self.config.rms_eps, &x, &norm);
        let table = self.fetch("token_embd.weight");
        let logits = table.matvec(&normed);
        proof {
            let tr = ForwardTrace {
                norm,
                table,
                embedding,
                hidden: x.elems(),
                normed: normed.elems(),
            };
            assert(forward_run(
                o,
                before.config,
                token,
                pos,
                start,
                memory(cache, ssm_state),
                logits.elems(),
                tr,
            ));
        }
        Ok(logits)
    }
}

/// Whether the product of the numbers is at most `limit`.
fn product_within(a: usize, b: usize, limit: usize) -> (r: bool)
    ensures
        r == (a * b <= limit),
{
    match a.checked_mul(b) {
        Some(p) => p <= limit,
        None => false,
    }
}

impl ModelConfig {
    /// Whether the model can be computed with these hyperparameters.
    pub fn is_sound(&self) -> (r: bool)
        ensures
            r == (self.attention_sound() && self.recurrent_sound()),
    {
        self.n_kv_heads > 0 && self.n_heads % self.n_kv_heads == 0 && self.rope_dim / 2 * 2
            <= self.head_dim && self.head_dim <= usize::MAX / 2 && product_within(
            self.n_heads,
            self.head_dim,
            usize::MAX / 2,
        ) && product_within(self.n_kv_heads, self.head_dim, usize::MAX) && product_within(
            self.ssm_state_size,
            self.ssm_state_size,
            usize::MAX,
        ) && product_within(self.ssm_group_count, self.ssm_state_size, usize::MAX / 3)
    }
}

/// What a pass through the first `k` blocks at a position changes: in the layers of attention
/// blocks the keys and values of the position, in those of recurrent blocks states and inputs.
proof fn lemma_layers_change<T: Scalar, M: Math<T>>(
    o: Origin<M>,
    config: ModelConfig,
    k: nat,
    pos: usize,
    x: Seq<T>,
    before: Memory<T>,
    y: Seq<T>,
    after: Memory<T>,
    l: int,
)
    requires
        layers_done(o, config, k, pos, x, before, y, after),
        k <= before.keys.len() == before.values.len(),
        before.states.len() == before.history.len() == before.keys.len(),
        0 <= l < before.keys.len(),
        pos < before.keys[l].len(),
        pos < before.values[l].len(),
    ensures
        after.keys.len() == after.values.len() == before.keys.len(),
        after.states.len() == after.history.len() == before.keys.len(),
        after.keys[l] == before.keys[l].update(pos as int, after.keys[l][pos as int]),
        after.values[l] == before.values[l].update(pos as int, after.values[l][pos as int]),
        !attends(l) ==> after.keys[l] == before.keys[l] && after.values[l] == before.values[l],
        attends(l) ==> after.states[l] == before.states[l] && after.history[l]
            == before.history[l],
    decreases k,
{
    let p = pos as int;
    if k == 0 {
        assert(before.keys[l] =~= before.keys[l].update(p, before.keys[l][p]));
        assert(before.values[l] =~= before.values[l].update(p, before.values[l][p]));
    } else {
        let (z, mid) = choose|z: Seq<T>, mid: Memory<T>|
            {
                &&& layers_done(o, config, (k - 1) as nat, pos, x, before, z, mid)
                &&& #[trigger] layer_done(o, config, k - 1, pos, z, mid, y, after)
            };
        lemma_layers_change(o, config, (k - 1) as nat, pos, x, before, z, mid, l);
        if attends(k - 1) && l == k - 1 {
            lemma_transformed_change(
                o,
                config,
                l as usize,
                z,
                pos,
                mid.keys[l],
                mid.values[l],
                after.keys[l],
                after.values[l],
                y,
            );
            assert(after.keys[l] =~= before.keys[l].update(p, after.keys[l][p]));
            assert(after.values[l] =~= before.values[l].update(p, after.values[l][p]));
        }
    }
}

/// An attention block changes the key and the value of its position only.
proof fn lemma_transformed_change<T: Scalar, M: Math<T>>(
    o: Origin<M>,
    config: ModelConfig,
    layer: usize,
    x: Seq<T>,
    pos: usize,
    keys: Seq<Seq<T>>,
    values: Seq<Seq<T>>,
    keys_after: Seq<Seq<T>>,
    values_after: Seq<Seq<T>>,
    y: Seq<T>,
)
    requires
        transformed(o, config, layer, x, pos, keys, values, keys_after, values_after, y),
        pos < keys.len(),
        pos < values.len(),
    ensures
        keys_after == keys.update(pos as int, keys_after[pos as int]),
        values_after == values.update(pos as int, values_after[pos as int]),
{
    let tr = choose|tr: TransformerTrace<T>| #[trigger]
        transformer_run(o, config, layer, x, pos, keys, values, keys_after, values_after, y, tr);
    let at = choose|at: AttentionTrace<T>| #[trigger]
        attention::attention_run(
            o.math,
            config,
            tr.attention,
            tr.normed1,
            pos,
            keys,
            values,
            keys_after,
            values_after,
            tr.attended,
            at,
        );
    assert(keys_after == keys.update(pos as int, at.k_rot));
}

/// There are keys, values, states and inputs for all layers, and keys and values for all of the
/// first `positions` positions.
pub open spec fn complete<T>(mem: Memory<T>, config: ModelConfig, positions: int) -> bool {
    let n = config.n_layers as int;
    let width = config.n_kv_heads * config.head_dim;
    &&& cache::tables(mem.keys, n, positions, width)
    &&& cache::tables(mem.values, n, positions, width)
    &&& mem.states.len() == n
    &&& mem.history.len() == n
}

/// A pass of a token through the model at a position leaves the keys and values of all other
/// positions as they were.
pub proof fn law_forward_keeps_past<T: Scalar, M: Math<T>>(
    o: Origin<M>,
    config: ModelConfig,
    token: u32,
    pos: usize,
    before: Memory<T>,
    after: Memory<T>,
    logits: Seq<T>,
    positions: int,
    l: int,
    p: int,
)
    requires
        forwarded(o, config, token, pos, before, after, logits),
        complete(before, config, positions),
        pos < positions,
        0 <= l < config.n_layers,
        0 <= p < positions,
        p != pos,
    ensures
        after.keys[l][p] == before.keys[l][p],
        after.values[l][p] == before.values[l][p],
{
    let tr = choose|tr: ForwardTrace<T>| #[trigger]
        forward_run(o, config, token, pos, before, after, logits, tr);
    let n = config.n_layers as nat;
    lemma_layers_change(o, config, n, pos, tr.embedding, before, tr.hidden, after, l);
}

/// Every fourth block is one with a number that is three more than a multiple of four.
proof fn lemma_attends(l: int)
    ensures
        attends(l) <==> l % 4 == 3,
{
}

/// A pass of a token through the model changes keys and values in every fourth layer only, that is
/// in layers 3, 7, 11 and so on, and states and inputs of convolutions in all others only.
pub proof fn law_forward_keeps_apart<T: Scalar, M: Math<T>>(
    o: Origin<M>,
    config: ModelConfig,
    token: u32,
    pos: usize,
    before: Memory<T>,
    after: Memory<T>,
    logits: Seq<T>,
    positions: int,
    l: int,
)
    requires
        forwarded(o, config, token, pos, before, after, logits),
        complete(before, config, positions),
        pos < positions,
        0 <= l < config.n_layers,
    ensures
        l % 4 != 3 ==> after.keys[l] == before.keys[l] && after.values[l] == before.values[l],
        l % 4 == 3 ==> after.states[l] == before.states[l] && after.history[l]
            == before.history[l],
{
    lemma_attends(l);
    let tr = choose|tr: ForwardTrace<T>| #[trigger]
        forward_run(o, config, token, pos, before, after, logits, tr);
    let n = config.n_layers as nat;
    lemma_layers_change(o, config, n, pos, tr.embedding, before, tr.hidden, after, l);
}

/// A pass through one block.
proof fn lemma_block_kind<T: Scalar, M: Math<T>>(
    o: Origin<M>,
    config: ModelConfig,
    l: int,
    pos: usize,
    x: Seq<T>,
    before: Memory<T>,
    y: Seq<T>,
    after: Memory<T>,
)
    requires
        layer_done(o, config, l, pos, x, before, y, after),
    ensures
        l % 4 == 3 ==> {
            &&& after.states == before.states
            &&& after.history == before.history
            &&& after.keys == before.keys.update(l, after.keys[l])
            &&& after.values == before.values.update(l, after.values[l])
            &&& transformed(
                o,
                config,
                l as usize,
                x,
                pos,
                before.keys[l],
                before.values[l],
                after.keys[l],
                after.values[l],
                y,
            )
        },
        l % 4 != 3 ==> {
            &&& after.keys == before.keys
            &&& after.values == before.values
            &&& after.states == before.states.update(l, after.states[l])
            &&& after.history == before.history.update(l, after.history[l])
            &&& recurrent_block_done(
                o,
                config,
                l as usize,
                x,
                before.states[l],
                before.history[l],
                after.states[l],
                after.history[l],
                y,
            )
        },
{
    lemma_attends(l);
}

/// A pass through blocks is a pass through all but the last of them and then through the last:
/// through no block nothing changes, and block `l` is an attention block where `l` is three more
/// than a multiple of four, and a recurrent block elsewhere.
pub proof fn law_blocks_one_by_one<T: Scalar, M: Math<T>>(
    o: Origin<M>,
    config: ModelConfig,
    k: nat,
    pos: usize,
    x: Seq<T>,
    before: Memory<T>,
    y: Seq<T>,
    after: Memory<T>,
) -> (r: (Seq<T>, Memory<T>))
    requires
        layers_done(o, config, k, pos, x, before, y, after),
        k <= usize::MAX,
    ensures
        k == 0 ==> y == x && after == before,
        k > 0 ==> layers_done(o, config, (k - 1) as nat, pos, x, before, r.0, r.1),
        k > 0 && (k - 1) % 4 == 3 ==> {
            let l = k - 1;
            &&& after.states == r.1.states
            &&& after.history == r.1.history
            &&& after.keys == r.1.keys.update(l, after.keys[l])
            &&& after.values == r.1.values.update(l, after.values[l])
            &&& transformed(
                o,
                config,
                l as usize,
                r.0,
                pos,
                r.1.keys[l],
                r.1.values[l],
                after.keys[l],
                after.values[l],
                y,
            )
        },
        k > 0 && (k - 1) % 4 != 3 ==> {
            let l = k - 1;
            &&& after.keys == r.1.keys
            &&& after.values == r.1.values
            &&& after.states == r.1.states.update(l, after.states[l])
            &&& after.history == r.1.history.update(l, after.history[l])
            &&& recurrent_block_done(
                o,
                config,
                l as usize,
                r.0,
                r.1.states[l],
                r.1.history[l],
                after.states[l],
                after.history[l],
                y,
            )
        },
{
    if k == 0 {
        (x, before)
    } else {
        let (z, mid) = choose|z: Seq<T>, mid: Memory<T>|
            {
                &&& layers_done(o, config, (k - 1) as nat, pos, x, before, z, mid)
                &&& #[trigger] layer_done(o, config, k - 1, pos, z, mid, y, after)
            };
        lemma_block_kind(o, config, k - 1, pos, z, mid, y, after);
        (z, mid)
    }
}

/// A pass begins with the embedding of the token, which is its row of the embedding table, goes
/// through all blocks, and ends with the products of the normalised result and the rows of the
/// same table, one for each token.
pub proof fn law_forward_ends<T: Scalar, M: Math<T>>(
    o: Origin<M>,
    config: ModelConfig,
    token: u32,
    pos: usize,
    before: Memory<T>,
    after: Memory<T>,
    logits: Seq<T>,
) -> (r: (Tensor<T>, ForwardTrace<T>))
    requires
        forwarded(o, config, token, pos, before, after, logits),
    ensures
        is_weight(o, "token_embd.weight"@, r.0),
        token * config.embed_dim + config.embed_dim <= r.0.elems().len() ==> {
            &&& r.1.embedding.len() == config.embed_dim
            &&& forall|e: int|
                0 <= e < config.embed_dim ==> #[trigger] r.1.embedding[e] == r.0.elems()[token
                    * config.embed_dim + e]
        },
        layers_done(
            o,
            config,
            config.n_layers as nat,
            pos,
            r.1.embedding,
            before,
            r.1.hidden,
            after,
        ),
        is_weight(o, "output_norm.weight"@, r.1.norm),
        attention::normed(
            o.math,
            config.rms_eps,
            r.1.hidden,
            r.1.norm.elems(),
            r.1.normed,
        ),
        is_weight(o, "token_embd.weight"@, r.1.table),
        logits.len() == r.1.table.dims()[0],
        forall|t: int|
            0 <= t < logits.len() ==> arith::dot(
                r.1.table.elems().subrange(
                    t * config.embed_dim,
                    t * config.embed_dim + config.embed_dim,
                ),
                r.1.normed,
                #[trigger] logits[t],
            ),
{
    let tr = choose|tr: ForwardTrace<T>| #[trigger]
        forward_run(o, config, token, pos, before, after, logits, tr);
    let t = choose|t: Tensor<T>|
        {
            &&& #[trigger] is_weight(o, "token_embd.weight"@, t)
            &&& tr.embedding == tensor::row(t.elems(), config.embed_dim as int, token as int)
        };
    assert(token * config.embed_dim >= 0) by (nonlinear_arith)
        requires
            token >= 0,
            config.embed_dim >= 0,
    ;
    assert forall|i: int| 0 <= i < logits.len() implies arith::dot(
        tr.table.elems().subrange(
            i * config.embed_dim,
            i * config.embed_dim + config.embed_dim,
        ),
        tr.normed,
        #[trigger] logits[i],
    ) by {
        assert(tensor::row(tr.table.elems(), config.embed_dim as int, i)
            == tr.table.elems().subrange(
            i * config.embed_dim,
            i * config.embed_dim + config.embed_dim,
        ));
    }
    (t, tr)
}

/// A pass that can be done finds the weights of attention in layers 3, 7, 11 and so on, and those
/// of the recurrence in all others.
pub proof fn law_forward_needs_weights<M>(o: Origin<M>, config: ModelConfig, token: u32, l: nat)
    requires
        forward_error(o, config, token) is None,
        l < config.n_layers,
    ensures
        weight_error(o, name(l as usize, "attn_norm.weight"@)) is None,
        l % 4 == 3 ==> {
            &&& weight_error(o, name(l as usize, "attn_q.weight"@)) is None
            &&& weight_error(o, name(l as usize, "attn_k.weight"@)) is None
            &&& weight_error(o, name(l as usize, "attn_v.weight"@)) is None
            &&& weight_error(o, name(l as usize, "attn_output.weight"@)) is None
            &&& weight_error(o, name(l as usize, "ffn_down.weight"@)) is None
        },
        l % 4 != 3 ==> {
            &&& weight_error(o, name(l as usize, "attn_qkv.weight"@)) is None
            &&& weight_error(o, name(l as usize, "attn_gate.weight"@)) is None
            &&& weight_error(o, name(l as usize, "ssm_conv1d.weight"@)) is None
            &&& weight_error(o, name(l as usize, "ssm_out.weight"@)) is None
        },
{
    lemma_attends(l as int);
    lemma_no_layer_error(o, config, l, config.n_layers as nat, config.embed_dim);
    assert(if attends(l as int) {
        transformer_error(o, config, l as usize, config.embed_dim) is None
    } else {
        recurrent_error(o, config, l as usize, config.embed_dim) is None
    }) by {
        reveal(layer_error);
    }
    if l % 4 == 3 {
        reveal(transformer_error);
    } else {
        reveal(recurrent_error);
    }
}

/// A pass can be done where the table and the last norm are there and go with the configuration,
/// the token has a row in the table, and every block can be done: as an attention block in layers
/// 3, 7, 11 and so on, as a recurrent block in all others.
pub proof fn law_forward_can_be_done<M>(o: Origin<M>, config: ModelConfig, token: u32)
    requires
        weight_error(o, "token_embd.weight"@) is None,
        weight_error(o, "output_norm.weight"@) is None,
        weight_dims(o, "token_embd.weight"@).len() == 2,
        weight_dims(o, "token_embd.weight"@)[1] == config.embed_dim,
        token * config.embed_dim + config.embed_dim <= shape::numel_of(
            weight_dims(o, "token_embd.weight"@),
        ),
        weight_dims(o, "output_norm.weight"@) == seq![config.embed_dim],
        forall|l: int|
            0 <= l < config.n_layers && l % 4 == 3 ==> (#[trigger] transformer_error(
                o,
                config,
                l as usize,
                config.embed_dim,
            )) is None,
        forall|l: int|
            0 <= l < config.n_layers && l % 4 != 3 ==> (#[trigger] recurrent_error(
                o,
                config,
                l as usize,
                config.embed_dim,
            )) is None,
    ensures
        forward_error(o, config, token) is None,
{
    lemma_layers_can_be_done(o, config, config.n_layers as nat);
}

proof fn lemma_layers_can_be_done<M>(o: Origin<M>, config: ModelConfig, k: nat)
    requires
        k <= config.n_layers,
        forall|l: int|
            0 <= l < config.n_layers && l % 4 == 3 ==> (#[trigger] transformer_error(
                o,
                config,
                l as usize,
                config.embed_dim,
            )) is None,
        forall|l: int|
            0 <= l < config.n_layers && l % 4 != 3 ==> (#[trigger] recurrent_error(
                o,
                config,
                l as usize,
                config.embed_dim,
            )) is None,
    ensures
        layers_error(o, config, k, config.embed_dim) is None,
    decreases k,
{
    if k > 0 {
        lemma_layers_can_be_done(o, config, (k - 1) as nat);
        let l = k - 1;
        lemma_attends(l);
        reveal(layer_error);
        if l % 4 == 3 {
            assert(transformer_error(o, config, l as usize, config.embed_dim) is None);
        } else {
            assert(recurrent_error(o, config, l as usize, config.embed_dim) is None);
        }
    }
}

/// An attention block can be done where its weights are there and have the dimensions that the
/// configuration gives: the queries come with as many elements that gate the output.
pub proof fn law_attention_block_can_be_done<M>(
    o: Origin<M>,
    config: ModelConfig,
    layer: usize,
    n: usize,
    queries: usize,
    both: usize,
    keys: usize,
    hidden: usize,
)
    requires
        queries == config.n_heads * config.head_dim,
        both == 2 * queries,
        keys == config.n_kv_heads * config.head_dim,
        weight_error(o, name(layer, "attn_norm.weight"@)) is None,
        weight_error(o, name(layer, "attn_q.weight"@)) is None,
        weight_error(o, name(layer, "attn_k.weight"@)) is None,
        weight_error(o, name(layer, "attn_v.weight"@)) is None,
        weight_error(o, name(layer, "attn_output.weight"@)) is None,
        weight_error(o, name(layer, "attn_q_norm.weight"@)) is None,
        weight_error(o, name(layer, "attn_k_norm.weight"@)) is None,
        weight_error(o, name(layer, "post_attention_norm.weight"@)) is None,
        weight_error(o, name(layer, "ffn_gate.weight"@)) is None,
        weight_error(o, name(layer, "ffn_up.weight"@)) is None,
        weight_error(o, name(layer, "ffn_down.weight"@)) is None,
        weight_dims(o, name(layer, "attn_norm.weight"@)) == seq![n],
        weight_dims(o, name(layer, "attn_q.weight"@)) == seq![both, n],
        weight_dims(o, name(layer, "attn_k.weight"@)) == seq![keys, n],
        weight_dims(o, name(layer, "attn_v.weight"@)) == seq![keys, n],
        weight_dims(o, name(layer, "attn_output.weight"@)) == seq![n, queries],
        weight_dims(o, name(layer, "attn_q_norm.weight"@)) == seq![config.head_dim],
        weight_dims(o, name(layer, "attn_k_norm.weight"@)) == seq![config.head_dim],
        weight_dims(o, name(layer, "post_attention_norm.weight"@)) == seq![n],
        weight_dims(o, name(layer, "ffn_gate.weight"@)) == seq![hidden, n],
        weight_dims(o, name(layer, "ffn_up.weight"@)) == seq![hidden, n],
        weight_dims(o, name(layer, "ffn_down.weight"@)) == seq![n, hidden],
    ensures
        transformer_error(o, config, layer, n) is None,
{
    reveal(transformer_error);
}

/// A recurrent block can be done where its weights are there and have the dimensions that the
/// configuration gives: queries, keys and values come as one vector, and the convolution is over
/// four inputs.
pub proof fn law_recurrent_block_can_be_done<M>(
    o: Origin<M>,
    config: ModelConfig,
    layer: usize,
    n: usize,
    width: usize,
    all: usize,
)
    requires
        width == config.ssm_group_count * config.ssm_state_size,
        all == 3 * width,
        weight_error(o, name(layer, "attn_norm.weight"@)) is None,
        weight_error(o, name(layer, "attn_qkv.weight"@)) is None,
        weight_error(o, name(layer, "attn_gate.weight"@)) is None,
        weight_error(o, name(layer, "ssm_conv1d.weight"@)) is None,
        weight_error(o, name(layer, "ssm_a"@)) is None,
        weight_error(o, name(layer, "ssm_alpha.weight"@)) is None,
        weight_error(o, name(layer, "ssm_beta.weight"@)) is None,
        weight_error(o, name(layer, "ssm_dt.bias"@)) is None,
        weight_error(o, name(layer, "ssm_norm.weight"@)) is None,
        weight_error(o, name(layer, "ssm_out.weight"@)) is None,
        weight_dims(o, name(layer, "attn_norm.weight"@)) == seq![n],
        weight_dims(o, name(layer, "attn_qkv.weight"@)) == seq![all, n],
        weight_dims(o, name(layer, "attn_gate.weight"@)) == seq![width, n],
        weight_dims(o, name(layer, "ssm_conv1d.weight"@)) == seq![all, 4],
        weight_dims(o, name(layer, "ssm_a"@)) == seq![config.ssm_group_count],
        weight_dims(o, name(layer, "ssm_alpha.weight"@)) == seq![config.ssm_group_count, n],
        weight_dims(o, name(layer, "ssm_beta.weight"@)) == seq![config.ssm_group_count, n],
        weight_dims(o, name(layer, "ssm_dt.bias"@)) == seq![config.ssm_group_count],
        weight_dims(o, name(layer, "ssm_norm.weight"@)) == seq![config.ssm_state_size],
        weight_dims(o, name(layer, "ssm_out.weight"@)) == seq![n, width],
    ensures
        recurrent_error(o, config, layer, n) is None,
{
    reveal(recurrent_error);
}

} // verus!
