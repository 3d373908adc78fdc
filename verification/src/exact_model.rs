//! What the blocks of the model come to where arithmetic is exact.

use crate::arith::{self, Math, Scalar};
use crate::attention;
use crate::config::ModelConfig;
use crate::elementwise;
use crate::exact::{exact, lemma_times_swap, lemma_times_times, Reals};
use crate::exact_recurrent::{lemma_share, lemma_silu};
use crate::feedforward::{self, FfnTrace, FfnWeights};
use crate::model::{self, Origin, RecurrentBlockTrace, TransformerTrace};
use crate::recurrent;
use crate::tensor;
use vstd::prelude::*;

verus! {

/// The feed-forward part of a block, in terms of the rows of its weights. The result gives the
/// values in between: two projections of the input, the product of the two, of which the logistic
/// function of the first lets a share through, and a projection of that.
pub proof fn law_feed_forward_by_rows<T: Scalar, M: Math<T>>(
    m: M,
    v: Reals<T>,
    w: FfnWeights<T>,
    x: Seq<T>,
    y: Seq<T>,
) -> (tr: FfnTrace<T>)
    requires
        exact(m, v),
        feedforward::fed_forward(m, w, x, y),
    ensures
        forall|i: int|
            0 <= i < w.gate.dims()[0] ==> arith::dot(
                w.gate.elems().subrange(i * x.len(), i * x.len() + x.len()),
                x,
                #[trigger] tr.gate[i],
            ),
        forall|i: int|
            0 <= i < w.gate.dims()[0] ==> arith::dot(
                w.up.elems().subrange(i * x.len(), i * x.len() + x.len()),
                x,
                #[trigger] tr.up[i],
            ),
        tr.gated.len() == w.gate.dims()[0],
        forall|i: int|
            0 <= i < w.gate.dims()[0] ==> {
                let r = v.of(#[trigger] tr.gated[i]);
                r == (v.of(tr.gate[i]) * v.of(tr.up[i]) - r) * (v.exp)(v.of(tr.gate[i]))
            },
        y.len() == w.down.dims()[0],
        forall|i: int|
            0 <= i < w.down.dims()[0] ==> arith::dot(
                w.down.elems().subrange(
                    i * w.gate.dims()[0],
                    i * w.gate.dims()[0] + w.gate.dims()[0],
                ),
                tr.gated,
                #[trigger] y[i],
            ),
{
    let tr = choose|tr: FfnTrace<T>| #[trigger] feedforward::ffn_run(m, w, x, y, tr);
    let hidden = w.gate.dims()[0] as int;
    assert forall|i: int| 0 <= i < hidden implies {
        let r = v.of(#[trigger] tr.gated[i]);
        r == (v.of(tr.gate[i]) * v.of(tr.up[i]) - r) * (v.exp)(v.of(tr.gate[i]))
    } by {
        assert(elementwise::silu(m, tr.gate[i], tr.gate_silu[i]));
        let s = lemma_silu(m, v, tr.gate[i], tr.gate_silu[i]);
        assert(arith::multiplied(tr.gate_silu[i], tr.up[i], tr.gated[i]));
        let (a, b) = (v.of(tr.gate[i]), v.of(tr.up[i]));
        lemma_times_times(a, s, b);
        lemma_times_swap(s, b);
        lemma_times_times(a, b, s);
        lemma_share(a * b, s, (v.exp)(a));
    }
    assert forall|i: int| 0 <= i < hidden implies arith::dot(
        w.gate.elems().subrange(i * x.len(), i * x.len() + x.len()),
        x,
        #[trigger] tr.gate[i],
    ) by {
        assert(tensor::row(w.gate.elems(), x.len() as int, i) == w.gate.elems().subrange(
            i * x.len(),
            i * x.len() + x.len(),
        ));
    }
    assert forall|i: int| 0 <= i < hidden implies arith::dot(
        w.up.elems().subrange(i * x.len(), i * x.len() + x.len()),
        x,
        #[trigger] tr.up[i],
    ) by {
        assert(tensor::row(w.up.elems(), x.len() as int, i) == w.up.elems().subrange(
            i * x.len(),
            i * x.len() + x.len(),
        ));
    }
    assert forall|i: int| 0 <= i < w.down.dims()[0] implies arith::dot(
        w.down.elems().subrange(i * hidden, i * hidden + hidden),
        tr.gated,
        #[trigger] y[i],
    ) by {
        assert(tensor::row(w.down.elems(), hidden, i) == w.down.elems().subrange(
            i * hidden,
            i * hidden + hidden,
        ));
    }
    tr
}

/// An attention block adds to its input, element by element, what attention makes of the
/// normalised input, and what the feed-forward part then makes of the normalised sum.
pub proof fn law_attention_block_adds<T: Scalar, M: Math<T>>(
    o: Origin<M>,
    v: Reals<T>,
    config: ModelConfig,
    layer: usize,
    x: Seq<T>,
    pos: usize,
    keys: Seq<Seq<T>>,
    vals: Seq<Seq<T>>,
    keys_after: Seq<Seq<T>>,
    vals_after: Seq<Seq<T>>,
    y: Seq<T>,
) -> (tr: TransformerTrace<T>)
    requires
        exact(o.math, v),
        model::transformed(o, config, layer, x, pos, keys, vals, keys_after, vals_after, y),
    ensures
        model::is_weight(o, model::name(layer, "attn_norm.weight"@), tr.norm1),
        attention::normed(o.math, config.rms_eps, x, tr.norm1.elems(), tr.normed1),
        model::is_weight(o, model::name(layer, "attn_q.weight"@), tr.attention.q),
        model::is_weight(o, model::name(layer, "attn_k.weight"@), tr.attention.k),
        model::is_weight(o, model::name(layer, "attn_v.weight"@), tr.attention.v),
        model::is_weight(o, model::name(layer, "attn_output.weight"@), tr.attention.out),
        model::is_weight(o, model::name(layer, "attn_q_norm.weight"@), tr.attention.q_norm),
        model::is_weight(o, model::name(layer, "attn_k_norm.weight"@), tr.attention.k_norm),
        attention::attended(
            o.math,
            config,
            tr.attention,
            tr.normed1,
            pos,
            keys,
            vals,
            keys_after,
            vals_after,
            tr.attended,
        ),
        tr.attended.len() == x.len(),
        tr.middle.len() == x.len(),
        forall|i: int|
            0 <= i < x.len() ==> v.of(#[trigger] tr.middle[i]) == v.of(x[i]) + v.of(tr.attended[i]),
        model::is_weight(o, model::name(layer, "post_attention_norm.weight"@), tr.norm2),
        attention::normed(o.math, config.rms_eps, tr.middle, tr.norm2.elems(), tr.normed2),
        model::is_weight(o, model::name(layer, "ffn_gate.weight"@), tr.ffn.gate),
        model::is_weight(o, model::name(layer, "ffn_up.weight"@), tr.ffn.up),
        model::is_weight(o, model::name(layer, "ffn_down.weight"@), tr.ffn.down),
        feedforward::fed_forward(o.math, tr.ffn, tr.normed2, tr.fed),
        tr.fed.len() == x.len(),
        y.len() == x.len(),
        forall|i: int|
            0 <= i < x.len() ==> v.of(#[trigger] y[i]) == v.of(x[i]) + v.of(tr.attended[i]) + v.of(
                tr.fed[i],
            ),
{
    let tr = choose|tr: TransformerTrace<T>| #[trigger]
        model::transformer_run(
            o,
            config,
            layer,
            x,
            pos,
            keys,
            vals,
            keys_after,
            vals_after,
            y,
            tr,
        );
    assert forall|i: int| 0 <= i < x.len() implies v.of(#[trigger] tr.middle[i]) == v.of(x[i])
        + v.of(tr.attended[i]) by {
        assert(arith::added(x[i], tr.attended[i], tr.middle[i]));
    }
    assert forall|i: int| 0 <= i < x.len() implies v.of(#[trigger] y[i]) == v.of(x[i]) + v.of(
        tr.attended[i],
    ) + v.of(tr.fed[i]) by {
        assert(arith::added(tr.middle[i], tr.fed[i], y[i]));
        assert(v.of(tr.middle[i]) == v.of(x[i]) + v.of(tr.attended[i]));
    }
    tr
}

/// A recurrent block adds to its input, element by element, what the recurrence makes of the
/// normalised input.
pub proof fn law_recurrent_block_adds<T: Scalar, M: Math<T>>(
    o: Origin<M>,
    v: Reals<T>,
    config: ModelConfig,
    layer: usize,
    x: Seq<T>,
    states: Seq<Seq<T>>,
    history: Seq<Seq<T>>,
    states_after: Seq<Seq<T>>,
    history_after: Seq<Seq<T>>,
    y: Seq<T>,
) -> (tr: RecurrentBlockTrace<T>)
    requires
        exact(o.math, v),
        model::recurrent_block_done(
            o,
            config,
            layer,
            x,
            states,
            history,
            states_after,
            history_after,
            y,
        ),
    ensures
        model::is_weight(o, model::name(layer, "attn_norm.weight"@), tr.norm),
        attention::normed(o.math, config.rms_eps, x, tr.norm.elems(), tr.normed),
        model::is_weight(o, model::name(layer, "attn_qkv.weight"@), tr.recurrent.qkv),
        model::is_weight(o, model::name(layer, "attn_gate.weight"@), tr.recurrent.gate),
        model::is_weight(o, model::name(layer, "ssm_conv1d.weight"@), tr.recurrent.conv),
        model::is_weight(o, model::name(layer, "ssm_a"@), tr.recurrent.a),
        model::is_weight(o, model::name(layer, "ssm_alpha.weight"@), tr.recurrent.alpha),
        model::is_weight(o, model::name(layer, "ssm_beta.weight"@), tr.recurrent.beta),
        model::is_weight(o, model::name(layer, "ssm_dt.bias"@), tr.recurrent.dt),
        model::is_weight(o, model::name(layer, "ssm_norm.weight"@), tr.recurrent.norm),
        model::is_weight(o, model::name(layer, "ssm_out.weight"@), tr.recurrent.out),
        recurrent::recurred(
            o.math,
            config,
            tr.recurrent,
            tr.normed,
            states,
            history,
            states_after,
            history_after,
            tr.recurred,
        ),
        tr.recurred.len() == x.len(),
        y.len() == x.len(),
        forall|i: int|
            0 <= i < x.len() ==> v.of(#[trigger] y[i]) == v.of(x[i]) + v.of(tr.recurred[i]),
{
    let tr = choose|tr: RecurrentBlockTrace<T>| #[trigger]
        model::recurrent_block_run(
            o,
            config,
            layer,
            x,
            states,
            history,
            states_after,
            history_after,
            y,
            tr,
        );
    assert forall|i: int| 0 <= i < x.len() implies v.of(#[trigger] y[i]) == v.of(x[i]) + v.of(
        tr.recurred[i],
    ) by {
        assert(arith::added(x[i], tr.recurred[i], y[i]));
    }
    tr
}

/// The normalisation of a vector with the `eps` of a model: its elements, times the root of the
/// mean square plus `eps`, are the elements of the vector times the weights.
pub proof fn law_normed<T: Scalar, M: Math<T>>(
    m: M,
    v: Reals<T>,
    eps: u32,
    xs: Seq<T>,
    ws: Seq<T>,
    ys: Seq<T>,
    i: int,
)
    requires
        exact(m, v),
        (v.bits)(eps) > 0real,
        xs.len() <= usize::MAX,
        attention::normed(m, eps, xs, ws, ys),
        0 <= i < xs.len(),
    ensures
        ys.len() == xs.len(),
        ({
            let squares = Seq::new(xs.len(), |k: int| v.of(xs[k]) * v.of(xs[k]));
            v.of(ys[i]) * (v.sqrt)(
                crate::exact::total(squares) / (xs.len() as real) + (v.bits)(eps),
            ) == v.of(xs[i]) * v.of(ws[i])
        }),
{
    let e = choose|e: T| #[trigger]
        arith::from_bits(m, eps, e) && tensor::rms_normed(m, xs, ws, e, ys);
    crate::exact::law_rms_norm(m, v, xs, ws, e, ys, i);
    assert(crate::exact::products(v, xs, xs) =~= Seq::new(
        xs.len(),
        |k: int| v.of(xs[k]) * v.of(xs[k]),
    ));
}

} // verus!
