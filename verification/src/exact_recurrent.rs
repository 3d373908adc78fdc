//! What the gated delta-rule recurrence comes to where arithmetic is exact.

use crate::arith::{self, Math, Scalar};
use crate::attention;
use crate::config::ModelConfig;
use crate::elementwise;
use crate::exact::{
    exact, law_dot, law_sigmoid, law_softplus, lemma_cancel, lemma_plus_times, lemma_quotient,
    lemma_times_minus, lemma_times_swap, lemma_times_times, lemma_total_times, products, total,
    Reals,
};
use crate::recurrent::{self, GroupTrace, RecurrentTrace, RecurrentWeights};
use crate::shape;
use crate::tensor;
use vstd::prelude::*;

verus! {

/// The sum of sums.
proof fn lemma_total_plus(a: Seq<real>, b: Seq<real>, c: Seq<real>)
    requires
        a.len() == b.len() == c.len(),
        forall|i: int| 0 <= i < c.len() ==> #[trigger] c[i] == a[i] + b[i],
    ensures
        total(c) == total(a) + total(b),
    decreases c.len(),
{
    if c.len() > 0 {
        lemma_total_plus(a.drop_last(), b.drop_last(), c.drop_last());
        assert(c.last() == a.last() + b.last());
    }
}

/// One element of a new state, times a number.
proof fn lemma_term(s: real, d: real, delta: real, k: real, beta: real, u: real)
    ensures
        (s * d + (delta * k) * beta) * u == (s * u) * d + (k * u) * (beta * delta),
{
    lemma_plus_times(s * d, (delta * k) * beta, u);
    lemma_times_times(s, d, u);
    lemma_times_swap(d, u);
    lemma_times_times(s, u, d);
    lemma_times_swap(delta * k, beta);
    lemma_times_times(beta, delta, k);
    lemma_times_times(beta * delta, k, u);
    lemma_times_swap(beta * delta, k * u);
}

/// One step of the delta rule. The state is a matrix, here read with any vector `u`: it fades by
/// the decay, and what it then predicts for the key moves toward the value, as far as `beta` says,
/// along the key. The output is the new state, read with the query.
pub proof fn law_delta_rule<T: Scalar, M: Math<T>>(
    m: M,
    v: Reals<T>,
    size: int,
    state: Seq<T>,
    q: Seq<T>,
    k: Seq<T>,
    val: Seq<T>,
    g: T,
    beta: T,
    state_after: Seq<T>,
    out: Seq<T>,
    u: Seq<T>,
    i: int,
)
    requires
        exact(m, v),
        recurrent::group_stepped(m, size, state, q, k, val, g, beta, state_after, out),
        0 <= i < size,
        state.len() == size * size,
        q.len() == size,
        k.len() == size,
        val.len() == size,
        u.len() == size,
    ensures
        state_after.len() == size * size,
        out.len() == size,
        ({
            let decay = (v.exp)(v.of(g));
            let row = state.subrange(i * size, i * size + size);
            let row_after = state_after.subrange(i * size, i * size + size);
            let predicted = total(products(v, row, k)) * decay;
            &&& total(products(v, row_after, u)) == total(products(v, row, u)) * decay + total(
                products(v, k, u),
            ) * (v.of(beta) * (v.of(val[i]) - predicted))
            &&& v.of(out[i]) == total(products(v, row_after, q))
        }),
{
    let tr = choose|tr: GroupTrace<T>| #[trigger]
        recurrent::group_run(m, size, state, q, k, val, g, beta, state_after, out, tr);
    let d = (v.exp)(v.of(g));
    let b = v.of(beta);
    assert(v.of(tr.decay) == d);
    shape::lemma_cell(i, 0, size, size);
    let from = i * size;
    let row = state.subrange(from, from + size);
    let row_after = state_after.subrange(from, from + size);
    let faded = tensor::row(tr.faded, size, i);
    assert forall|j: int| 0 <= j < size implies v.of(#[trigger] tr.faded[from + j]) == v.of(row[j])
        * d by {
        assert(arith::multiplied(state[from + j], tr.decay, tr.faded[from + j]));
    }
    law_dot(m, v, faded, k, tr.predicted[i]);
    let (fk, sk) = (products(v, faded, k), products(v, row, k));
    assert forall|j: int| 0 <= j < fk.len() implies #[trigger] fk[j] == sk[j] * d by {
        assert(faded[j] == tr.faded[from + j]);
        let (s, x) = (v.of(row[j]), v.of(k[j]));
        lemma_times_times(s, d, x);
        lemma_times_swap(d, x);
        lemma_times_times(s, x, d);
    }
    lemma_total_times(sk, d, fk);
    assert(arith::subtracted(val[i], tr.predicted[i], tr.delta[i]));
    let delta = v.of(val[i]) - total(sk) * d;
    assert(v.of(tr.delta[i]) == delta);
    let (pu, su, ku) = (products(v, row_after, u), products(v, row, u), products(v, k, u));
    let (left, right) = (
        Seq::new(size as nat, |j: int| su[j] * d),
        Seq::new(size as nat, |j: int| ku[j] * (b * delta)),
    );
    assert forall|j: int| 0 <= j < pu.len() implies #[trigger] pu[j] == left[j] + right[j] by {
        let e = from + j;
        shape::lemma_cell(i, j, size, size);
        assert(arith::multiplied(tr.delta[i], k[j], tr.outer[i * k.len() + j]));
        assert(arith::multiplied(tr.outer[e], beta, tr.correction[e]));
        assert(arith::added(tr.faded[e], tr.correction[e], state_after[e]));
        assert(row_after[j] == state_after[e]);
        assert(v.of(tr.faded[from + j]) == v.of(row[j]) * d);
        lemma_term(v.of(row[j]), d, delta, v.of(k[j]), b, v.of(u[j]));
    }
    lemma_total_plus(left, right, pu);
    lemma_total_times(su, d, left);
    lemma_total_times(ku, b * delta, right);
    law_dot(m, v, tensor::row(state_after, size, i), q, out[i]);
}

/// Where the key, times itself and `beta`, gives one, the new state holds the value under the key:
/// read with the key, it gives the value.
pub proof fn law_delta_rule_stores<T: Scalar, M: Math<T>>(
    m: M,
    v: Reals<T>,
    size: int,
    state: Seq<T>,
    q: Seq<T>,
    k: Seq<T>,
    val: Seq<T>,
    g: T,
    beta: T,
    state_after: Seq<T>,
    out: Seq<T>,
    i: int,
)
    requires
        exact(m, v),
        recurrent::group_stepped(m, size, state, q, k, val, g, beta, state_after, out),
        0 <= i < size,
        state.len() == size * size,
        q.len() == size,
        k.len() == size,
        val.len() == size,
        total(products(v, k, k)) * v.of(beta) == 1real,
    ensures
        total(products(v, state_after.subrange(i * size, i * size + size), k)) == v.of(val[i]),
{
    law_delta_rule(m, v, size, state, q, k, val, g, beta, state_after, out, k, i);
    let kk = total(products(v, k, k));
    let row = state.subrange(i * size, i * size + size);
    let delta = v.of(val[i]) - total(products(v, row, k)) * (v.exp)(v.of(g));
    lemma_times_times(kk, v.of(beta), delta);
    assert(1real * delta == delta) by (nonlinear_arith);
}

/// From a state of zeros, the output is the value times `beta` times the dot product of key and
/// query.
pub proof fn law_delta_rule_from_zero<T: Scalar, M: Math<T>>(
    m: M,
    v: Reals<T>,
    size: int,
    state: Seq<T>,
    q: Seq<T>,
    k: Seq<T>,
    val: Seq<T>,
    g: T,
    beta: T,
    state_after: Seq<T>,
    out: Seq<T>,
    i: int,
)
    requires
        exact(m, v),
        recurrent::group_stepped(m, size, state, q, k, val, g, beta, state_after, out),
        0 <= i < size,
        state.len() == size * size,
        q.len() == size,
        k.len() == size,
        val.len() == size,
        forall|e: int| 0 <= e < state.len() ==> v.of(#[trigger] state[e]) == 0real,
    ensures
        v.of(out[i]) == total(products(v, k, q)) * (v.of(beta) * v.of(val[i])),
{
    law_delta_rule(m, v, size, state, q, k, val, g, beta, state_after, out, q, i);
    shape::lemma_cell(i, 0, size, size);
    let row = state.subrange(i * size, i * size + size);
    assert forall|j: int| 0 <= j < row.len() implies v.of(#[trigger] row[j]) == 0real by {
        assert(row[j] == state[i * size + j]);
    }
    lemma_zero_row(v, row, k);
    lemma_zero_row(v, row, q);
    let d = (v.exp)(v.of(g));
    assert(0real * d == 0real) by (nonlinear_arith);
}

/// Products with zeros.
proof fn lemma_zero_row<T>(v: Reals<T>, row: Seq<T>, u: Seq<T>)
    requires
        row.len() == u.len(),
        forall|j: int| 0 <= j < row.len() ==> v.of(#[trigger] row[j]) == 0real,
    ensures
        total(products(v, row, u)) == 0real,
{
    let ps = products(v, row, u);
    assert forall|j: int| 0 <= j < ps.len() implies #[trigger] ps[j] == ps[j] * 0real by {
        let x = v.of(u[j]);
        assert(v.of(row[j]) == 0real);
        assert(0real * x == 0real && (0real * x) * 0real == 0real) by (nonlinear_arith);
    }
    lemma_total_times(ps, 0real, ps);
    let t = total(ps);
    assert(t * 0real == 0real) by (nonlinear_arith);
}

/// The product of a number and the logistic function of another: it and what is missing to the
/// number are to each other as the exponential of the other to one.
pub proof fn lemma_share(x: real, s: real, e: real)
    requires
        s == (1real - s) * e,
    ensures
        x * s == (x - x * s) * e,
{
    lemma_times_minus(x, 1real, s);
    assert(x * 1real == x) by (nonlinear_arith);
    lemma_times_times(x, 1real - s, e);
}

/// The logistic function, times its number.
pub proof fn lemma_silu<T: Scalar, M: Math<T>>(m: M, v: Reals<T>, x: T, r: T) -> (s: real)
    requires
        exact(m, v),
        elementwise::silu(m, x, r),
    ensures
        s == (1real - s) * (v.exp)(v.of(x)),
        v.of(r) == v.of(x) * s,
        v.of(r) == (v.of(x) - v.of(r)) * (v.exp)(v.of(x)),
{
    let d = choose|d: T| #[trigger]
        elementwise::one_plus_exp_neg(m, x, d) && arith::divided(x, d, r);
    let (a, e, f) = (v.of(x), (v.exp)(v.of(x)), (v.exp)(0real - v.of(x)));
    let t = 1real + f;
    assert(v.of(d) == t);
    let s = 1real / t;
    lemma_quotient(1real, t);
    lemma_quotient(a, t);
    lemma_times_times(a, s, t);
    assert(a * 1real == a) by (nonlinear_arith);
    lemma_cancel(a * s, a / t, t);
    assert(v.exp_of_sum(a, 0real - a));
    crate::exact::lemma_exp_zero(v);
    assert(e * f == 1real);
    assert(s == (1real - s) * e) by (nonlinear_arith)
        requires
            s * (1real + f) == 1real,
            e * f == 1real,
            f > 0real,
            e > 0real,
    ;
    lemma_share(a, s, e);
    s
}

/// The logarithm of a decay: minus the exponential of `a`, times the softplus of `alpha + dt`.
pub proof fn law_log_decay<T: Scalar, M: Math<T>>(m: M, v: Reals<T>, a: T, alpha: T, dt: T, r: T)
    requires
        exact(m, v),
        recurrent::log_decay(m, a, alpha, dt, r),
    ensures
        ({
            let (s, e) = (v.of(alpha) + v.of(dt), (v.exp)(v.of(a)));
            &&& s <= 20real ==> (v.exp)((0real - v.of(r)) / e) == 1real + (v.exp)(s)
            &&& s > 20real ==> v.of(r) == 0real - e * s
        }),
{
    let (s, sp, ea, p, minus) = choose|s: T, sp: T, ea: T, p: T, minus: T|
        {
            &&& #[trigger] arith::added(alpha, dt, s)
            &&& #[trigger] elementwise::softplus(m, s, sp)
            &&& #[trigger] arith::exp(m, a, ea)
            &&& #[trigger] arith::multiplied(ea, sp, p)
            &&& #[trigger] arith::from_int(m, -1i32, minus)
            &&& arith::multiplied(p, minus, r)
        };
    law_softplus(m, v, s, sp);
    let (e, w) = (v.of(ea), v.of(sp));
    assert(v.of(minus) == -1real);
    let x = e * w;
    assert(x * (-1real) == 0real - x) by (nonlinear_arith);
    assert(v.of(r) == 0real - x);
    lemma_quotient(x, e);
    lemma_times_swap(e, w);
    lemma_cancel(x / e, w, e);
}

/// The recurrence of a block, in terms of the rows of its weights and the elements of its input.
/// The result gives the values in between.
///
/// Of the projection, each channel goes through a convolution over this position and the three
/// before it, the oldest first, and through its logistic function. Of these channels, those of the
/// queries of all groups come first, those of the keys next, and those of the values last. Each
/// group makes a step of the delta rule; its output is normalised and goes through the gates, and
/// the output projection comes last.
pub proof fn law_recurrence_by_rows<T: Scalar, M: Math<T>>(
    m: M,
    v: Reals<T>,
    config: ModelConfig,
    w: RecurrentWeights<T>,
    x: Seq<T>,
    states: Seq<Seq<T>>,
    history: Seq<Seq<T>>,
    states_after: Seq<Seq<T>>,
    history_after: Seq<Seq<T>>,
    y: Seq<T>,
) -> (tr: RecurrentTrace<T>)
    requires
        exact(m, v),
        recurrent::recurred(m, config, w, x, states, history, states_after, history_after, y),
        w.wf(config, x.len() as int),
        history.len() == 3,
    ensures
        forall|i: int|
            0 <= i < w.qkv.dims()[0] ==> arith::dot(
                w.qkv.elems().subrange(i * x.len(), i * x.len() + x.len()),
                x,
                #[trigger] tr.qkv[i],
            ),
        forall|i: int|
            0 <= i < w.gate.dims()[0] ==> arith::dot(
                w.gate.elems().subrange(i * x.len(), i * x.len() + x.len()),
                x,
                #[trigger] tr.z[i],
            ),
        forall|i: int|
            0 <= i < w.alpha.dims()[0] ==> arith::dot(
                w.alpha.elems().subrange(i * x.len(), i * x.len() + x.len()),
                x,
                #[trigger] tr.alpha[i],
            ),
        forall|i: int|
            0 <= i < w.beta.dims()[0] ==> arith::dot(
                w.beta.elems().subrange(i * x.len(), i * x.len() + x.len()),
                x,
                #[trigger] tr.beta_proj[i],
            ),
        forall|i: int|
            0 <= i < config.ssm_group_count ==> recurrent::log_decay(
                m,
                w.a.elems()[i],
                tr.alpha[i],
                w.dt.elems()[i],
                #[trigger] tr.g[i],
            ),
        forall|i: int|
            0 <= i < config.ssm_group_count ==> v.of(#[trigger] tr.beta[i]) == (1real - v.of(
                tr.beta[i],
            )) * (v.exp)(v.of(tr.beta_proj[i])),
        history_after.len() == 3,
        history_after[0] == history[1],
        history_after[1] == history[2],
        history_after[2] == tr.qkv.subrange(0, 3 * (config.ssm_group_count * config.ssm_state_size)),
        forall|c: int|
            0 <= c < 3 * (config.ssm_group_count * config.ssm_state_size) ==> {
                let k = w.conv.elems();
                v.of(#[trigger] tr.conv[c]) == v.of(k[4 * c]) * v.of(history[0][c]) + v.of(
                    k[4 * c + 1],
                ) * v.of(history[1][c]) + v.of(k[4 * c + 2]) * v.of(history[2][c]) + v.of(
                    k[4 * c + 3],
                ) * v.of(tr.qkv[c])
            },
        forall|c: int|
            0 <= c < 3 * (config.ssm_group_count * config.ssm_state_size) ==> v.of(
                #[trigger] tr.mixed[c],
            ) == (v.of(tr.conv[c]) - v.of(tr.mixed[c])) * (v.exp)(v.of(tr.conv[c])),
        forall|i: int|
            0 <= i < config.ssm_group_count ==> {
                let (size, dim) = (
                    config.ssm_state_size as int,
                    config.ssm_group_count * config.ssm_state_size,
                );
                recurrent::group_stepped(
                    m,
                    size,
                    states[i],
                    tr.mixed.subrange(i * size, i * size + size),
                    tr.mixed.subrange(dim + i * size, dim + i * size + size),
                    tr.mixed.subrange(2 * dim + i * size, 2 * dim + i * size + size),
                    tr.g[i],
                    tr.beta[i],
                    states_after[i],
                    #[trigger] tensor::row(tr.output, config.ssm_state_size as int, i),
                )
            },
        forall|i: int|
            0 <= i < config.ssm_group_count ==> {
                let size = config.ssm_state_size as int;
                attention::normed(
                    m,
                    config.rms_eps,
                    tr.output.subrange(i * size, i * size + size),
                    w.norm.elems(),
                    #[trigger] tensor::row(tr.normed, config.ssm_state_size as int, i),
                )
            },
        forall|e: int|
            0 <= e < config.ssm_group_count * config.ssm_state_size ==> {
                let r = v.of(#[trigger] tr.gated[e]);
                r == (v.of(tr.normed[e]) * v.of(tr.z[e]) - r) * (v.exp)(v.of(tr.z[e]))
            },
        forall|i: int|
            0 <= i < w.out.dims()[0] ==> {
                let dim = config.ssm_group_count * config.ssm_state_size;
                arith::dot(
                    w.out.elems().subrange(i * dim, i * dim + dim),
                    tr.gated,
                    #[trigger] y[i],
                )
            },
{
    let tr = choose|tr: RecurrentTrace<T>| #[trigger]
        recurrent::recurrent_run(
            m,
            config,
            w,
            x,
            states,
            history,
            states_after,
            history_after,
            y,
            tr,
        );
    let (groups, size) = (config.ssm_group_count as int, config.ssm_state_size as int);
    let dim = groups * size;
    assert(dim >= 0) by (nonlinear_arith)
        requires
            groups >= 0,
            size >= 0,
            dim == groups * size,
    ;
    let input = tr.qkv.take(3 * dim);
    assert(input =~= tr.qkv.subrange(0, 3 * dim));
    assert forall|i: int| 0 <= i < groups implies v.of(#[trigger] tr.beta[i]) == (1real - v.of(
        tr.beta[i],
    )) * (v.exp)(v.of(tr.beta_proj[i])) by {
        assert(elementwise::sigmoid(m, tr.beta_proj[i], tr.beta[i]));
        law_sigmoid(m, v, tr.beta_proj[i], tr.beta[i]);
    }
    shape::lemma_matrix_shape(w.conv.dims());
    assert forall|c: int| 0 <= c < 3 * dim implies {
        let k = w.conv.elems();
        v.of(#[trigger] tr.conv[c]) == v.of(k[4 * c]) * v.of(history[0][c]) + v.of(k[4 * c + 1])
            * v.of(history[1][c]) + v.of(k[4 * c + 2]) * v.of(history[2][c]) + v.of(k[4 * c + 3])
            * v.of(tr.qkv[c])
    } by {
        let row = tensor::row(w.conv.elems(), 4, c);
        let column = recurrent::channel(history.push(input), c);
        shape::lemma_cell(c, 0, w.conv.dims()[0] as int, 4);
        law_dot(m, v, row, column, tr.conv[c]);
        let ps = products(v, row, column);
        reveal_with_fuel(total, 5);
        assert(ps.len() == 4);
        assert(total(ps) == ps[0] + ps[1] + ps[2] + ps[3]) by {
            assert(ps.drop_last().drop_last().drop_last().drop_last().len() == 0);
        }
        assert(column[3] == tr.qkv[c]);
    }
    assert forall|c: int| 0 <= c < 3 * dim implies v.of(#[trigger] tr.mixed[c]) == (v.of(
        tr.conv[c],
    ) - v.of(tr.mixed[c])) * (v.exp)(v.of(tr.conv[c])) by {
        assert(elementwise::silu(m, tr.conv[c], tr.mixed[c]));
        let _ = lemma_silu(m, v, tr.conv[c], tr.mixed[c]);
    }
    assert forall|i: int| 0 <= i < groups implies recurrent::group_stepped(
        m,
        size,
        states[i],
        tr.mixed.subrange(i * size, i * size + size),
        tr.mixed.subrange(dim + i * size, dim + i * size + size),
        tr.mixed.subrange(2 * dim + i * size, 2 * dim + i * size + size),
        tr.g[i],
        tr.beta[i],
        states_after[i],
        #[trigger] tensor::row(tr.output, size, i),
    ) by {
        assert(0 <= i * size && i * size + size <= dim) by (nonlinear_arith)
            requires
                0 <= i < groups,
                size >= 0,
                dim == groups * size,
        ;
        assert(tensor::row(tr.mixed.subrange(0, dim), size, i) =~= tr.mixed.subrange(
            i * size,
            i * size + size,
        ));
        assert(tensor::row(tr.mixed.subrange(dim, 2 * dim), size, i) =~= tr.mixed.subrange(
            dim + i * size,
            dim + i * size + size,
        ));
        assert(tensor::row(tr.mixed.subrange(2 * dim, 3 * dim), size, i) =~= tr.mixed.subrange(
            2 * dim + i * size,
            2 * dim + i * size + size,
        ));
    }
    assert forall|e: int| 0 <= e < dim implies {
        let r = v.of(#[trigger] tr.gated[e]);
        r == (v.of(tr.normed[e]) * v.of(tr.z[e]) - r) * (v.exp)(v.of(tr.z[e]))
    } by {
        assert(elementwise::silu(m, tr.z[e], tr.z_silu[e]));
        let s = lemma_silu(m, v, tr.z[e], tr.z_silu[e]);
        assert(arith::multiplied(tr.normed[e], tr.z_silu[e], tr.gated[e]));
        let (n, z) = (v.of(tr.normed[e]), v.of(tr.z[e]));
        lemma_times_times(n, z, s);
        lemma_share(n * z, s, (v.exp)(z));
    }
    assert forall|i: int| 0 <= i < w.out.dims()[0] implies arith::dot(
        w.out.elems().subrange(i * dim, i * dim + dim),
        tr.gated,
        #[trigger] y[i],
    ) by {
        assert(tensor::row(w.out.elems(), dim, i) == w.out.elems().subrange(
            i * dim,
            i * dim + dim,
        ));
    }
    tr
}

} // verus!
