//! Gated delta-rule recurrence with a causal convolution in front, for one position.

use crate::arith::{self, Math, Scalar};
use crate::attention::{self, heads_normed_of, vector};
use crate::cache::{self, SSMState, CONV_KERNEL};
use crate::config::ModelConfig;
use crate::elementwise::{self, apply, build, silu_of, softplus_of};
use crate::shape;
use crate::tensor::{self, Tensor};
use vstd::prelude::*;
use vstd::slice::{slice_subrange, slice_to_vec};

verus! {

/// The weights of a recurrent block, without that of the norm in front of it.
pub struct RecurrentWeights<T> {
    pub qkv: Tensor<T>,
    pub gate: Tensor<T>,
    pub conv: Tensor<T>,
    pub a: Tensor<T>,
    pub alpha: Tensor<T>,
    pub beta: Tensor<T>,
    pub dt: Tensor<T>,
    pub norm: Tensor<T>,
    pub out: Tensor<T>,
}

/// The shapes of the weights go with each other, with the configuration and with an input of
/// `n` elements.
pub open spec fn recurrent_shapes(
    config: ModelConfig,
    n: int,
    qkv: Seq<usize>,
    gate: Seq<usize>,
    conv: Seq<usize>,
    a: Seq<usize>,
    alpha: Seq<usize>,
    beta: Seq<usize>,
    dt: Seq<usize>,
    norm: Seq<usize>,
    out: Seq<usize>,
) -> bool {
    let groups = config.ssm_group_count as int;
    let key_dim = groups * config.ssm_state_size;
    &&& qkv.len() == 2 && qkv[0] >= 3 * key_dim && qkv[1] == n
    &&& gate.len() == 2 && gate[0] == key_dim && gate[1] == n
    &&& conv.len() == 2 && conv[0] >= 3 * key_dim && conv[1] == CONV_KERNEL
    &&& alpha.len() == 2 && alpha[0] >= groups && alpha[1] == n
    &&& beta.len() == 2 && beta[0] >= groups && beta[1] == n
    &&& a =~= seq![alpha[0]]
    &&& dt =~= seq![alpha[0]]
    &&& norm =~= seq![config.ssm_state_size]
    &&& out.len() == 2 && out[1] == key_dim
}

impl<T> RecurrentWeights<T> {
    /// The shapes go with each other, with the configuration and with an input of `n` elements.
    pub open spec fn wf(&self, config: ModelConfig, n: int) -> bool {
        &&& self.qkv.wf()
        &&& self.gate.wf()
        &&& self.conv.wf()
        &&& self.a.wf()
        &&& self.alpha.wf()
        &&& self.beta.wf()
        &&& self.dt.wf()
        &&& self.norm.wf()
        &&& self.out.wf()
        &&& recurrent_shapes(
            config,
            n,
            self.qkv.dims(),
            self.gate.dims(),
            self.conv.dims(),
            self.a.dims(),
            self.alpha.dims(),
            self.beta.dims(),
            self.dt.dims(),
            self.norm.dims(),
            self.out.dims(),
        )
    }
}

impl ModelConfig {
    /// The sizes of the recurrent blocks fit the machine.
    pub open spec fn recurrent_sound(&self) -> bool {
        &&& self.ssm_state_size * self.ssm_state_size <= usize::MAX
        &&& 3 * (self.ssm_group_count * self.ssm_state_size) <= usize::MAX
    }
}

/// Element `c` of each of the rows.
pub open spec fn channel<T>(rows: Seq<Seq<T>>, c: int) -> Seq<T> {
    Seq::new(rows.len(), |t: int| rows[t][c])
}

/// `out` is a value of the convolution: each of the first `width` channels of the latest inputs,
/// the oldest first, with the kernel in the row of `w` of the same number.
pub open spec fn convolved<T: Scalar>(
    w: Seq<T>,
    inputs: Seq<Seq<T>>,
    width: int,
    out: Seq<T>,
) -> bool {
    &&& out.len() == width
    &&& forall|c: int|
        0 <= c < width ==> arith::dot(
            tensor::row(w, CONV_KERNEL as int, c),
            channel(inputs, c),
            #[trigger] out[c],
        )
}

/// `r` is a value of the logarithm of a decay: `-(exp(a) * softplus(alpha + dt))`.
pub open spec fn log_decay<T: Scalar, M: Math<T>>(m: M, a: T, alpha: T, dt: T, r: T) -> bool {
    exists|s: T, sp: T, ea: T, p: T, minus: T|
        {
            &&& #[trigger] arith::added(alpha, dt, s)
            &&& #[trigger] elementwise::softplus(m, s, sp)
            &&& #[trigger] arith::exp(m, a, ea)
            &&& #[trigger] arith::multiplied(ea, sp, p)
            &&& #[trigger] arith::from_int(m, -1i32, minus)
            &&& arith::multiplied(p, minus, r)
        }
}

/// `out` holds values of the logarithms of the decays.
pub open spec fn log_decays<T: Scalar, M: Math<T>>(
    m: M,
    a: Seq<T>,
    alpha: Seq<T>,
    dt: Seq<T>,
    out: Seq<T>,
) -> bool {
    &&& out.len() == alpha.len()
    &&& forall|i: int|
        0 <= i < out.len() ==> log_decay(m, a[i], alpha[i], dt[i], #[trigger] out[i])
}

/// The values between the steps of the update of one group.
pub struct GroupTrace<T> {
    pub decay: T,
    pub faded: Seq<T>,
    pub predicted: Seq<T>,
    pub delta: Seq<T>,
    pub outer: Seq<T>,
    pub correction: Seq<T>,
}

/// `out` is a value of the matrix of all products of an element of `a` and one of `b`.
pub open spec fn outer_product<T: Scalar>(a: Seq<T>, b: Seq<T>, out: Seq<T>) -> bool {
    &&& out.len() == a.len() * b.len()
    &&& forall|i: int, j: int|
        0 <= i < a.len() && 0 <= j < b.len() ==> arith::multiplied(
            a[i],
            b[j],
            #[trigger] out[i * b.len() + j],
        )
}

/// One step of the delta rule: the state fades, what it predicts for the key is moved toward the
/// value, and the new state is read with the query.
pub open spec fn group_run<T: Scalar, M: Math<T>>(
    m: M,
    size: int,
    state: Seq<T>,
    q: Seq<T>,
    k: Seq<T>,
    v: Seq<T>,
    g: T,
    beta: T,
    state_after: Seq<T>,
    out: Seq<T>,
    tr: GroupTrace<T>,
) -> bool {
    &&& arith::exp(m, g, tr.decay)
    &&& elementwise::each(state, |x: T, y: T| arith::multiplied(x, tr.decay, y), tr.faded)
    &&& tensor::applied(tr.faded, size, size, k, tr.predicted)
    &&& elementwise::each_pair(
        v,
        tr.predicted,
        |a: T, b: T, c: T| arith::subtracted(a, b, c),
        tr.delta,
    )
    &&& outer_product(tr.delta, k, tr.outer)
    &&& elementwise::each(tr.outer, |x: T, y: T| arith::multiplied(x, beta, y), tr.correction)
    &&& elementwise::each_pair(
        tr.faded,
        tr.correction,
        |a: T, b: T, c: T| arith::added(a, b, c),
        state_after,
    )
    &&& tensor::applied(state_after, size, size, q, out)
}

/// `state_after` and `out` are values of the new state of a group and of its output.
pub open spec fn group_stepped<T: Scalar, M: Math<T>>(
    m: M,
    size: int,
    state: Seq<T>,
    q: Seq<T>,
    k: Seq<T>,
    v: Seq<T>,
    g: T,
    beta: T,
    state_after: Seq<T>,
    out: Seq<T>,
) -> bool {
    exists|tr: GroupTrace<T>| #[trigger]
        group_run(m, size, state, q, k, v, g, beta, state_after, out, tr)
}

/// The new states of the first `groups` groups and their outputs, one behind the other.
pub open spec fn groups_stepped<T: Scalar, M: Math<T>>(
    m: M,
    size: int,
    groups: int,
    states: Seq<Seq<T>>,
    q: Seq<T>,
    k: Seq<T>,
    v: Seq<T>,
    g: Seq<T>,
    beta: Seq<T>,
    states_after: Seq<Seq<T>>,
    out: Seq<T>,
) -> bool {
    &&& out.len() == groups * size
    &&& forall|i: int|
        0 <= i < groups ==> group_stepped(
            m,
            size,
            states[i],
            tensor::row(q, size, i),
            tensor::row(k, size, i),
            tensor::row(v, size, i),
            g[i],
            beta[i],
            states_after[i],
            #[trigger] tensor::row(out, size, i),
        )
}

/// The values between the steps of a recurrent block.
pub struct RecurrentTrace<T> {
    pub qkv: Seq<T>,
    pub conv: Seq<T>,
    pub mixed: Seq<T>,
    pub z: Seq<T>,
    pub alpha: Seq<T>,
    pub g: Seq<T>,
    pub beta_proj: Seq<T>,
    pub beta: Seq<T>,
    pub output: Seq<T>,
    pub normed: Seq<T>,
    pub z_silu: Seq<T>,
    pub gated: Seq<T>,
}

/// The projections of the input, and what the activations make of them.
pub open spec fn recurrent_inputs<T: Scalar, M: Math<T>>(
    m: M,
    w: RecurrentWeights<T>,
    x: Seq<T>,
    tr: RecurrentTrace<T>,
) -> bool {
    let n = x.len() as int;
    &&& tensor::applied(w.qkv.elems(), w.qkv.dims()[0] as int, n, x, tr.qkv)
    &&& tensor::applied(w.gate.elems(), w.gate.dims()[0] as int, n, x, tr.z)
    &&& tensor::applied(w.alpha.elems(), w.alpha.dims()[0] as int, n, x, tr.alpha)
    &&& tensor::applied(w.beta.elems(), w.beta.dims()[0] as int, n, x, tr.beta_proj)
    &&& log_decays(m, w.a.elems(), tr.alpha, w.dt.elems(), tr.g)
    &&& elementwise::each(
        tr.beta_proj,
        |a: T, b: T| elementwise::sigmoid(m, a, b),
        tr.beta,
    )
    &&& elementwise::each(tr.z, |a: T, b: T| elementwise::silu(m, a, b), tr.z_silu)
}

/// The states and inputs of one layer before and after a position, and the output of the block.
pub open spec fn recurrent_run<T: Scalar, M: Math<T>>(
    m: M,
    config: ModelConfig,
    w: RecurrentWeights<T>,
    x: Seq<T>,
    states: Seq<Seq<T>>,
    history: Seq<Seq<T>>,
    states_after: Seq<Seq<T>>,
    history_after: Seq<Seq<T>>,
    y: Seq<T>,
    tr: RecurrentTrace<T>,
) -> bool {
    let (groups, size) = (config.ssm_group_count as int, config.ssm_state_size as int);
    let dim = groups * size;
    let input = tr.qkv.take(3 * dim);
    &&& recurrent_inputs(m, w, x, tr)
    &&& convolved(w.conv.elems(), history.push(input), 3 * dim, tr.conv)
    &&& elementwise::each(tr.conv, |a: T, b: T| elementwise::silu(m, a, b), tr.mixed)
    &&& history_after == cache::shifted(history, input)
    &&& states_after.len() == groups
    &&& groups_stepped(
        m,
        size,
        groups,
        states,
        tr.mixed.subrange(0, dim),
        tr.mixed.subrange(dim, 2 * dim),
        tr.mixed.subrange(2 * dim, 3 * dim),
        tr.g,
        tr.beta,
        states_after,
        tr.output,
    )
    &&& attention::heads_normed(
        m,
        config.rms_eps,
        tr.output,
        size,
        size,
        groups,
        w.norm.elems(),
        tr.normed,
    )
    &&& elementwise::each_pair(
        tr.normed,
        tr.z_silu,
        |a: T, b: T, c: T| arith::multiplied(a, b, c),
        tr.gated,
    )
    &&& tensor::applied(w.out.elems(), w.out.dims()[0] as int, dim, tr.gated, y)
}

/// `y` is a value of the output of a recurrent block, and the states and inputs of the layer
/// change with it.
pub open spec fn recurred<T: Scalar, M: Math<T>>(
    m: M,
    config: ModelConfig,
    w: RecurrentWeights<T>,
    x: Seq<T>,
    states: Seq<Seq<T>>,
    history: Seq<Seq<T>>,
    states_after: Seq<Seq<T>>,
    history_after: Seq<Seq<T>>,
    y: Seq<T>,
) -> bool {
    exists|tr: RecurrentTrace<T>| #[trigger]
        recurrent_run(m, config, w, x, states, history, states_after, history_after, y, tr)
}

/// The logarithm of a decay.
fn log_decay_of<T: Scalar, M: Math<T>>(m: &M, a: T, alpha: T, dt: T) -> (r: T)
    requires
        arith::total::<T>(),
    ensures
        log_decay(*m, a, alpha, dt, r),
{
    let s = alpha + dt;
    let sp = softplus_of(m, s);
    let ea = m.exp(a);
    let p = ea * sp;
    let minus = m.from_int(-1);
    assert(arith::added(alpha, dt, s) && elementwise::softplus(*m, s, sp) && arith::exp(*m, a, ea)
        && arith::multiplied(ea, sp, p) && arith::from_int(*m, -1i32, minus));
    p * minus
}

/// The logarithms of the decays.
fn log_decays_of<T: Scalar, M: Math<T>>(m: &M, a: &[T], alpha: &[T], dt: &[T]) -> (r: Vec<T>)
    requires
        arith::total::<T>(),
        a@.len() == alpha@.len(),
        dt@.len() == alpha@.len(),
    ensures
        log_decays(*m, a@, alpha@, dt@, r@),
{
    build(
        alpha.len(),
        |i: usize| -> (r: T)
            requires
                i < alpha@.len()
            ensures
                log_decay(*m, a@[i as int], alpha@[i as int], dt@[i as int], r)
        { log_decay_of(m, a[i], alpha[i], dt[i]) },
    )
}

/// The convolution of the latest inputs.
fn convolved_of<T: Scalar>(
    w: &Tensor<T>,
    state: &SSMState<T>,
    layer: usize,
    input: &[T],
    config: &ModelConfig,
) -> (r: Vec<T>)
    requires
        arith::total::<T>(),
        config.recurrent_sound(),
        state.wf(config),
        layer < config.n_layers,
        w.wf(),
        w.dims().len() == 2,
        w.dims()[0] >= input@.len(),
        w.dims()[1] == CONV_KERNEL,
        input@.len() == 3 * (config.ssm_group_count * config.ssm_state_size),
    ensures
        convolved(
            w.elems(),
            state.history()[layer as int].push(input@),
            input@.len() as int,
            r@,
        ),
{
    let width = input.len();
    let ghost rows = state.history()[layer as int].push(input@);
    proof {
        shape::lemma_matrix_shape(w.dims());
    }
    build(
        width,
        |c: usize| -> (r: T)
            requires
                c < width
            ensures
                arith::dot(
                    tensor::row(w.elems(), CONV_KERNEL as int, c as int),
                    channel(rows, c as int),
                    r,
                )
        {
            proof {
                shape::lemma_cell(c as int, 0, w.dims()[0] as int, CONV_KERNEL as int);
                assert(state.history()[layer as int][0].len() == width);
                assert(state.history()[layer as int][1].len() == width);
                assert(state.history()[layer as int][2].len() == width);
            }
            let window = vec![
                state.past(layer, 0)[c],
                state.past(layer, 1)[c],
                state.past(layer, 2)[c],
                input[c],
            ];
            assert(window@ =~= channel(rows, c as int));
            assert(arith::strided(window@, 0, 1, CONV_KERNEL as int) =~= window@);
            arith::strided_dot(
                w.data(),
                c * CONV_KERNEL,
                window.as_slice(),
                0,
                1,
                CONV_KERNEL,
            )
        },
    )
}

/// Part `i` of `size` elements of the elements of `xs` from `start` on, as a vector.
fn part<T: Scalar>(xs: &[T], start: usize, size: usize, i: usize, count: usize) -> (r: Tensor<T>)
    requires
        i < count,
        start + count * size <= xs@.len(),
    ensures
        r.wf(),
        r.is_vector(size as int),
        r.elems() == tensor::row(
            xs@.subrange(start as int, start + count * size),
            size as int,
            i as int,
        ),
{
    assert(xs.len() == xs@.len());
    assert(0 <= i * size && i * size + size <= count * size) by (nonlinear_arith)
        requires
            0 <= i < count,
            size >= 0,
    ;
    let at = start + i * size;
    let piece = slice_subrange(xs, at, at + size);
    assert(piece@ =~= tensor::row(
        xs@.subrange(start as int, start + count * size),
        size as int,
        i as int,
    ));
    vector(slice_to_vec(piece))
}

/// One step of the delta rule: the new state of a group, and its output.
fn group_stepped_of<T: Scalar, M: Math<T>>(
    m: &M,
    state: Tensor<T>,
    q: &Tensor<T>,
    k: &Tensor<T>,
    v: &Tensor<T>,
    g: T,
    beta: T,
    Ghost(size): Ghost<int>,
) -> (r: (Tensor<T>, Tensor<T>))
    requires
        arith::total::<T>(),
        state.wf(),
        state.is_matrix(size, size),
        q.wf(),
        q.is_vector(size),
        k.wf(),
        k.is_vector(size),
        v.wf(),
        v.is_vector(size),
    ensures
        r.0.wf(),
        r.0.is_matrix(size, size),
        r.1.wf(),
        r.1.is_vector(size),
        group_stepped(
            *m,
            size,
            state.elems(),
            q.elems(),
            k.elems(),
            v.elems(),
            g,
            beta,
            r.0.elems(),
            r.1.elems(),
        ),
{
    let decay = m.exp(g);
    let faded = state.scale(decay);
    let predicted = faded.matvec(k);
    assert(predicted.dims() =~= v.dims());
    let delta = v.sub(&predicted);
    let outer = delta.outer(k);
    let correction = outer.scale(beta);
    assert(correction.dims() =~= faded.dims());
    let after = faded.add(&correction);
    let out = after.matvec(q);
    proof {
        let tr = GroupTrace {
            decay,
            faded: faded.elems(),
            predicted: predicted.elems(),
            delta: delta.elems(),
            outer: outer.elems(),
            correction: correction.elems(),
        };
        assert(group_run(
            *m,
            size,
            state.elems(),
            q.elems(),
            k.elems(),
            v.elems(),
            g,
            beta,
            after.elems(),
            out.elems(),
            tr,
        ));
    }
    (after, out)
}

/// Updates the states of all groups of a layer; the outputs of the groups, one behind the other.
fn groups_stepped_of<T: Scalar, M: Math<T>>(
    m: &M,
    config: &ModelConfig,
    layer: usize,
    mixed: &[T],
    g: &[T],
    beta: &[T],
    state: &mut SSMState<T>,
) -> (r: Vec<T>)
    requires
        arith::total::<T>(),
        config.recurrent_sound(),
        old(state).wf(config),
        layer < config.n_layers,
        mixed@.len() == 3 * (config.ssm_group_count * config.ssm_state_size),
        g@.len() >= config.ssm_group_count,
        beta@.len() >= config.ssm_group_count,
    ensures
        final(state).wf(config),
        final(state).history() == old(state).history(),
        final(state).states() == old(state).states().update(
            layer as int,
            final(state).states()[layer as int],
        ),
        ({
            let dim = config.ssm_group_count * config.ssm_state_size;
            groups_stepped(
                *m,
                config.ssm_state_size as int,
                config.ssm_group_count as int,
                old(state).states()[layer as int],
                mixed@.subrange(0, dim),
                mixed@.subrange(dim, 2 * dim),
                mixed@.subrange(2 * dim, 3 * dim),
                g@,
                beta@,
                final(state).states()[layer as int],
                r@,
            )
        }),
{
    let size = config.ssm_state_size;
    let groups = config.ssm_group_count;
    let ghost (n, s, l) = (groups as int, size as int, layer as int);
    let ghost before = state.states();
    assert(n * s >= 0 && 0 * s == 0) by (nonlinear_arith)
        requires
            n >= 0,
            s >= 0,
    ;
    let dim = groups * size;
    let ghost (qs, ks, vs) = (
        mixed@.subrange(0, n * s),
        mixed@.subrange(n * s, 2 * (n * s)),
        mixed@.subrange(2 * (n * s), 3 * (n * s)),
    );
    let mut r: Vec<T> = Vec::new();
    let mut i: usize = 0;
    while i < groups
        invariant
            arith::total::<T>(),
            config.recurrent_sound(),
            i <= groups,
            groups == config.ssm_group_count == n,
            size == config.ssm_state_size == s,
            dim == n * s,
            layer == l < config.n_layers,
            mixed@.len() == 3 * dim,
            qs == mixed@.subrange(0, n * s),
            ks == mixed@.subrange(n * s, 2 * (n * s)),
            vs == mixed@.subrange(2 * (n * s), 3 * (n * s)),
            g@.len() >= groups,
            beta@.len() >= groups,
            before == old(state).states(),
            old(state).wf(config),
            state.wf(config),
            state.history() == old(state).history(),
            forall|k: int|
                0 <= k < before.len() && k != l ==> #[trigger] state.states()[k] == before[k],
            forall|k: int| i <= k < n ==> #[trigger] state.states()[l][k] == before[l][k],
            r@.len() == i * s,
            forall|k: int|
                0 <= k < i ==> group_stepped(
                    *m,
                    s,
                    before[l][k],
                    tensor::row(qs, s, k),
                    tensor::row(ks, s, k),
                    tensor::row(vs, s, k),
                    g@[k],
                    beta@[k],
                    state.states()[l][k],
                    #[trigger] tensor::row(r@, s, k),
                ),
        decreases groups - i,
    {
        let q = part(mixed, 0, size, i, groups);
        let k = part(mixed, dim, size, i, groups);
        let v = part(mixed, 2 * dim, size, i, groups);
        let current = state.get_group_state(layer, i, config);
        let (after, out) = group_stepped_of(m, current, &q, &k, &v, g[i], beta[i], Ghost(s));
        state.set_group_state(layer, i, &after, config);
        let mut piece = slice_to_vec(out.data());
        proof {
            tensor::lemma_push_row(r@, s, i as int, out.elems());
        }
        r.append(&mut piece);
        i += 1;
    }
    assert(state.states() =~= before.update(l, state.states()[l]));
    r
}

/// The gated delta-rule recurrence on the vector `x`: updates the state of the layer.
pub fn recur<T: Scalar, M: Math<T>>(
    m: &M,
    config: &ModelConfig,
    w: &RecurrentWeights<T>,
    x: &Tensor<T>,
    layer: usize,
    state: &mut SSMState<T>,
) -> (y: Tensor<T>)
    requires
        arith::total::<T>(),
        config.recurrent_sound(),
        x.wf(),
        x.dims().len() == 1,
        w.wf(*config, x.dims()[0] as int),
        old(state).wf(config),
        layer < config.n_layers,
    ensures
        y.wf(),
        y.is_vector(w.out.dims()[0] as int),
        final(state).wf(config),
        final(state).states() == old(state).states().update(
            layer as int,
            final(state).states()[layer as int],
        ),
        final(state).history() == old(state).history().update(
            layer as int,
            final(state).history()[layer as int],
        ),
        recurred(
            *m,
            *config,
            *w,
            x.elems(),
            old(state).states()[layer as int],
            old(state).history()[layer as int],
            final(state).states()[layer as int],
            final(state).history()[layer as int],
            y.elems(),
        ),
{
    let size = config.ssm_state_size;
    let groups = config.ssm_group_count;
    let ghost (n, s, l) = (groups as int, size as int, layer as int);
    let ghost before = *state;
    proof {
        shape::lemma_vector_shape(x.dims());
        shape::lemma_vector_shape(w.a.dims());
        shape::lemma_vector_shape(w.dt.dims());
        assert(n * s >= 0) by (nonlinear_arith)
            requires
                n >= 0,
                s >= 0,
        ;
    }
    let dim = groups * size;
    let qkv = w.qkv.matvec(x);
    let z = w.gate.matvec(x);
    let alpha = w.alpha.matvec(x);
    let beta_proj = w.beta.matvec(x);
    let beta = beta_proj.sigmoid(m);
    let g = log_decays_of(m, w.a.data(), alpha.data(), w.dt.data());

    let input = slice_subrange(qkv.data(), 0, 3 * dim);
    let conv = convolved_of(&w.conv, state, layer, input, config);
    let mixed = apply(
        conv.as_slice(),
        |a: T| -> (b: T)
            ensures
                elementwise::silu(*m, a, b)
        { silu_of(m, a) },
    );
    state.remember(layer, input, config);
    let output = groups_stepped_of(
        m,
        config,
        layer,
        mixed.as_slice(),
        g.as_slice(),
        beta.data(),
        state,
    );
    let normed = heads_normed_of(m, config.rms_eps, output.as_slice(), size, size, groups, &w.norm);
    let normed_vector = vector(normed);
    let z_silu = z.silu(m);
    assert(normed_vector.dims() =~= z_silu.dims());
    let gated = normed_vector.mul(&z_silu);
    let y = w.out.matvec(&gated);
    proof {
        let tr = RecurrentTrace {
            qkv: qkv.elems(),
            conv: conv@,
            mixed: mixed@,
            z: z.elems(),
            alpha: alpha.elems(),
            g: g@,
            beta_proj: beta_proj.elems(),
            beta: beta.elems(),
            output: output@,
            normed: normed_vector.elems(),
            z_silu: z_silu.elems(),
            gated: gated.elems(),
        };
        assert(input@ =~= tr.qkv.take(3 * (n * s)));
        assert(recurrent_inputs(*m, *w, x.elems(), tr));
        assert(recurrent_run(
            *m,
            *config,
            *w,
            x.elems(),
            before.states()[l],
            before.history()[l],
            state.states()[l],
            state.history()[l],
            y.elems(),
            tr,
        ));
    }
    y
}

} // verus!
