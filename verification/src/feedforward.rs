//! The feed-forward part of an attention block.

use crate::arith::{self, Math, Scalar};
use crate::elementwise;
use crate::tensor::{self, Tensor};
use vstd::prelude::*;

verus! {

/// The weights of the feed-forward part of a block.
pub struct FfnWeights<T> {
    pub gate: Tensor<T>,
    pub up: Tensor<T>,
    pub down: Tensor<T>,
}

/// The shapes of the weights go with each other and with an input of `n` elements.
pub open spec fn ffn_shapes(n: int, gate: Seq<usize>, up: Seq<usize>, down: Seq<usize>) -> bool {
    &&& gate.len() == 2 && gate[1] == n
    &&& up.len() == 2 && up[0] == gate[0] && up[1] == n
    &&& down.len() == 2 && down[1] == gate[0]
}

impl<T> FfnWeights<T> {
    /// The shapes go with each other and with an input of `n` elements.
    pub open spec fn wf(&self, n: int) -> bool {
        &&& self.gate.wf()
        &&& self.up.wf()
        &&& self.down.wf()
        &&& ffn_shapes(n, self.gate.dims(), self.up.dims(), self.down.dims())
    }
}

/// The values between the steps of the feed-forward part.
pub struct FfnTrace<T> {
    pub gate: Seq<T>,
    pub gate_silu: Seq<T>,
    pub up: Seq<T>,
    pub gated: Seq<T>,
}

/// The steps of the feed-forward part: two projections, one of them gated by the other, and a
/// third one of their product.
pub open spec fn ffn_run<T: Scalar, M: Math<T>>(
    m: M,
    w: FfnWeights<T>,
    x: Seq<T>,
    y: Seq<T>,
    tr: FfnTrace<T>,
) -> bool {
    let (n, hidden) = (x.len() as int, w.gate.dims()[0] as int);
    &&& tensor::applied(w.gate.elems(), hidden, n, x, tr.gate)
    &&& elementwise::each(tr.gate, |a: T, b: T| elementwise::silu(m, a, b), tr.gate_silu)
    &&& tensor::applied(w.up.elems(), hidden, n, x, tr.up)
    &&& elementwise::each_pair(
        tr.gate_silu,
        tr.up,
        |a: T, b: T, c: T| arith::multiplied(a, b, c),
        tr.gated,
    )
    &&& tensor::applied(w.down.elems(), w.down.dims()[0] as int, hidden, tr.gated, y)
}

/// `y` is a value of the output of the feed-forward part.
pub open spec fn fed_forward<T: Scalar, M: Math<T>>(
    m: M,
    w: FfnWeights<T>,
    x: Seq<T>,
    y: Seq<T>,
) -> bool {
    exists|tr: FfnTrace<T>| #[trigger] ffn_run(m, w, x, y, tr)
}

/// The feed-forward part of a block on the vector `x`.
pub fn feed_forward<T: Scalar, M: Math<T>>(m: &M, w: &FfnWeights<T>, x: &Tensor<T>) -> (y: Tensor<T>)
    requires
        arith::total::<T>(),
        x.wf(),
        x.dims().len() == 1,
        w.wf(x.dims()[0] as int),
    ensures
        y.wf(),
        y.is_vector(w.down.dims()[0] as int),
        fed_forward(*m, *w, x.elems(), y.elems()),
{
    proof {
        crate::shape::lemma_vector_shape(x.dims());
    }
    let gate = w.gate.matvec(x);
    let gate_silu = gate.silu(m);
    let up = w.up.matvec(x);
    assert(gate_silu.dims() =~= up.dims());
    let gated = gate_silu.mul(&up);
    let y = w.down.matvec(&gated);
    proof {
        let tr = FfnTrace {
            gate: gate.elems(),
            gate_silu: gate_silu.elems(),
            up: up.elems(),
            gated: gated.elems(),
        };
        assert(ffn_run(*m, *w, x.elems(), y.elems(), tr));
    }
    y
}

} // verus!
