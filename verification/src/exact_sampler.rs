//! What the choice of the next token comes to where arithmetic is exact.

use crate::arith::{self, Math, Scalar};
use crate::elementwise;
use crate::exact::{
    exact, law_softmax, law_sum, lemma_cancel, lemma_quotient, lemma_times_swap, lemma_times_times,
    lemma_total_positive, lemma_total_times, total, values, Reals,
};
use crate::ranking;
use crate::sampler::{self, CandidateTrace};
use vstd::prelude::*;

verus! {

/// Positive numbers that are to each other as others are in the same order.
proof fn lemma_same_order(p: real, q: real, e: real, f: real)
    requires
        p > 0real,
        q > 0real,
        e > 0real,
        f > 0real,
        p * f == q * e,
    ensures
        p > q <==> e > f,
        p == q <==> e == f,
{
    if e > f && p <= q {
        assert(p * f <= q * f) by (nonlinear_arith)
            requires
                p <= q,
                f > 0real,
        ;
        assert(q * f < q * e) by (nonlinear_arith)
            requires
                f < e,
                q > 0real,
        ;
    }
    if e < f && p >= q {
        assert(p * f >= q * f) by (nonlinear_arith)
            requires
                p >= q,
                f > 0real,
        ;
        assert(q * f > q * e) by (nonlinear_arith)
            requires
                f > e,
                q > 0real,
        ;
    }
    if e == f {
        lemma_cancel(p, q, f);
    }
}

/// Dividing by a temperature divides the numbers.
pub proof fn law_temperature<T: Scalar, M: Math<T>>(
    m: M,
    v: Reals<T>,
    xs: Seq<T>,
    temp: T,
    ys: Seq<T>,
    i: int,
)
    requires
        exact(m, v),
        v.of(temp) > 0real,
        sampler::tempered(m, xs, temp, ys),
        0 <= i < xs.len(),
    ensures
        ys.len() == xs.len(),
        v.of(ys[i]) * v.of(temp) == v.of(xs[i]),
        v.of(ys[i]) == v.of(xs[i]) / v.of(temp),
{
    let (one, inverse) = choose|one: T, inverse: T|
        {
            &&& #[trigger] arith::from_usize(m, 1, one)
            &&& #[trigger] arith::divided(one, temp, inverse)
            &&& elementwise::each(xs, |x: T, y: T| arith::multiplied(x, inverse, y), ys)
        };
    assert(arith::multiplied(xs[i], inverse, ys[i]));
    let (x, t, n) = (v.of(xs[i]), v.of(temp), v.of(inverse));
    assert(n == 1real / t);
    lemma_quotient(1real, t);
    lemma_times_times(x, n, t);
    assert(x * 1real == x) by (nonlinear_arith);
    lemma_quotient(x, t);
    lemma_cancel(x * n, x / t, t);
}

/// Where arithmetic is exact, numbered elements can be ranked.
proof fn lemma_rankable<T: Scalar, M: Math<T>>(m: M, v: Reals<T>, xs: Seq<(usize, T)>)
    requires
        exact(m, v),
    ensures
        ranking::rankable(xs),
{
}

/// Sorted probabilities: each token once, the largest first.
proof fn lemma_sorted<T: Scalar, M: Math<T>>(
    m: M,
    v: Reals<T>,
    probs: Seq<T>,
    sorted: Seq<(usize, T)>,
)
    requires
        exact(m, v),
        probs.len() <= usize::MAX,
        sorted.to_multiset() == sampler::placed(probs).to_multiset(),
        ranking::ranked(sorted),
    ensures
        sorted.len() == probs.len(),
        forall|a: int|
            0 <= a < sorted.len() ==> (#[trigger] sorted[a]).0 < probs.len() && sorted[a].1
                == probs[sorted[a].0 as int],
        forall|a: int, b: int|
            0 <= a < b < sorted.len() ==> {
                let (x, y) = (#[trigger] sorted[a], #[trigger] sorted[b]);
                &&& x.0 != y.0
                &&& v.of(x.1) > v.of(y.1) || (v.of(x.1) == v.of(y.1) && x.0 < y.0)
            },
        forall|t: int|
            0 <= t < probs.len() ==> sorted.contains((t as usize, #[trigger] probs[t])),
{
    let all = sampler::placed(probs);
    sorted.to_multiset_ensures();
    all.to_multiset_ensures();
    assert forall|a: int| 0 <= a < sorted.len() implies (#[trigger] sorted[a]).0 < probs.len()
        && sorted[a].1 == probs[sorted[a].0 as int] by {
        assert(sorted.contains(sorted[a]));
        assert(all.to_multiset().count(sorted[a]) > 0);
        let i = choose|i: int| 0 <= i < all.len() && all[i] == sorted[a];
        assert(all[i] == (i as usize, probs[i]));
    }
    assert forall|a: int, b: int| 0 <= a < b < sorted.len() implies {
        let (x, y) = (#[trigger] sorted[a], #[trigger] sorted[b]);
        &&& x.0 != y.0
        &&& v.of(x.1) > v.of(y.1) || (v.of(x.1) == v.of(y.1) && x.0 < y.0)
    } by {
        let (x, y) = (sorted[a], sorted[b]);
        assert(ranking::precedes(x, y));
        assert(ranking::exceeds(x.1, y.1) <==> v.of(x.1) > v.of(y.1));
        assert(ranking::exceeds(y.1, x.1) <==> v.of(y.1) > v.of(x.1));
        if x.0 == y.0 {
            assert(x.1 == y.1);
        }
    }
    assert forall|t: int| 0 <= t < probs.len() implies sorted.contains(
        (t as usize, #[trigger] probs[t]),
    ) by {
        assert(all[t] == (t as usize, probs[t]));
        assert(all.contains(all[t]));
        assert(sorted.to_multiset().count(all[t]) > 0);
        assert(sorted.contains(all[t]));
    }
}

/// Numbers that are to each other as others, and whose sum is one, are the shares of the others
/// in their sum.
proof fn lemma_shares(ps: Seq<real>, es: Seq<real>, i: int)
    requires
        ps.len() == es.len(),
        total(ps) == 1real,
        0 <= i < ps.len(),
        forall|j: int| 0 <= j < ps.len() ==> ps[i] * #[trigger] es[j] == ps[j] * es[i],
    ensures
        ps[i] * total(es) == es[i],
{
    let terms = Seq::new(ps.len(), |j: int| es[j] * ps[i]);
    lemma_total_times(es, ps[i], terms);
    assert forall|j: int| 0 <= j < ps.len() implies #[trigger] terms[j] == ps[j] * es[i] by {
        lemma_times_swap(es[j], ps[i]);
        assert(ps[i] * es[j] == ps[j] * es[i]);
    }
    lemma_total_times(ps, es[i], terms);
    lemma_times_swap(total(es), ps[i]);
    assert(1real * es[i] == es[i]) by (nonlinear_arith);
}

/// The sums that are added up are the sums of the first probabilities.
proof fn lemma_accumulated<T: Scalar, M: Math<T>>(
    m: M,
    v: Reals<T>,
    kept: Seq<(u32, T)>,
    sums: Seq<T>,
    n: int,
)
    requires
        exact(m, v),
        sampler::accumulated(kept, sums),
        0 <= n <= kept.len(),
    ensures
        v.of(sums[n]) == total(Seq::new(n as nat, |i: int| v.of(kept[i].1))),
    decreases n,
{
    let all = Seq::new(n as nat, |i: int| v.of(kept[i].1));
    if n > 0 {
        lemma_accumulated(m, v, kept, sums, n - 1);
        let k = n - 1;
        assert(arith::added(sums[k], kept[k].1, sums[k + 1]));
        assert(all.drop_last() =~= Seq::new(k as nat, |i: int| v.of(kept[i].1)));
    }
}

/// What is known of the steps that lead to candidates, of each token `t` in terms of the
/// exponential `es[t]` of its logit divided by the temperature.
proof fn lemma_steps<T: Scalar, M: Math<T>>(
    m: M,
    v: Reals<T>,
    logits: Seq<T>,
    temp: T,
    top_k: int,
    top_p: T,
    r: Seq<(u32, T)>,
    tr: CandidateTrace<T>,
    es: Seq<real>,
)
    requires
        exact(m, v),
        v.of(temp) > 0real,
        0 < logits.len() <= 0x1_0000_0000,
        logits.len() <= usize::MAX,
        top_k > 0,
        es == Seq::new(logits.len(), |t: int| (v.exp)(v.of(logits[t]) / v.of(temp))),
        sampler::candidates_run(m, logits, temp, top_k, top_p, r, tr),
    ensures
        tr.probs.len() == logits.len(),
        total(values(v, tr.probs)) == 1real,
        forall|t: int| 0 <= t < es.len() ==> #[trigger] es[t] > 0real,
        forall|t: int| 0 <= t < tr.probs.len() ==> v.of(#[trigger] tr.probs[t]) > 0real,
        forall|t: int, u: int|
            0 <= t < es.len() && 0 <= u < es.len() ==> v.of(#[trigger] tr.probs[t]) * es[u] == v.of(
                #[trigger] tr.probs[u],
            ) * es[t],
        tr.sorted.len() == logits.len(),
        forall|a: int|
            0 <= a < tr.sorted.len() ==> (#[trigger] tr.sorted[a]).0 < logits.len()
                && tr.sorted[a].1 == tr.probs[tr.sorted[a].0 as int],
        forall|a: int, b: int|
            0 <= a < b < tr.sorted.len() ==> {
                let (x, y) = (#[trigger] tr.sorted[a], #[trigger] tr.sorted[b]);
                &&& x.0 != y.0
                &&& v.of(x.1) > v.of(y.1) || (v.of(x.1) == v.of(y.1) && x.0 < y.0)
            },
        forall|t: int|
            0 <= t < logits.len() ==> tr.sorted.contains((t as usize, #[trigger] tr.probs[t])),
        0 < r.len() <= top_k,
        r.len() == tr.kept.len() <= tr.sorted.len(),
        forall|a: int|
            0 <= a < r.len() ==> (#[trigger] r[a]).0 == tr.sorted[a].0 && tr.kept[a] == (
                r[a].0,
                tr.sorted[a].1,
            ),
{
    assert forall|i: int| 0 <= i < logits.len() implies v.of(#[trigger] tr.tempered[i]) == v.of(
        logits[i],
    ) / v.of(temp) by {
        law_temperature(m, v, logits, temp, tr.tempered, i);
    }
    law_temperature(m, v, logits, temp, tr.tempered, 0);
    law_softmax(m, v, tr.tempered, tr.probs);
    assert forall|t: int, u: int| 0 <= t < es.len() && 0 <= u < es.len() implies v.of(
        #[trigger] tr.probs[t],
    ) * es[u] == v.of(#[trigger] tr.probs[u]) * es[t] by {
        assert(v.of(tr.tempered[t]) == v.of(logits[t]) / v.of(temp));
        assert(v.of(tr.tempered[u]) == v.of(logits[u]) / v.of(temp));
    }
    lemma_rankable(m, v, sampler::placed(tr.probs));
    lemma_sorted(m, v, tr.probs, tr.sorted);
    let list = sampler::tokens_of(tr.sorted);
    let first = sampler::first_k(list, top_k);
    assert(sampler::nucleus(first, top_p, tr.kept));
    assert(first.len() > 0);
    assert(tr.kept == first.take(tr.kept.len() as int));
    assert forall|a: int| 0 <= a < r.len() implies (#[trigger] r[a]).0 == tr.sorted[a].0
        && tr.kept[a] == (r[a].0, tr.sorted[a].1) by {
        assert(tr.kept[a] == first[a]);
        assert(first[a] == list[a]);
        assert(tr.sorted[a].0 < logits.len());
    }
}

/// The candidates for the next token, in terms of the logits. A token's weight is the exponential
/// of its logit divided by the temperature, once.
///
/// The probabilities of the candidates are positive, their sum is one, and they are to each other
/// as the weights. The candidates come with the largest logit first, and of equal ones the lower
/// token; no other token has a larger logit than a candidate. There are at most `top_k`. They are
/// as few as it takes for their share in the weights of all tokens to reach `top_p`: all but the
/// last do not reach it, and all together do, unless there are `top_k` of them or no more tokens.
pub proof fn law_candidates<T: Scalar, M: Math<T>>(
    m: M,
    v: Reals<T>,
    logits: Seq<T>,
    temp: T,
    top_k: int,
    top_p: T,
    r: Seq<(u32, T)>,
    es: Seq<real>,
)
    requires
        exact(m, v),
        v.of(temp) > 0real,
        0 < logits.len() <= 0x1_0000_0000,
        logits.len() <= usize::MAX,
        top_k > 0,
        es == Seq::new(logits.len(), |t: int| (v.exp)(v.of(logits[t]) / v.of(temp))),
        sampler::candidates(m, logits, temp, top_k, top_p, r),
    ensures
        0 < r.len() <= top_k,
        forall|a: int| 0 <= a < r.len() ==> (#[trigger] r[a]).0 < logits.len(),
        forall|a: int| 0 <= a < r.len() ==> v.of((#[trigger] r[a]).1) > 0real,
        total(Seq::new(r.len(), |a: int| v.of(r[a].1))) == 1real,
        forall|a: int, b: int|
            0 <= a < r.len() && 0 <= b < r.len() ==> v.of((#[trigger] r[a]).1) * es[r[b].0 as int]
                == v.of((#[trigger] r[b]).1) * es[r[a].0 as int],
        forall|a: int, b: int|
            0 <= a < b < r.len() ==> {
                let (t, u) = ((#[trigger] r[a]).0 as int, (#[trigger] r[b]).0 as int);
                v.of(logits[t]) > v.of(logits[u]) || (v.of(logits[t]) == v.of(logits[u]) && t < u)
            },
        forall|t: int, a: int|
            0 <= t < logits.len() && 0 <= a < r.len() && (forall|b: int|
                0 <= b < r.len() ==> (#[trigger] r[b]).0 != t) ==> {
                let u = (#[trigger] r[a]).0 as int;
                v.of(logits[u]) > v.of(#[trigger] logits[t]) || (v.of(logits[u]) == v.of(logits[t])
                    && u < t)
            },
        total(Seq::new((r.len() - 1) as nat, |a: int| es[r[a].0 as int])) < v.of(top_p) * total(es)
            || r.len() == 1,
        r.len() < top_k && r.len() < logits.len() ==> total(
            Seq::new(r.len(), |a: int| es[r[a].0 as int]),
        ) >= v.of(top_p) * total(es),
{
    let tr = choose|tr: CandidateTrace<T>| #[trigger]
        sampler::candidates_run(m, logits, temp, top_k, top_p, r, tr);
    lemma_steps(m, v, logits, temp, top_k, top_p, r, tr, es);
    lemma_normal(m, v, r, tr);
    let z = v.of(tr.total);
    assert forall|a: int, b: int| 0 <= a < r.len() && 0 <= b < r.len() implies v.of(
        (#[trigger] r[a]).1,
    ) * es[r[b].0 as int] == v.of((#[trigger] r[b]).1) * es[r[a].0 as int] by {
        let (t, u) = (r[a].0 as int, r[b].0 as int);
        assert(tr.sorted[a].0 == t && tr.sorted[b].0 == u);
        let (ra, rb, ea, eb) = (v.of(r[a].1), v.of(r[b].1), es[t], es[u]);
        let (pa, pb) = (v.of(tr.probs[t]), v.of(tr.probs[u]));
        assert(ra * z == pa && rb * z == pb && pa * eb == pb * ea);
        lemma_times_times(ra, eb, z);
        lemma_times_swap(eb, z);
        lemma_times_times(ra, z, eb);
        lemma_times_times(rb, ea, z);
        lemma_times_swap(ea, z);
        lemma_times_times(rb, z, ea);
        lemma_cancel(ra * eb, rb * ea, z);
    }
    assert forall|a: int, b: int| 0 <= a < b < r.len() implies {
        let (t, u) = ((#[trigger] r[a]).0 as int, (#[trigger] r[b]).0 as int);
        v.of(logits[t]) > v.of(logits[u]) || (v.of(logits[t]) == v.of(logits[u]) && t < u)
    } by {
        let (x, y) = (tr.sorted[a], tr.sorted[b]);
        lemma_order(m, v, logits, temp, es, tr.probs, x.0 as int, y.0 as int);
    }
    assert forall|t: int, a: int|
        0 <= t < logits.len() && 0 <= a < r.len() && (forall|b: int|
            0 <= b < r.len() ==> (#[trigger] r[b]).0 != t) implies {
        let u = (#[trigger] r[a]).0 as int;
        v.of(logits[u]) > v.of(#[trigger] logits[t]) || (v.of(logits[u]) == v.of(logits[t]) && u
            < t)
    } by {
        assert(tr.sorted.contains((t as usize, tr.probs[t])));
        let c = choose|c: int| 0 <= c < tr.sorted.len() && tr.sorted[c] == (t as usize, tr.probs[t]);
        if c < r.len() {
            assert(r[c].0 == t);
        }
        let (x, y) = (tr.sorted[a], tr.sorted[c]);
        lemma_order(m, v, logits, temp, es, tr.probs, x.0 as int, y.0 as int);
    }
    lemma_nucleus(m, v, logits, temp, top_k, top_p, r, tr, es);
}

/// Tokens are in the order of their probabilities as in that of their logits.
proof fn lemma_order<T: Scalar, M: Math<T>>(
    m: M,
    v: Reals<T>,
    logits: Seq<T>,
    temp: T,
    es: Seq<real>,
    probs: Seq<T>,
    t: int,
    u: int,
)
    requires
        exact(m, v),
        v.of(temp) > 0real,
        0 <= t < logits.len(),
        0 <= u < logits.len(),
        es == Seq::new(logits.len(), |t: int| (v.exp)(v.of(logits[t]) / v.of(temp))),
        v.of(probs[t]) > 0real,
        v.of(probs[u]) > 0real,
        v.of(probs[t]) * es[u] == v.of(probs[u]) * es[t],
    ensures
        v.of(probs[t]) > v.of(probs[u]) <==> v.of(logits[t]) > v.of(logits[u]),
        v.of(probs[t]) == v.of(probs[u]) <==> v.of(logits[t]) == v.of(logits[u]),
{
    let (x, y, d) = (v.of(logits[t]), v.of(logits[u]), v.of(temp));
    let (a, b) = (x / d, y / d);
    assert(es[t] == (v.exp)(a) && es[u] == (v.exp)(b));
    lemma_same_order(v.of(probs[t]), v.of(probs[u]), es[t], es[u]);
    lemma_quotient(x, d);
    lemma_quotient(y, d);
    assert(a < b ==> a * d < b * d) by (nonlinear_arith)
        requires
            d > 0real,
    ;
    assert(b < a ==> b * d < a * d) by (nonlinear_arith)
        requires
            d > 0real,
    ;
}

/// The probabilities of the candidates are their probabilities among all tokens, divided by the
/// sum of these.
proof fn lemma_normal<T: Scalar, M: Math<T>>(
    m: M,
    v: Reals<T>,
    r: Seq<(u32, T)>,
    tr: CandidateTrace<T>,
)
    requires
        exact(m, v),
        r.len() > 0,
        arith::summed(sampler::weights_of(tr.kept), tr.total),
        sampler::normalised(tr.kept, tr.total, r),
        forall|a: int| 0 <= a < tr.kept.len() ==> v.of((#[trigger] tr.kept[a]).1) > 0real,
    ensures
        v.of(tr.total) > 0real,
        forall|a: int|
            0 <= a < r.len() ==> v.of((#[trigger] r[a]).1) * v.of(tr.total) == v.of(tr.kept[a].1),
        forall|a: int| 0 <= a < r.len() ==> v.of((#[trigger] r[a]).1) > 0real,
        total(Seq::new(r.len(), |a: int| v.of(r[a].1))) == 1real,
{
    let ws = sampler::weights_of(tr.kept);
    law_sum(m, v, ws, tr.total);
    let vs = values(v, ws);
    assert forall|a: int| 0 <= a < vs.len() implies #[trigger] vs[a] > 0real by {
        assert(vs[a] == v.of(tr.kept[a].1));
    }
    lemma_total_positive(vs);
    let z = v.of(tr.total);
    assert forall|a: int| 0 <= a < r.len() implies v.of((#[trigger] r[a]).1) * z == v.of(
        tr.kept[a].1,
    ) && v.of(r[a].1) > 0real by {
        assert(arith::divided(tr.kept[a].1, tr.total, r[a].1));
        let x = v.of(tr.kept[a].1);
        lemma_quotient(x, z);
        let y = x / z;
        assert(y > 0real) by (nonlinear_arith)
            requires
                y * z == x,
                x > 0real,
                z > 0real,
        ;
    }
    let shares = Seq::new(r.len(), |a: int| v.of(r[a].1));
    assert forall|a: int| 0 <= a < shares.len() implies #[trigger] vs[a] == shares[a] * z by {
        assert(v.of(r[a].1) * z == v.of(tr.kept[a].1));
    }
    lemma_total_times(shares, z, vs);
    assert(1real * z == z) by (nonlinear_arith);
    lemma_cancel(total(shares), 1real, z);
}

/// The share of the candidates in the weights of all tokens.
proof fn lemma_nucleus<T: Scalar, M: Math<T>>(
    m: M,
    v: Reals<T>,
    logits: Seq<T>,
    temp: T,
    top_k: int,
    top_p: T,
    r: Seq<(u32, T)>,
    tr: CandidateTrace<T>,
    es: Seq<real>,
)
    requires
        exact(m, v),
        v.of(temp) > 0real,
        0 < logits.len() <= 0x1_0000_0000,
        logits.len() <= usize::MAX,
        top_k > 0,
        es == Seq::new(logits.len(), |t: int| (v.exp)(v.of(logits[t]) / v.of(temp))),
        sampler::candidates_run(m, logits, temp, top_k, top_p, r, tr),
    ensures
        total(Seq::new((r.len() - 1) as nat, |a: int| es[r[a].0 as int])) < v.of(top_p) * total(es)
            || r.len() == 1,
        r.len() < top_k && r.len() < logits.len() ==> total(
            Seq::new(r.len(), |a: int| es[r[a].0 as int]),
        ) >= v.of(top_p) * total(es),
{
    lemma_steps(m, v, logits, temp, top_k, top_p, r, tr, es);
    let first = sampler::first_k(sampler::tokens_of(tr.sorted), top_k);
    let sums = choose|sums: Seq<T>|
        {
            &&& #[trigger] sampler::accumulated(tr.kept, sums)
            &&& tr.kept.len() <= first.len()
            &&& tr.kept == first.take(tr.kept.len() as int)
            &&& forall|i: int|
                0 < i < tr.kept.len() ==> arith::at_least(#[trigger] sums[i], top_p, false)
            &&& tr.kept.len() < first.len() ==> tr.kept.len() > 0 && arith::at_least(
                sums[tr.kept.len() as int],
                top_p,
                true,
            )
        };
    let (p, w, n) = (v.of(top_p), total(es), r.len() as int);
    lemma_total_positive(es);
    lemma_reached(m, v, es, r, tr, sums, n);
    lemma_reached(m, v, es, r, tr, sums, n - 1);
    if n > 1 {
        let s = v.of(sums[n - 1]);
        assert(arith::at_least(sums[n - 1], top_p, false));
        assert(s * w < p * w) by (nonlinear_arith)
            requires
                s < p,
                w > 0real,
        ;
    }
    if n < top_k && n < logits.len() {
        let s = v.of(sums[n]);
        assert(arith::at_least(sums[n], top_p, true));
        assert(s * w >= p * w) by (nonlinear_arith)
            requires
                s >= p,
                w > 0real,
        ;
    }
}

/// The sum of the first probabilities, times that of all weights, is the sum of the first weights.
proof fn lemma_reached<T: Scalar, M: Math<T>>(
    m: M,
    v: Reals<T>,
    es: Seq<real>,
    r: Seq<(u32, T)>,
    tr: CandidateTrace<T>,
    sums: Seq<T>,
    n: int,
)
    requires
        exact(m, v),
        0 <= n <= r.len() == tr.kept.len() <= tr.sorted.len(),
        tr.probs.len() == es.len(),
        total(values(v, tr.probs)) == 1real,
        sampler::accumulated(tr.kept, sums),
        forall|t: int, u: int|
            0 <= t < es.len() && 0 <= u < es.len() ==> v.of(#[trigger] tr.probs[t]) * es[u] == v.of(
                #[trigger] tr.probs[u],
            ) * es[t],
        forall|a: int|
            0 <= a < tr.sorted.len() ==> (#[trigger] tr.sorted[a]).0 < es.len() && tr.sorted[a].1
                == tr.probs[tr.sorted[a].0 as int],
        forall|a: int|
            0 <= a < r.len() ==> (#[trigger] r[a]).0 == tr.sorted[a].0 && tr.kept[a] == (
                r[a].0,
                tr.sorted[a].1,
            ),
    ensures
        v.of(sums[n]) * total(es) == total(Seq::new(n as nat, |a: int| es[r[a].0 as int])),
{
    lemma_accumulated(m, v, tr.kept, sums, n);
    let ps = Seq::new(n as nat, |i: int| v.of(tr.kept[i].1));
    let ws = Seq::new(n as nat, |a: int| es[r[a].0 as int]);
    let all = values(v, tr.probs);
    assert forall|a: int| 0 <= a < n implies #[trigger] ws[a] == ps[a] * total(es) by {
        let t = r[a].0 as int;
        assert(tr.sorted[a].0 == t && tr.kept[a].1 == tr.probs[t]);
        assert forall|j: int| 0 <= j < all.len() implies all[t] * #[trigger] es[j] == all[j]
            * es[t] by {
            assert(v.of(tr.probs[t]) * es[j] == v.of(tr.probs[j]) * es[t]);
        }
        lemma_shares(all, es, t);
    }
    lemma_total_times(ps, total(es), ws);
}

/// The greedy choice is a token with the largest logit, the first one of those that have it.
pub proof fn law_greedy<T: Scalar, M: Math<T>>(m: M, v: Reals<T>, xs: Seq<T>, i: int, best: T)
    requires
        exact(m, v),
        xs.len() > 0,
        sampler::leader(m, xs, i, best),
        forall|low: T, j: int| #[trigger]
            arith::lowest(m, low) && 0 <= j < xs.len() ==> v.of(low) < v.of(#[trigger] xs[j]),
    ensures
        0 <= i < xs.len(),
        forall|j: int| 0 <= j < xs.len() ==> v.of(#[trigger] xs[j]) <= v.of(xs[i]),
        forall|j: int| 0 <= j < i ==> v.of(#[trigger] xs[j]) < v.of(xs[i]),
{
    assert forall|low: T| #[trigger] arith::lowest(m, low) implies ranking::rankable(
        sampler::placed(xs.push(low)),
    ) && forall|k: int| 0 <= k < xs.len() ==> !ranking::exceeds(low, #[trigger] xs[k]) by {
        lemma_rankable(m, v, sampler::placed(xs.push(low)));
        assert forall|k: int| 0 <= k < xs.len() implies !ranking::exceeds(low, #[trigger] xs[k]) by {
            assert(v.of(low) < v.of(xs[k]));
        }
    }
    sampler::law_greedy_is_first_largest(m, xs, i, best);
    assert forall|j: int| 0 <= j < xs.len() implies v.of(#[trigger] xs[j]) <= v.of(xs[i]) by {
        assert(!ranking::exceeds(xs[j], xs[i]));
    }
    assert forall|j: int| 0 <= j < i implies v.of(#[trigger] xs[j]) < v.of(xs[i]) by {
        assert(ranking::exceeds(xs[i], xs[j]));
    }
}

} // verus!
