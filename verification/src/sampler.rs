//! The choice of the next token from logits.

use crate::arith::{self, Math, Scalar};
use crate::elementwise;
use crate::ranking::{self, sort_descending};
use crate::tensor::{self, Tensor};
use vstd::prelude::*;

verus! {

/// Going through `xs` from the lowest number on, the place `i` of the last element that was
/// larger than all before it, and this element; place zero if there was none.
pub open spec fn leader<T: Scalar, M: Math<T>>(m: M, xs: Seq<T>, i: int, best: T) -> bool
    decreases xs.len(),
{
    if xs.len() == 0 {
        i == 0 && arith::lowest(m, best)
    } else {
        exists|j: int, before: T, larger: bool|
            {
                &&& leader(m, xs.drop_last(), j, before)
                &&& #[trigger] arith::greater(xs.last(), before, larger)
                &&& #[trigger] led(xs, j, before, larger) == (i, best)
            }
    }
}

/// The place and the element that lead after the last of `xs`.
pub open spec fn led<T>(xs: Seq<T>, j: int, before: T, larger: bool) -> (int, T) {
    if larger {
        (xs.len() - 1, xs.last())
    } else {
        (j, before)
    }
}

/// The place of the largest logit.
pub fn greedy<T: Scalar, M: Math<T>>(logits: &Tensor<T>, m: &M) -> (r: u32)
    ensures
        exists|i: int, best: T| #[trigger]
            leader(*m, logits.elems(), i, best) && r == i as u32,
{
    let xs = logits.data();
    let mut place: usize = 0;
    let mut best = m.lowest();
    let mut i: usize = 0;
    while i < xs.len()
        invariant
            xs@ == logits.elems(),
            i <= xs@.len(),
            leader(*m, xs@.take(i as int), place as int, best),
        decreases xs@.len() - i,
    {
        let ghost (j, before) = (place as int, best);
        let larger = xs[i] > best;
        if larger {
            place = i;
            best = xs[i];
        }
        proof {
            let front = xs@.take(i + 1);
            assert(front.drop_last() =~= xs@.take(i as int));
            assert(leader(*m, front.drop_last(), j, before) && arith::greater(
                front.last(),
                before,
                larger,
            ) && led(front, j, before, larger) == (place as int, best));
        }
        i += 1;
    }
    assert(xs@.take(i as int) =~= xs@);
    assert(leader(*m, logits.elems(), place as int, best));
    #[verifier::truncate]
    (place as u32)
}

/// `ys` is a value of `xs` divided by a temperature, by way of its inverse.
pub open spec fn tempered<T: Scalar, M: Math<T>>(m: M, xs: Seq<T>, temp: T, ys: Seq<T>) -> bool {
    exists|one: T, inverse: T|
        {
            &&& #[trigger] arith::from_usize(m, 1, one)
            &&& #[trigger] arith::divided(one, temp, inverse)
            &&& elementwise::each(xs, |x: T, y: T| arith::multiplied(x, inverse, y), ys)
        }
}

/// Divides logits by a temperature.
pub fn apply_temperature<T: Scalar, M: Math<T>>(logits: &Tensor<T>, temp: T, m: &M) -> (r: Tensor<T>)
    requires
        arith::total::<T>(),
        logits.wf(),
    ensures
        r.wf(),
        r.dims() == logits.dims(),
        tempered(*m, logits.elems(), temp, r.elems()),
{
    let one = m.from_usize(1);
    let inverse = one / temp;
    assert(arith::from_usize(*m, 1, one) && arith::divided(one, temp, inverse));
    logits.scale(inverse)
}

/// The first `k` of the candidates.
pub open spec fn first_k<T>(probs: Seq<(u32, T)>, k: int) -> Seq<(u32, T)> {
    if k < probs.len() {
        probs.take(k)
    } else {
        probs
    }
}

/// Keeps the first `k` candidates.
pub fn top_k_filter<T: Copy>(probs: Vec<(u32, T)>, k: usize) -> (r: Vec<(u32, T)>)
    ensures
        r@ == first_k(probs@, k as int),
{
    let mut r = probs;
    r.truncate(k);
    assert(r@ =~= first_k(probs@, k as int));
    r
}

/// `sums` holds values of the sums of the probabilities of the first candidates, from that of
/// none on.
pub open spec fn accumulated<T: Scalar>(probs: Seq<(u32, T)>, sums: Seq<T>) -> bool {
    &&& sums.len() == probs.len() + 1
    &&& arith::zero(sums[0])
    &&& forall|i: int|
        0 <= i < probs.len() ==> arith::added(sums[i], #[trigger] probs[i].1, sums[i + 1])
}

/// `r` holds the first candidates, up to the one with which the sum of probabilities reaches `p`.
pub open spec fn nucleus<T: Scalar>(probs: Seq<(u32, T)>, p: T, r: Seq<(u32, T)>) -> bool {
    exists|sums: Seq<T>|
        {
            &&& #[trigger] accumulated(r, sums)
            &&& r.len() <= probs.len()
            &&& r == probs.take(r.len() as int)
            &&& forall|i: int| 0 < i < r.len() ==> arith::at_least(#[trigger] sums[i], p, false)
            &&& r.len() < probs.len() ==> r.len() > 0 && arith::at_least(
                sums[r.len() as int],
                p,
                true,
            )
        }
}

/// Keeps the first candidates, up to the one with which the sum of probabilities reaches `p`.
pub fn top_p_filter<T: Scalar>(probs: Vec<(u32, T)>, p: T) -> (r: Vec<(u32, T)>)
    requires
        arith::total::<T>(),
    ensures
        nucleus(probs@, p, r@),
        probs@.len() > 0 ==> r@.len() > 0,
{
    let mut r: Vec<(u32, T)> = Vec::new();
    let mut sum = T::default();
    let ghost mut sums = seq![sum];
    let mut i: usize = 0;
    while i < probs.len()
        invariant
            arith::total::<T>(),
            i <= probs@.len(),
            r@ == probs@.take(i as int),
            accumulated(r@, sums),
            sum == sums[i as int],
            forall|k: int| 0 < k <= i ==> arith::at_least(#[trigger] sums[k], p, false),
        decreases probs@.len() - i,
    {
        let ghost (sums_before, r_before) = (sums, r@);
        let item = probs[i];
        r.push(item);
        let next = sum + item.1;
        proof {
            sums = sums.push(next);
            assert forall|k: int| 0 <= k < r@.len() implies arith::added(
                sums[k],
                #[trigger] r@[k].1,
                sums[k + 1],
            ) by {
                if k < i {
                    assert(r_before[k] == r@[k]);
                    assert(sums[k] == sums_before[k] && sums[k + 1] == sums_before[k + 1]);
                }
            }
            assert(r@ =~= probs@.take(i + 1));
        }
        sum = next;
        i += 1;
        let reached = sum >= p;
        if reached {
            assert(accumulated(r@, sums));
            return r;
        }
    }
    assert(probs@.take(i as int) =~= probs@);
    assert(accumulated(r@, sums));
    r
}

/// Elements with their places.
pub open spec fn placed<T>(xs: Seq<T>) -> Seq<(usize, T)> {
    Seq::new(xs.len(), |i: int| (i as usize, xs[i]))
}

/// Candidates: places are tokens.
pub open spec fn tokens_of<T>(xs: Seq<(usize, T)>) -> Seq<(u32, T)> {
    xs.map_values(|x: (usize, T)| (x.0 as u32, x.1))
}

/// The elements of candidates.
pub open spec fn weights_of<T>(candidates: Seq<(u32, T)>) -> Seq<T> {
    candidates.map_values(|c: (u32, T)| c.1)
}

/// `r` holds values of the candidates with their probabilities divided by `total`.
pub open spec fn normalised<T: Scalar>(
    kept: Seq<(u32, T)>,
    total: T,
    r: Seq<(u32, T)>,
) -> bool {
    &&& r.len() == kept.len()
    &&& forall|i: int|
        0 <= i < r.len() ==> (#[trigger] r[i]).0 == kept[i].0 && arith::divided(
            kept[i].1,
            total,
            r[i].1,
        )
}

/// The values between the steps that lead to the candidates.
pub struct CandidateTrace<T> {
    pub tempered: Seq<T>,
    pub probs: Seq<T>,
    pub sorted: Seq<(usize, T)>,
    pub kept: Seq<(u32, T)>,
    pub total: T,
}

/// The steps that lead to the candidates: temperature, softmax, sorting with the largest first,
/// the first `top_k`, the first up to `top_p`, and division by the sum of what is left.
pub open spec fn candidates_run<T: Scalar, M: Math<T>>(
    m: M,
    logits: Seq<T>,
    temp: T,
    top_k: int,
    top_p: T,
    r: Seq<(u32, T)>,
    tr: CandidateTrace<T>,
) -> bool {
    &&& tempered(m, logits, temp, tr.tempered)
    &&& tensor::softmaxed(m, tr.tempered, tr.probs)
    &&& tr.sorted.to_multiset() == placed(tr.probs).to_multiset()
    &&& ranking::rankable(placed(tr.probs)) ==> ranking::ranked(tr.sorted)
    &&& nucleus(first_k(tokens_of(tr.sorted), top_k), top_p, tr.kept)
    &&& arith::summed(weights_of(tr.kept), tr.total)
    &&& normalised(tr.kept, tr.total, r)
}

/// `r` is a value of the candidates for the next token, with their probabilities.
pub open spec fn candidates<T: Scalar, M: Math<T>>(
    m: M,
    logits: Seq<T>,
    temp: T,
    top_k: int,
    top_p: T,
    r: Seq<(u32, T)>,
) -> bool {
    exists|tr: CandidateTrace<T>| #[trigger]
        candidates_run(m, logits, temp, top_k, top_p, r, tr)
}

fn placed_of<T: Scalar>(xs: &[T]) -> (r: Vec<(usize, T)>)
    ensures
        r@ == placed(xs@),
        xs@.len() <= usize::MAX,
{
    let mut r: Vec<(usize, T)> = Vec::with_capacity(xs.len());
    let mut i: usize = 0;
    while i < xs.len()
        invariant
            i <= xs@.len(),
            r@ == placed(xs@.take(i as int)),
        decreases xs@.len() - i,
    {
        r.push((i, xs[i]));
        assert(r@ =~= placed(xs@.take(i + 1)));
        i += 1;
    }
    assert(xs@.take(i as int) =~= xs@);
    r
}

fn tokens_of_places<T: Scalar>(xs: &Vec<(usize, T)>) -> (r: Vec<(u32, T)>)
    ensures
        r@ == tokens_of(xs@),
{
    let mut r: Vec<(u32, T)> = Vec::with_capacity(xs.len());
    let mut i: usize = 0;
    while i < xs.len()
        invariant
            i <= xs@.len(),
            r@ == tokens_of(xs@.take(i as int)),
        decreases xs@.len() - i,
    {
        r.push((#[verifier::truncate] (xs[i].0 as u32), xs[i].1));
        assert(r@ =~= tokens_of(xs@.take(i + 1)));
        i += 1;
    }
    assert(xs@.take(i as int) =~= xs@);
    r
}

fn weights_of_candidates<T: Scalar>(candidates: &Vec<(u32, T)>) -> (r: Vec<T>)
    ensures
        r@ == weights_of(candidates@),
{
    let mut r: Vec<T> = Vec::with_capacity(candidates.len());
    let mut i: usize = 0;
    while i < candidates.len()
        invariant
            i <= candidates@.len(),
            r@ == weights_of(candidates@.take(i as int)),
        decreases candidates@.len() - i,
    {
        r.push(candidates[i].1);
        assert(r@ =~= weights_of(candidates@.take(i + 1)));
        i += 1;
    }
    assert(candidates@.take(i as int) =~= candidates@);
    r
}

/// The candidates for the next token, with their probabilities.
pub fn candidates_for<T: Scalar, M: Math<T>>(
    logits: &Tensor<T>,
    temp: T,
    top_k: usize,
    top_p: T,
    m: &M,
) -> (r: Vec<(u32, T)>)
    requires
        arith::total::<T>(),
        logits.wf(),
    ensures
        candidates(*m, logits.elems(), temp, top_k as int, top_p, r@),
        logits.elems().len() > 0 && top_k > 0 ==> r@.len() > 0,
{
    let scaled = apply_temperature(logits, temp, m);
    let probs = scaled.softmax(m);
    let pairs = placed_of(probs.data());
    let sorted = sort_descending(&pairs);
    proof {
        placed(probs.elems()).to_multiset_ensures();
        sorted@.to_multiset_ensures();
    }
    let first = top_k_filter(tokens_of_places(&sorted), top_k);
    let kept = top_p_filter(first, top_p);
    let weights = weights_of_candidates(&kept);
    let total = arith::sum(weights.as_slice());
    let mut r: Vec<(u32, T)> = Vec::with_capacity(kept.len());
    let mut i: usize = 0;
    while i < kept.len()
        invariant
            arith::total::<T>(),
            i <= kept@.len(),
            normalised(kept@.take(i as int), total, r@),
        decreases kept@.len() - i,
    {
        r.push((kept[i].0, kept[i].1 / total));
        i += 1;
    }
    assert(kept@.take(i as int) =~= kept@);
    proof {
        let tr = CandidateTrace {
            tempered: scaled.elems(),
            probs: probs.elems(),
            sorted: sorted@,
            kept: kept@,
            total,
        };
        assert(candidates_run(*m, logits.elems(), temp, top_k as int, top_p, r@, tr));
    }
    r
}

/// The token of the candidate at a place.
pub fn pick<T: Copy>(candidates: &Vec<(u32, T)>, place: usize) -> (r: u32)
    requires
        place < candidates@.len(),
    ensures
        r == candidates@[place as int].0,
{
    candidates[place].0
}

/// A token, drawn from the candidates: `draw` gets their probabilities and gives a place.
pub fn sample<T: Scalar, M: Math<T>, D: FnOnce(Vec<T>) -> usize>(
    logits: &Tensor<T>,
    temp: T,
    top_k: usize,
    top_p: T,
    m: &M,
    draw: D,
) -> (r: u32)
    requires
        arith::total::<T>(),
        logits.wf(),
        logits.elems().len() > 0,
        top_k > 0,
        forall|ws: Vec<T>| ws@.len() > 0 ==> #[trigger] call_requires(draw, (ws,)),
        forall|ws: Vec<T>, i: usize| #[trigger]
            call_ensures(draw, (ws,), i) && ws@.len() > 0 ==> i < ws@.len(),
    ensures
        exists|all: Seq<(u32, T)>, ws: Vec<T>, i: usize|
            {
                &&& #[trigger] candidates(*m, logits.elems(), temp, top_k as int, top_p, all)
                &&& #[trigger] call_ensures(draw, (ws,), i)
                &&& ws@ == weights_of(all)
                &&& i < all.len()
                &&& r == all[i as int].0
            },
{
    let all = candidates_for(logits, temp, top_k, top_p, m);
    let weights = weights_of_candidates(&all);
    let i = draw(weights);
    pick(&all, i)
}

/// The elements can be ranked, together with the number that no other is below.
pub open spec fn rankable_from_lowest<T: Scalar, M: Math<T>>(m: M, xs: Seq<T>) -> bool {
    forall|low: T| #[trigger]
        arith::lowest(m, low) ==> {
            &&& ranking::rankable(placed(xs.push(low)))
            &&& forall|i: int| 0 <= i < xs.len() ==> !ranking::exceeds(low, #[trigger] xs[i])
        }
}

/// Element `i` is the first of the largest ones.
pub open spec fn first_largest<T: Scalar>(xs: Seq<T>, i: int) -> bool {
    &&& 0 <= i < xs.len()
    &&& forall|j: int| 0 <= j < xs.len() ==> !ranking::exceeds(#[trigger] xs[j], xs[i])
    &&& forall|j: int| 0 <= j < i ==> ranking::exceeds(xs[i], #[trigger] xs[j])
}

/// In the first `n` of the elements, `i` is the place of the first of the largest, unless none is
/// larger than the lowest number.
spec fn leads<T: Scalar>(xs: Seq<T>, n: int, low: T, i: int, best: T) -> bool {
    ||| i == 0 && best == low && forall|j: int|
        0 <= j < n ==> !ranking::exceeds(#[trigger] xs[j], low)
    ||| best == xs[i] && first_largest(xs.take(n), i)
}

proof fn lemma_leader<T: Scalar, M: Math<T>>(m: M, xs: Seq<T>, n: int, i: int, best: T) -> (low: T)
    requires
        0 <= n <= xs.len(),
        rankable_from_lowest(m, xs),
        leader(m, xs.take(n), i, best),
    ensures
        arith::lowest(m, low),
        leads(xs, n, low, i, best),
    decreases n,
{
    let front = xs.take(n);
    if n == 0 {
        best
    } else {
        let (j, before, larger) = choose|j: int, before: T, larger: bool|
            {
                &&& leader(m, front.drop_last(), j, before)
                &&& #[trigger] arith::greater(front.last(), before, larger)
                &&& #[trigger] led(front, j, before, larger) == (i, best)
            };
        assert(front.drop_last() =~= xs.take(n - 1));
        let low = lemma_leader(m, xs, n - 1, j, before);
        let last = xs[n - 1];
        let all = placed(xs.push(low));
        assert(ranking::rankable(all));
        assert(all[xs.len() as int].1 == low);
        assert forall|k: int| 0 <= k < xs.len() implies (#[trigger] all[k]).1 == xs[k] by {}
        let b = if before == low {
            xs.len() as int
        } else {
            j
        };
        assert(all[b].1 == before && all[n - 1].1 == last) by {
            assert(first_largest(xs.take(n - 1), j) ==> 0 <= j < n - 1);
        }
        assert(larger == ranking::exceeds(all[n - 1].1, all[b].1));
        if larger {
            assert forall|k: int| 0 <= k < n - 1 implies ranking::exceeds(last, #[trigger] xs[k]) by {
                assert(xs.take(n - 1)[k] == xs[k]);
                assert(!ranking::exceeds(all[k].1, all[b].1));
                assert(ranking::exceeds(all[n - 1].1, all[b].1));
                assert(!(!ranking::exceeds(all[n - 1].1, all[k].1) && !ranking::exceeds(
                    all[k].1,
                    all[b].1,
                )));
            }
            assert forall|k: int| 0 <= k < n implies !ranking::exceeds(#[trigger] front[k], last) by {
                if k < n - 1 {
                    assert(ranking::exceeds(all[n - 1].1, all[k].1));
                } else {
                    assert(!ranking::exceeds(all[n - 1].1, all[n - 1].1));
                }
            }
            assert(first_largest(front, n - 1));
        } else if best == low && i == 0 && forall|k: int|
            0 <= k < n - 1 ==> !ranking::exceeds(#[trigger] xs[k], low) {
        } else {
            assert forall|k: int| 0 <= k < n implies !ranking::exceeds(#[trigger] front[k], front[i]) by {
                if k < n - 1 {
                    assert(xs.take(n - 1)[k] == xs[k]);
                }
            }
            assert forall|k: int| 0 <= k < i implies ranking::exceeds(front[i], #[trigger] front[k]) by {
                assert(xs.take(n - 1)[k] == xs[k]);
            }
        }
        low
    }
}

/// The greedy choice is the first of the largest logits, where they can be ranked.
pub proof fn law_greedy_is_first_largest<T: Scalar, M: Math<T>>(m: M, xs: Seq<T>, i: int, best: T)
    requires
        xs.len() > 0,
        rankable_from_lowest(m, xs),
        leader(m, xs, i, best),
    ensures
        first_largest(xs, i),
{
    assert(xs.take(xs.len() as int) =~= xs);
    let low = lemma_leader(m, xs, xs.len() as int, i, best);
    let all = placed(xs.push(low));
    assert(ranking::rankable(all));
    assert(all[xs.len() as int].1 == low);
    if !first_largest(xs, i) {
        assert forall|k: int| 0 <= k < xs.len() implies !ranking::exceeds(#[trigger] xs[k], xs[0]) by {
            assert(all[k].1 == xs[k] && all[0].1 == xs[0]);
            assert(!ranking::exceeds(all[k].1, all[xs.len() as int].1));
            assert(!ranking::exceeds(all[xs.len() as int].1, all[0].1));
        }
    }
}

/// The first of the largest elements is the first when they are sorted.
proof fn lemma_first_ranked<T: Scalar>(xs: Seq<T>, sorted: Seq<(usize, T)>, i: int)
    requires
        0 < xs.len() <= usize::MAX,
        sorted.to_multiset() == placed(xs).to_multiset(),
        ranking::ranked(sorted),
        ranking::rankable(placed(xs)),
        first_largest(xs, i),
    ensures
        sorted.len() == xs.len(),
        sorted[0] == (i as usize, xs[i]),
{
    let all = placed(xs);
    sorted.to_multiset_ensures();
    all.to_multiset_ensures();
    assert(sorted.contains(sorted[0]));
    assert(all.to_multiset().count(sorted[0]) > 0);
    let p = choose|p: int| 0 <= p < all.len() && all[p] == sorted[0];
    assert(all.contains(all[i]));
    assert(sorted.to_multiset().count(all[i]) > 0);
    let q = choose|q: int| 0 <= q < sorted.len() && sorted[q] == all[i];
    assert(xs[p] == all[p].1 && xs[i] == all[i].1);
    if p != i {
        assert(sorted[0] != sorted[q]) by {
            assert(all[p].0 != all[i].0);
        }
        assert(ranking::precedes(sorted[0], sorted[q]));
        assert(!ranking::exceeds(xs[p], xs[i]));
        assert(p < i ==> ranking::exceeds(xs[i], xs[p]));
    }
}

/// With `top_k` of one, there is one candidate: the one that the greedy choice from the
/// probabilities gives.
pub proof fn law_top_1_is_greedy<T: Scalar, M: Math<T>>(
    m: M,
    logits: Seq<T>,
    temp: T,
    top_p: T,
    r: Seq<(u32, T)>,
    tr: CandidateTrace<T>,
    i: int,
    best: T,
)
    requires
        0 < logits.len() <= usize::MAX,
        candidates_run(m, logits, temp, 1, top_p, r, tr),
        ranking::rankable(placed(tr.probs)),
        rankable_from_lowest(m, tr.probs),
        leader(m, tr.probs, i, best),
    ensures
        r.len() == 1,
        r[0].0 == i as u32,
{
    let n = tr.probs.len();
    assert(n == logits.len());
    law_greedy_is_first_largest(m, tr.probs, i, best);
    lemma_first_ranked(tr.probs, tr.sorted, i);
    let first = first_k(tokens_of(tr.sorted), 1);
    assert(first.len() == 1 && first[0] == (i as u32, tr.sorted[0].1));
}

} // verus!
