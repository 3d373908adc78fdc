//! Sorting of numbered elements, the largest first.

use crate::arith::{self, Scalar};
use vstd::prelude::*;

verus! {

/// `a > b` can be true.
pub open spec fn exceeds<T: Scalar>(a: T, b: T) -> bool {
    arith::greater(a, b, true)
}

/// `x` comes before `y`: its element is larger, or neither is larger and its number is lower.
pub open spec fn precedes<T: Scalar>(x: (usize, T), y: (usize, T)) -> bool {
    exceeds(x.1, y.1) || (!exceeds(y.1, x.1) && x.0 < y.0)
}

/// The elements can be ranked: a comparison of two has one result, no two elements are each
/// larger than the other, and of three elements, where the first is not larger than the second
/// nor the second than the third, the first is not larger than the third.
pub open spec fn rankable<T: Scalar>(xs: Seq<(usize, T)>) -> bool {
    &&& forall|i: int, j: int|
        0 <= i < xs.len() && 0 <= j < xs.len() && #[trigger] exceeds(xs[i].1, xs[j].1)
            ==> !arith::greater(xs[i].1, xs[j].1, false)
    &&& forall|i: int, j: int|
        0 <= i < xs.len() && 0 <= j < xs.len() && #[trigger] exceeds(xs[i].1, xs[j].1)
            ==> !exceeds(xs[j].1, xs[i].1)
    &&& forall|i: int, j: int, k: int|
        0 <= i < xs.len() && 0 <= j < xs.len() && 0 <= k < xs.len() && !#[trigger] exceeds(
            xs[i].1,
            xs[j].1,
        ) && !#[trigger] exceeds(xs[j].1, xs[k].1) ==> !exceeds(xs[i].1, xs[k].1)
}

/// The numbers are all different.
pub open spec fn distinct<T>(xs: Seq<(usize, T)>) -> bool {
    forall|i: int, j: int|
        0 <= i < xs.len() && 0 <= j < xs.len() && i != j ==> #[trigger] xs[i].0
            != #[trigger] xs[j].0
}

/// Each comes before all that stand behind it.
pub open spec fn ranked<T: Scalar>(xs: Seq<(usize, T)>) -> bool {
    forall|i: int, j: int| 0 <= i < j < xs.len() ==> precedes(#[trigger] xs[i], #[trigger] xs[j])
}

/// All of `xs` are among `all`.
spec fn among<T>(xs: Seq<(usize, T)>, all: Seq<(usize, T)>) -> bool {
    forall|i: int| 0 <= i < xs.len() ==> all.contains(#[trigger] xs[i])
}

proof fn lemma_transitive<T: Scalar>(
    all: Seq<(usize, T)>,
    x: (usize, T),
    y: (usize, T),
    z: (usize, T),
)
    requires
        rankable(all),
        all.contains(x),
        all.contains(y),
        all.contains(z),
        precedes(x, y),
        precedes(y, z),
    ensures
        precedes(x, z),
{
    let i = choose|i: int| 0 <= i < all.len() && all[i] == x;
    let j = choose|j: int| 0 <= j < all.len() && all[j] == y;
    let k = choose|k: int| 0 <= k < all.len() && all[k] == z;
    assert(!exceeds(all[j].1, all[i].1)) by {
        if exceeds(all[i].1, all[j].1) {
        }
    }
    assert(!exceeds(all[k].1, all[j].1)) by {
        if exceeds(all[j].1, all[k].1) {
        }
    }
    assert(!exceeds(all[k].1, all[i].1));
    if !exceeds(all[i].1, all[k].1) {
        if exceeds(all[i].1, all[j].1) {
            assert(!exceeds(all[k].1, all[j].1));
            assert(exceeds(all[i].1, all[j].1));
            assert(!(!exceeds(all[i].1, all[k].1) && !exceeds(all[k].1, all[j].1)));
        }
        if exceeds(all[j].1, all[k].1) {
            assert(!exceeds(all[j].1, all[i].1));
            assert(!(!exceeds(all[j].1, all[i].1) && !exceeds(all[i].1, all[k].1)));
        }
    }
}

/// Whether `x` comes before `y`.
fn goes_first<T: Scalar>(
    x: (usize, T),
    y: (usize, T),
    Ghost(all): Ghost<Seq<(usize, T)>>,
) -> (r: bool)
    requires
        all.contains(x),
        all.contains(y),
    ensures
        rankable(all) ==> r == precedes(x, y),
{
    proof {
        let i = choose|i: int| 0 <= i < all.len() && all[i] == x;
        let j = choose|j: int| 0 <= j < all.len() && all[j] == y;
        assert(rankable(all) && exceeds(all[i].1, all[j].1) ==> !arith::greater(x.1, y.1, false));
        assert(rankable(all) && exceeds(all[j].1, all[i].1) ==> !arith::greater(y.1, x.1, false));
    }
    if x.1 > y.1 {
        true
    } else if y.1 > x.1 {
        false
    } else {
        x.0 < y.0
    }
}

/// What is left of a sequence is its first item and what is left behind it.
proof fn lemma_skip<T>(xs: Seq<(usize, T)>, i: int)
    requires
        0 <= i < xs.len(),
    ensures
        xs.skip(i).to_multiset() == xs.skip(i + 1).to_multiset().insert(xs[i]),
{
    let (one, rest) = (seq![xs[i]], xs.skip(i + 1));
    assert(xs.skip(i) =~= one + rest);
    vstd::seq_lib::lemma_multiset_commutative(one, rest);
    assert(one =~= Seq::<(usize, T)>::empty().push(xs[i]));
    vstd::seq_lib::to_multiset_build(Seq::<(usize, T)>::empty(), xs[i]);
    Seq::<(usize, T)>::empty().to_multiset_ensures();
    assert(one.to_multiset().add(rest.to_multiset()) =~= rest.to_multiset().insert(xs[i]));
}

/// Everything in `front` comes before everything in `back`.
spec fn all_precede<T: Scalar>(front: Seq<(usize, T)>, back: Seq<(usize, T)>) -> bool {
    forall|i: int, j: int|
        0 <= i < front.len() && 0 <= j < back.len() ==> precedes(
            #[trigger] front[i],
            #[trigger] back[j],
        )
}

/// The numbers of `a` are not among those of `b`.
spec fn apart<T>(a: Seq<(usize, T)>, b: Seq<(usize, T)>) -> bool {
    forall|i: int, j: int|
        0 <= i < a.len() && 0 <= j < b.len() ==> #[trigger] a[i].0 != #[trigger] b[j].0
}

/// Moving the first of what is left behind what is done.
proof fn lemma_take_first<T: Scalar>(
    all: Seq<(usize, T)>,
    done: Seq<(usize, T)>,
    a: Seq<(usize, T)>,
    i: int,
    b: Seq<(usize, T)>,
    j: int,
)
    requires
        rankable(all),
        among(a, all),
        among(b, all),
        0 <= i < a.len(),
        0 <= j <= b.len(),
        ranked(done),
        ranked(a),
        ranked(b),
        all_precede(done, a.skip(i)),
        all_precede(done, b.skip(j)),
        j < b.len() ==> precedes(a[i], b[j]),
    ensures
        ranked(done.push(a[i])),
        all_precede(done.push(a[i]), a.skip(i + 1)),
        all_precede(done.push(a[i]), b.skip(j)),
{
    let next = done.push(a[i]);
    assert(a.skip(i)[0] == a[i]);
    assert forall|p: int, q: int| 0 <= p < next.len() && 0 <= q < a.skip(i + 1).len() implies precedes(
        #[trigger] next[p],
        #[trigger] a.skip(i + 1)[q],
    ) by {
        assert(a.skip(i + 1)[q] == a[i + 1 + q]);
        if p < done.len() {
            assert(a.skip(i)[q + 1] == a[i + 1 + q]);
            assert(precedes(done[p], a.skip(i)[q + 1]));
        }
    }
    assert forall|p: int, q: int| 0 <= p < next.len() && 0 <= q < b.skip(j).len() implies precedes(
        #[trigger] next[p],
        #[trigger] b.skip(j)[q],
    ) by {
        if p == done.len() {
            assert(b.skip(j)[q] == b[j + q]);
            if q > 0 {
                assert(precedes(b[j], b[j + q]));
                assert(all.contains(a[i]) && all.contains(b[j]) && all.contains(b[j + q]));
                lemma_transitive(all, a[i], b[j], b[j + q]);
            }
        }
    }
}

/// Merges two sorted sequences of numbered elements.
fn merge<T: Scalar>(
    a: &Vec<(usize, T)>,
    b: &Vec<(usize, T)>,
    Ghost(all): Ghost<Seq<(usize, T)>>,
) -> (r: Vec<(usize, T)>)
    requires
        among(a@, all),
        among(b@, all),
        apart(a@, b@),
        a@.len() + b@.len() <= usize::MAX,
        rankable(all) ==> ranked(a@) && ranked(b@),
    ensures
        r@.to_multiset() == a@.to_multiset().add(b@.to_multiset()),
        rankable(all) ==> ranked(r@),
{
    let mut r: Vec<(usize, T)> = Vec::with_capacity(a.len() + b.len());
    let mut i: usize = 0;
    let mut j: usize = 0;
    let ghost whole = a@.to_multiset().add(b@.to_multiset());
    proof {
        Seq::<(usize, T)>::empty().to_multiset_ensures();
        assert(a@.skip(0) =~= a@ && b@.skip(0) =~= b@);
        assert(r@.to_multiset().add(a@.to_multiset()).add(b@.to_multiset()) =~= whole);
    }
    while i < a.len() || j < b.len()
        invariant
            i <= a@.len(),
            j <= b@.len(),
            among(a@, all),
            among(b@, all),
            apart(a@, b@),
            whole == a@.to_multiset().add(b@.to_multiset()),
            r@.to_multiset().add(a@.skip(i as int).to_multiset()).add(
                b@.skip(j as int).to_multiset(),
            ) == whole,
            rankable(all) ==> {
                &&& ranked(a@)
                &&& ranked(b@)
                &&& ranked(r@)
                &&& all_precede(r@, a@.skip(i as int))
                &&& all_precede(r@, b@.skip(j as int))
            },
        decreases a@.len() - i + b@.len() - j,
    {
        let left = if i < a.len() && j < b.len() {
            goes_first(a[i], b[j], Ghost(all))
        } else {
            i < a.len()
        };
        let ghost done = r@;
        if left {
            proof {
                if rankable(all) {
                    lemma_take_first(all, done, a@, i as int, b@, j as int);
                }
                lemma_skip(a@, i as int);
                vstd::seq_lib::to_multiset_build(done, a@[i as int]);
            }
            r.push(a[i]);
            i += 1;
            assert(r@.to_multiset().add(a@.skip(i as int).to_multiset()).add(
                b@.skip(j as int).to_multiset(),
            ) =~= whole);
        } else {
            proof {
                if rankable(all) {
                    assert(i < a.len() ==> a@[i as int].0 != b@[j as int].0);
                    lemma_take_first(all, done, b@, j as int, a@, i as int);
                }
                lemma_skip(b@, j as int);
                vstd::seq_lib::to_multiset_build(done, b@[j as int]);
            }
            r.push(b[j]);
            j += 1;
            assert(r@.to_multiset().add(a@.skip(i as int).to_multiset()).add(
                b@.skip(j as int).to_multiset(),
            ) =~= whole);
        }
    }
    proof {
        Seq::<(usize, T)>::empty().to_multiset_ensures();
        assert(a@.skip(i as int) =~= Seq::<(usize, T)>::empty());
        assert(b@.skip(j as int) =~= Seq::<(usize, T)>::empty());
        assert(r@.to_multiset() =~= whole);
    }
    r
}

/// Sorts the elements from `lo` up to `hi`.
fn sort_range<T: Scalar>(xs: &Vec<(usize, T)>, lo: usize, hi: usize) -> (r: Vec<(usize, T)>)
    requires
        lo <= hi <= xs@.len(),
        distinct(xs@),
    ensures
        r@.to_multiset() == xs@.subrange(lo as int, hi as int).to_multiset(),
        rankable(xs@) ==> ranked(r@),
    decreases hi - lo,
{
    if hi - lo <= 1 {
        let mut r: Vec<(usize, T)> = Vec::new();
        if lo < hi {
            r.push(xs[lo]);
        }
        assert(r@ =~= xs@.subrange(lo as int, hi as int));
        return r;
    }
    let mid = lo + (hi - lo) / 2;
    let a = sort_range(xs, lo, mid);
    let b = sort_range(xs, mid, hi);
    proof {
        let (xa, xb) = (
            xs@.subrange(lo as int, mid as int),
            xs@.subrange(mid as int, hi as int),
        );
        assert(xs@.subrange(lo as int, hi as int) =~= xa + xb);
        vstd::seq_lib::lemma_multiset_commutative(xa, xb);
        xa.to_multiset_ensures();
        xb.to_multiset_ensures();
        a@.to_multiset_ensures();
        b@.to_multiset_ensures();
        assert forall|i: int| 0 <= i < a@.len() implies xa.contains(#[trigger] a@[i])
            && xs@.contains(a@[i]) by {
            assert(a@.contains(a@[i]));
            assert(a@.to_multiset().count(a@[i]) > 0);
            let k = choose|k: int| 0 <= k < xa.len() && xa[k] == a@[i];
            assert(xs@[lo + k] == a@[i]);
        }
        assert forall|i: int| 0 <= i < b@.len() implies xb.contains(#[trigger] b@[i])
            && xs@.contains(b@[i]) by {
            assert(b@.contains(b@[i]));
            assert(b@.to_multiset().count(b@[i]) > 0);
            let k = choose|k: int| 0 <= k < xb.len() && xb[k] == b@[i];
            assert(xs@[mid + k] == b@[i]);
        }
        assert forall|i: int, j: int| 0 <= i < a@.len() && 0 <= j < b@.len() implies #[trigger] a@[i].0
            != #[trigger] b@[j].0 by {
            let p = choose|p: int| 0 <= p < xa.len() && xa[p] == a@[i];
            let q = choose|q: int| 0 <= q < xb.len() && xb[q] == b@[j];
            assert(xs@[lo + p] == a@[i] && xs@[mid + q] == b@[j]);
        }
    }
    merge(&a, &b, Ghost(xs@))
}

/// Sorts numbered elements, the largest first; of equal elements the one with the lower number
/// comes first.
pub fn sort_descending<T: Scalar>(xs: &Vec<(usize, T)>) -> (r: Vec<(usize, T)>)
    requires
        distinct(xs@),
    ensures
        r@.to_multiset() == xs@.to_multiset(),
        rankable(xs@) ==> ranked(r@),
{
    assert(xs@.subrange(0, xs@.len() as int) =~= xs@);
    sort_range(xs, 0, xs.len())
}

/// There is one way to sort.
pub proof fn law_ranked_once<T: Scalar>(
    all: Seq<(usize, T)>,
    a: Seq<(usize, T)>,
    b: Seq<(usize, T)>,
)
    requires
        rankable(all),
        a.to_multiset() == all.to_multiset(),
        b.to_multiset() == all.to_multiset(),
        ranked(a),
        ranked(b),
    ensures
        a == b,
{
    all.to_multiset_ensures();
    a.to_multiset_ensures();
    b.to_multiset_ensures();
    assert forall|i: int| 0 <= i < a.len() implies all.contains(#[trigger] a[i]) by {
        assert(a.to_multiset().count(a[i]) > 0);
    }
    lemma_ranked_once(all, a, b);
}

proof fn lemma_ranked_once<T: Scalar>(
    all: Seq<(usize, T)>,
    a: Seq<(usize, T)>,
    b: Seq<(usize, T)>,
)
    requires
        rankable(all),
        among(a, all),
        a.to_multiset() == b.to_multiset(),
        ranked(a),
        ranked(b),
    ensures
        a == b,
    decreases a.len(),
{
    a.to_multiset_ensures();
    b.to_multiset_ensures();
    if a.len() == 0 {
        assert(a =~= b);
    } else {
        assert(a.contains(a[0]) && b.contains(b[0]));
        assert(b.to_multiset().count(a[0]) > 0 && a.to_multiset().count(b[0]) > 0);
        let i = choose|i: int| 0 <= i < a.len() && a[i] == b[0];
        let j = choose|j: int| 0 <= j < b.len() && b[j] == a[0];
        if i > 0 && j > 0 {
            assert(precedes(a[0], a[i]) && precedes(b[0], b[j]));
            lemma_not_both(all, a[0], a[i]);
        }
        assert(a[0] == b[0]);
        let (x, y) = (a.remove(0), b.remove(0));
        assert forall|p: int, q: int| 0 <= p < q < x.len() implies precedes(
            #[trigger] x[p],
            #[trigger] x[q],
        ) by {
            assert(x[p] == a[p + 1] && x[q] == a[q + 1]);
        }
        assert forall|p: int, q: int| 0 <= p < q < y.len() implies precedes(
            #[trigger] y[p],
            #[trigger] y[q],
        ) by {
            assert(y[p] == b[p + 1] && y[q] == b[q + 1]);
        }
        assert forall|p: int| 0 <= p < x.len() implies all.contains(#[trigger] x[p]) by {
            assert(x[p] == a[p + 1]);
        }
        lemma_ranked_once(all, x, y);
        assert(a =~= seq![a[0]] + x);
        assert(b =~= seq![b[0]] + y);
    }
}

/// Of two, not each comes before the other.
proof fn lemma_not_both<T: Scalar>(all: Seq<(usize, T)>, x: (usize, T), y: (usize, T))
    requires
        rankable(all),
        all.contains(x),
        all.contains(y),
    ensures
        !(precedes(x, y) && precedes(y, x)),
{
    let i = choose|i: int| 0 <= i < all.len() && all[i] == x;
    let j = choose|j: int| 0 <= j < all.len() && all[j] == y;
    assert(exceeds(all[i].1, all[j].1) ==> !exceeds(all[j].1, all[i].1));
}

} // verus!
