//! Sequences of sequences.

use vstd::prelude::*;

verus! {

/// The items of `parts`, one behind the other.
pub open spec fn flat<T>(parts: Seq<Seq<T>>) -> Seq<T>
    decreases parts.len(),
{
    if parts.len() == 0 {
        Seq::empty()
    } else {
        flat(parts.drop_last()) + parts.last()
    }
}

/// A single part.
pub proof fn lemma_flat_one<T>(part: Seq<T>)
    ensures
        flat(seq![part]) == part,
{
    assert(seq![part].drop_last() =~= Seq::<Seq<T>>::empty());
    assert(flat(Seq::<Seq<T>>::empty()) =~= Seq::<T>::empty());
    assert(flat(seq![part]) =~= part);
}

/// Parts behind parts.
pub proof fn lemma_flat_add<T>(a: Seq<Seq<T>>, b: Seq<Seq<T>>)
    ensures
        flat(a + b) == flat(a) + flat(b),
    decreases b.len(),
{
    if b.len() == 0 {
        assert(a + b =~= a);
        assert(flat(a + b) =~= flat(a) + flat(b));
    } else {
        lemma_flat_add(a, b.drop_last());
        assert((a + b).drop_last() =~= a + b.drop_last());
        assert(flat(a + b) =~= flat(a) + flat(b));
    }
}

} // verus!
