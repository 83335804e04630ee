//! Concatenation of sequences.

use vstd::prelude::*;

verus! {

/// Concatenation is associative.
pub(crate) proof fn lemma_cat<A>(a: Seq<A>, b: Seq<A>, c: Seq<A>)
    ensures
        (a + b) + c == a + (b + c),
{
    assert((a + b) + c =~= a + (b + c));
}

/// An empty sequence adds nothing.
pub(crate) proof fn lemma_cat_nothing<A>(a: Seq<A>)
    ensures
        Seq::<A>::empty() + a == a,
        a + Seq::<A>::empty() == a,
{
    assert(Seq::<A>::empty() + a =~= a);
    assert(a + Seq::<A>::empty() =~= a);
}

/// An item in front of a sequence may as well stand at the end of the one before.
pub(crate) proof fn lemma_cat_one<A>(a: Seq<A>, item: A, b: Seq<A>)
    ensures
        a + (seq![item] + b) == a.push(item) + b,
{
    assert(a + seq![item] =~= a.push(item));
    lemma_cat(a, seq![item], b);
}

} // verus!
