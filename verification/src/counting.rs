//! Counting the elements of sequences.

use vstd::multiset::Multiset;
use vstd::prelude::*;

verus! {

/// A sequence without elements holds nothing, counted any way.
pub proof fn lemma_nothing_counted<A>(s: Seq<A>)
    requires
        s.len() == 0,
    ensures
        s.to_multiset() == Multiset::<A>::empty(),
{
    vstd::seq_lib::to_multiset_len(s);
    vstd::multiset::lemma_multiset_empty_len(s.to_multiset());
}

} // verus!
