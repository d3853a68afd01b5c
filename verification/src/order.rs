//! The order in which a set of offsets is walked.

use vstd::prelude::*;
use std::collections::BTreeSet;
use vstd::std_specs::btree::axiom_increasing_seq_meaning;
use vstd::std_specs::cmp::OrdSpec;
use vstd::std_specs::iter::IteratorSpec;

verus! {

/// A walk over a set of offsets meets them from the smallest to the
/// greatest, each once, and meets exactly the offsets of the set.
pub(crate) proof fn lemma_walk_rises(set: &BTreeSet<usize>)
    ensures
        forall|i: int, j: int|
            0 <= i < j < set.iter().remaining().len() ==> *set.iter().remaining()[i]
                < *set.iter().remaining()[j],
        forall|i: int|
            0 <= i < set.iter().remaining().len() ==> set@.contains(
                *#[trigger] set.iter().remaining()[i],
            ),
        forall|offset: usize|
            set@.contains(offset) ==> exists|i: int|
                0 <= i < set.iter().remaining().len() && *#[trigger] set.iter().remaining()[i]
                    == offset,
        set.iter().remaining().len() == set@.len(),
{
    let walk = set.iter().remaining();
    axiom_increasing_seq_meaning::<&usize>(walk);
    assert forall|i: int, j: int| 0 <= i < j < walk.len() implies *walk[i] < *walk[j] by {
        assert((&walk[i]).cmp_spec(&&walk[j]) is Less);
    }
    assert forall|i: int| 0 <= i < walk.len() implies set@.contains(*#[trigger] walk[i]) by {
        assert(walk.unref()[i] == *walk[i]);
        assert(walk.unref().to_set().contains(walk.unref()[i]));
    }
    assert forall|offset: usize| set@.contains(offset) implies exists|i: int|
        0 <= i < walk.len() && *#[trigger] walk[i] == offset by {
        assert(walk.unref().to_set().contains(offset));
        let i = choose|i: int| 0 <= i < walk.unref().len() && walk.unref()[i] == offset;
        assert(*walk[i] == offset);
    }
}

} // verus!
