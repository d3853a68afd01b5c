//! The marker tables of leaves: for each marker the ordered set of the
//! offsets that carry it.

use vstd::prelude::*;
use std::collections::BTreeSet;
use vstd::std_specs::iter::IteratorSpec;
use crate::marks::{
    increasing, lemma_increasing_unique, lemma_window_contains, lemma_window_increasing, window,
    within,
};
use crate::order::lemma_walk_rises;

verus! {

/// `listing` holds exactly the offsets of `elements`, from the smallest to
/// the greatest.
pub(crate) open spec fn lists(listing: Seq<int>, elements: Set<usize>) -> bool {
    &&& increasing(listing)
    &&& forall|p: int|
        listing.contains(p) <==> 0 <= p <= usize::MAX && elements.contains(p as usize)
}

/// The offsets of the set as positions, from the smallest to the greatest.
pub(crate) open spec fn offsets_of(set: &BTreeSet<usize>) -> Seq<int> {
    choose|listing: Seq<int>| lists(listing, set@)
}

/// The positions recorded for `m` in a leaf's marker table: none where the
/// table has no entry.
pub(crate) open spec fn leaf_marks<M>(table: Map<M, BTreeSet<usize>>, m: M) -> Seq<int> {
    if table.contains_key(m) {
        offsets_of(&table[m])
    } else {
        Seq::empty()
    }
}

/// A leaf's marker table is valid for `len` elements: every entry holds at
/// least one offset, and only offsets below `len`.
pub(crate) open spec fn leaf_table_wf<M>(table: Map<M, BTreeSet<usize>>, len: nat) -> bool {
    forall|m: M| #[trigger]
        table.contains_key(m) ==> {
            &&& offsets_of(&table[m]).len() > 0
            &&& within(offsets_of(&table[m]), 0, len as int)
        }
}

/// The offsets of a set are strictly increasing, as many as the set has
/// elements, exactly the elements of the set, and what a walk over the set
/// yields.
pub(crate) proof fn lemma_offsets_sorted(set: &BTreeSet<usize>)
    ensures
        lists(offsets_of(set), set@),
        offsets_of(set).len() == set@.len(),
        offsets_of(set).len() == set.iter().remaining().len(),
        forall|i: int|
            0 <= i < offsets_of(set).len() ==> #[trigger] offsets_of(set)[i]
                == *set.iter().remaining()[i],
{
    lemma_walk_rises(set);
    let walk = set.iter().remaining();
    let walked = Seq::new(walk.len(), |i: int| *walk[i] as int);
    assert forall|p: int| walked.contains(p) <==> 0 <= p <= usize::MAX && set@.contains(
        p as usize,
    ) by {
        if walked.contains(p) {
            let i = choose|i: int| 0 <= i < walked.len() && walked[i] == p;
            assert(set@.contains(*walk[i]));
        }
        if 0 <= p <= usize::MAX && set@.contains(p as usize) {
            let i = choose|i: int| 0 <= i < walk.len() && *#[trigger] walk[i] == p as usize;
            assert(walked[i] == p);
        }
    }
    assert(lists(walked, set@));
    assert(walked.to_set() =~= offsets_of(set).to_set());
    lemma_increasing_unique(walked, offsets_of(set));
}

/// The offset that has `n` smaller offsets of the set before it.
pub(crate) fn nth_offset(set: &BTreeSet<usize>, n: usize) -> (found: Option<usize>)
    ensures
        n < offsets_of(set).len() ==> found == Some(offsets_of(set)[n as int] as usize),
        n >= offsets_of(set).len() ==> found.is_none(),
{
    proof {
        lemma_offsets_sorted(set);
    }
    let mut passed: usize = 0;
    for offset in it: set.iter()
        invariant
            it.seq() == set.iter().remaining(),
            passed == it.index(),
            passed <= n,
            offsets_of(set).len() == set.iter().remaining().len(),
            forall|i: int|
                0 <= i < offsets_of(set).len() ==> #[trigger] offsets_of(set)[i]
                    == *set.iter().remaining()[i],
    {
        if passed == n {
            return Some(*offset);
        }
        passed += 1;
    }
    None
}

/// The offsets that lie in `[start, end)`, each reduced by `start`.
pub(crate) fn sliced_offsets(set: &BTreeSet<usize>, start: usize, end: usize) -> (kept: BTreeSet<
    usize,
>)
    ensures
        offsets_of(&kept) == window(offsets_of(set), start as int, end as int),
{
    let mut kept: BTreeSet<usize> = BTreeSet::new();
    for offset in it: set.iter()
        invariant
            it.seq() == set.iter().remaining(),
            forall|v: usize|
                kept@.contains(v) <==> exists|i: int|
                    0 <= i < it.index() && start <= *#[trigger] it.seq()[i] < end && v
                        == *it.seq()[i] - start,
    {
        if *offset >= start && *offset < end {
            kept.insert(*offset - start);
        }
    }
    proof {
        let walk = set.iter().remaining();
        let all = offsets_of(set);
        let cut = window(all, start as int, end as int);
        lemma_offsets_sorted(set);
        lemma_offsets_sorted(&kept);
        lemma_window_increasing(all, start as int, end as int);
        assert forall|p: int| offsets_of(&kept).contains(p) <==> cut.contains(p) by {
            lemma_window_contains(all, start as int, end as int, p);
            if offsets_of(&kept).contains(p) {
                let i = choose|i: int|
                    0 <= i < walk.len() && start <= *#[trigger] walk[i] < end && p as usize
                        == *walk[i] - start;
                assert(all[i] == p + start);
            }
            if cut.contains(p) {
                let i = choose|i: int| 0 <= i < all.len() && all[i] == p + start;
                assert(start <= *walk[i] < end && p as usize == *walk[i] - start);
            }
        }
        assert(offsets_of(&kept).to_set() =~= cut.to_set());
        lemma_increasing_unique(offsets_of(&kept), cut);
    }
    kept
}

} // verus!
