//! Chunks: the unit from which leaves are made.

use vstd::prelude::*;
use std::collections::{BTreeSet, HashMap};
use std::hash::Hash;
use vstd::std_specs::hash::obeys_key_model;
use crate::error::MarkerRangeError;
use crate::marks::{clone_of, increasing, within};
use crate::offsets::{leaf_marks, leaf_table_wf, lemma_offsets_sorted, offsets_of};

verus! {

/// A run of elements with markers at some of its offsets, built up by the
/// caller and then turned into a leaf of a rope.
pub struct Chunk<T, M> {
    pub(crate) data: Vec<T>,
    pub(crate) markers: HashMap<M, BTreeSet<usize>>,
}

impl<T: Clone, M: Eq + Hash + Copy> Chunk<T, M> {
    /// The elements of the chunk, in order.
    pub open(crate) spec fn view(&self) -> Seq<T> {
        self.data@
    }

    /// The offsets marked with `m`, in increasing order.
    pub open(crate) spec fn marks(&self, m: M) -> Seq<int> {
        leaf_marks(self.markers@, m)
    }

    /// The chunk is valid: every marked offset addresses an element, and
    /// `M` behaves as a hash-map key should.
    pub open(crate) spec fn wf(&self) -> bool {
        &&& obeys_key_model::<M>()
        &&& leaf_table_wf(self.markers@, self.data@.len())
    }

    /// In a valid chunk the offsets of a marker are strictly increasing and
    /// each addresses an element.
    pub proof fn lemma_marks_sorted(&self, m: M)
        requires
            self.wf(),
        ensures
            increasing(self.marks(m)),
            within(self.marks(m), 0, self@.len() as int),
    {
        if self.markers@.contains_key(m) {
            lemma_offsets_sorted(&self.markers@[m]);
        }
    }

    /// An empty chunk with room for `capacity` elements.
    pub fn with_capacity(capacity: usize) -> (chunk: Self)
        requires
            obeys_key_model::<M>(),
        ensures
            chunk.wf(),
            chunk@ == Seq::<T>::empty(),
            forall|m: M| chunk.marks(m) == Seq::<int>::empty(),
    {
        Chunk { data: Vec::with_capacity(capacity), markers: HashMap::new() }
    }

    /// The number of elements.
    pub fn len(&self) -> (n: usize)
        ensures
            n == self@.len(),
    {
        self.data.len()
    }

    /// Appends one element.
    pub fn push(&mut self, value: T)
        requires
            old(self).wf(),
        ensures
            final(self).wf(),
            final(self)@ == old(self)@.push(value),
            forall|m: M| final(self).marks(m) == old(self).marks(m),
    {
        self.data.push(value);
    }

    /// Appends a clone of every element of `slice`.
    pub fn extend_from_slice(&mut self, slice: &[T])
        requires
            old(self).wf(),
        ensures
            final(self).wf(),
            final(self)@.len() == old(self)@.len() + slice@.len(),
            final(self)@.subrange(0, old(self)@.len() as int) == old(self)@,
            clone_of(
                slice@,
                final(self)@.subrange(old(self)@.len() as int, final(self)@.len() as int),
            ),
            forall|m: M| final(self).marks(m) == old(self).marks(m),
    {
        self.data.extend_from_slice(slice);
    }

    /// Marks offset `at` with `marker`. Marking an offset that already
    /// carries the marker changes nothing. An offset that addresses no
    /// element is refused.
    pub fn mark_at(&mut self, marker: M, at: usize) -> (result: Result<(), MarkerRangeError>)
        requires
            old(self).wf(),
        ensures
            final(self).wf(),
            final(self)@ == old(self)@,
            forall|m: M| m != marker ==> final(self).marks(m) == old(self).marks(m),
            at >= old(self)@.len() ==> result == Err::<(), MarkerRangeError>(
                MarkerRangeError { at, len: old(self)@.len() as usize },
            ) && final(self).marks(marker) == old(self).marks(marker),
            at < old(self)@.len() ==> result is Ok && final(self).marks(marker).to_set() == old(
                self,
            ).marks(marker).to_set().insert(at as int),
    {
        let len = self.data.len();
        if at >= len {
            return Err(MarkerRangeError { at, len });
        }
        let ghost table = self.markers@;
        self.markers.entry(marker).or_insert(BTreeSet::new()).insert(at);
        proof {
            let after = offsets_of(&self.markers@[marker]);
            lemma_offsets_sorted(&self.markers@[marker]);
            if table.contains_key(marker) {
                lemma_offsets_sorted(&table[marker]);
            }
            assert forall|i: int| 0 <= i < after.len() implies 0 <= #[trigger] after[i] < len by {
                assert(after.contains(after[i]));
                if after[i] != at {
                    assert(offsets_of(&table[marker]).contains(after[i]));
                }
            }
        }
        Ok(())
    }
}

} // verus!
