//! The rope itself: an immutable sequence with markers, shared freely and
//! never changed once built.

use vstd::prelude::*;
use std::collections::HashMap;
use std::hash::Hash;
use std::rc::Rc;
use vstd::std_specs::hash::obeys_key_model;
use crate::chunk::Chunk;
use crate::error::{IndexError, RangeError};
use crate::marks::{clone_of, increasing, shift, window, within};
use crate::node::Node;
use crate::values::Values;

verus! {

/// A persistent sequence of `T` with positions tagged by markers of type
/// `M`. Operations that "change" a rope build a new one that shares the
/// untouched subtrees with its sources.
pub struct Rope<T, M = ()> {
    pub(crate) root: Rc<Node<T, M>>,
}

impl<T: Clone, M: Eq + Hash + Copy> Rope<T, M> {
    /// The elements of the rope, in order.
    pub open(crate) spec fn view(&self) -> Seq<T> {
        self.root.elems()
    }

    /// The positions tagged with `m`, in increasing order.
    pub open(crate) spec fn marks(&self, m: M) -> Seq<int> {
        self.root.marks(m)
    }

    /// The number of internal nodes on the longest path from the root to a
    /// leaf.
    pub open(crate) spec fn height(&self) -> nat {
        self.root.height()
    }

    /// The number of leaves of the tree.
    pub open(crate) spec fn leaves(&self) -> nat {
        self.root.leaves()
    }

    /// The rope is valid: the lengths, depths and marker counts cached in
    /// its tree agree with the tree, every marked position addresses an
    /// element, and `M` behaves as a hash-map key should.
    pub open(crate) spec fn wf(&self) -> bool {
        self.root.wf()
    }

    /// The root of `self` is an internal node whose left child is the root
    /// of `left` and whose right child is the root of `right`. For a valid
    /// rope this fixes every field that the root caches.
    pub open(crate) spec fn is_node_over(&self, left: &Self, right: &Self) -> bool {
        &&& (*self.root) is Concat
        &&& (*self.root)->left == left.root
        &&& (*self.root)->right == right.root
    }

    /// The depth of the rope that `slice(start, end)` builds: cutting a
    /// range that reaches across the split of an internal node builds one
    /// node over the cuts of the two sides; a range on one side of the
    /// split is cut out of that side alone, and a flat rope is cut into a
    /// flat rope.
    pub open(crate) spec fn cut_height(&self, start: int, end: int) -> nat {
        self.root.cut_height(start, end)
    }

    /// `self` is what `concat(left, right)` yields: the elements of `left`
    /// followed by those of `right`, with the marks of `right` moved behind
    /// those of `left`.
    pub open spec fn is_concat_of(&self, left: &Self, right: &Self) -> bool {
        &&& self@ == left@ + right@
        &&& forall|m: M| #[trigger]
            self.marks(m) == left.marks(m) + shift(right.marks(m), left@.len() as int)
    }

    /// `self` is what `source.slice(start, end)` may yield: clones of the
    /// elements at `[start, end)`, with the marks of that range
    /// re-expressed relative to `start`.
    pub open spec fn is_slice_of(&self, source: &Self, start: int, end: int) -> bool {
        &&& clone_of(source@.subrange(start, end), self@)
        &&& forall|m: M| #[trigger] self.marks(m) == window(source.marks(m), start, end)
    }

    /// In a valid rope the positions of a marker are strictly increasing
    /// and each addresses an element.
    pub proof fn lemma_marks_sorted(&self, m: M)
        requires
            self.wf(),
        ensures
            increasing(self.marks(m)),
            within(self.marks(m), 0, self@.len() as int),
            self.marks(m).len() <= self@.len(),
    {
        self.root.lemma_marks_sorted(m);
    }

    /// Cutting a flat rope builds a flat rope.
    pub proof fn lemma_cut_height_flat(&self, start: int, end: int)
        requires
            self.height() == 0,
        ensures
            self.cut_height(start, end) == 0,
    {
    }

    /// Cutting a rope whose root stands over `left` and `right`: a range
    /// across the split builds a node over the cuts of both, one level
    /// above the deeper of them; a range that ends at or before the split
    /// is cut out of `left`, and a range that starts at or after it out of
    /// `right`.
    pub proof fn lemma_cut_height_node(&self, left: &Self, right: &Self, start: int, end: int)
        requires
            self.is_node_over(left, right),
        ensures
            start < left@.len() < end ==> self.cut_height(start, end) == if left.cut_height(
                start,
                left@.len() as int,
            ) >= right.cut_height(0, end - left@.len()) {
                left.cut_height(start, left@.len() as int) + 1
            } else {
                right.cut_height(0, end - left@.len()) + 1
            },
            end <= left@.len() ==> self.cut_height(start, end) == left.cut_height(start, end),
            start >= left@.len() && end > left@.len() ==> self.cut_height(start, end)
                == right.cut_height(start - left@.len(), end - left@.len()),
    {
    }

    /// A flat rope that holds a clone of each element of `data` and no
    /// marker.
    pub fn new(data: &[T]) -> (rope: Self)
        requires
            obeys_key_model::<M>(),
        ensures
            rope.wf(),
            clone_of(data@, rope@),
            forall|m: M| rope.marks(m) == Seq::<int>::empty(),
            rope.height() == 0,
            rope.leaves() == 1,
    {
        let mut data_vec: Vec<T> = Vec::with_capacity(data.len());
        data_vec.extend_from_slice(data);
        Rope { root: Rc::new(Node::Flat { data: data_vec, markers: HashMap::new() }) }
    }

    /// A flat rope made of the chunk's elements and markers.
    pub fn from_chunk(chunk: Chunk<T, M>) -> (rope: Self)
        requires
            chunk.wf(),
        ensures
            rope.wf(),
            rope@ == chunk@,
            forall|m: M| rope.marks(m) == chunk.marks(m),
            rope.height() == 0,
            rope.leaves() == 1,
    {
        Rope { root: Rc::new(Node::Flat { data: chunk.data, markers: chunk.markers }) }
    }

    /// The number of elements.
    pub fn len(&self) -> (n: usize)
        requires
            self.wf(),
        ensures
            n == self@.len(),
    {
        self.root.len()
    }

    /// Whether the rope holds no element.
    pub fn is_empty(&self) -> (empty: bool)
        requires
            self.wf(),
        ensures
            empty <==> self@.len() == 0,
    {
        self.len() == 0
    }

    /// The depth of the tree: 0 for a flat rope.
    pub fn depth(&self) -> (d: usize)
        requires
            self.wf(),
        ensures
            d == self.height(),
    {
        self.root.depth()
    }

    /// How often each marker occurs. A marker that does not occur has no
    /// entry.
    pub fn marker_counts(&self) -> (counts: HashMap<M, usize>)
        requires
            self.wf(),
        ensures
            forall|m: M| #[trigger] counts@.contains_key(m) <==> self.marks(m).len() > 0,
            forall|m: M| #[trigger] counts@.contains_key(m) ==> counts@[m] == self.marks(m).len(),
    {
        self.root.marker_counts()
    }

    /// How often `marker` occurs.
    pub fn marker_count(&self, marker: M) -> (n: usize)
        requires
            self.wf(),
        ensures
            n == self.marks(marker).len(),
    {
        match self.marker_counts().get(&marker) {
            None => 0,
            Some(n) => *n,
        }
    }

    /// The rope of `left`'s elements followed by `right`'s. Both sources
    /// stay as they are and share their trees with the result.
    pub fn concat(left: &Self, right: &Self) -> (rope: Self)
        requires
            left.wf(),
            right.wf(),
            left@.len() + right@.len() <= usize::MAX,
            left.height() < usize::MAX,
            right.height() < usize::MAX,
        ensures
            rope.wf(),
            rope.is_node_over(left, right),
            rope.is_concat_of(left, right),
            rope.height() == if left.height() >= right.height() {
                left.height() + 1
            } else {
                right.height() + 1
            },
            rope.leaves() == left.leaves() + right.leaves(),
    {
        Rope { root: Node::concat(&left.root, &right.root) }
    }

    /// The rope of the elements at `[start, end)`; `start` is inclusive,
    /// `end` exclusive. An empty or reversed range, or one that reaches past
    /// the end, is refused.
    pub fn slice(&self, start: usize, end: usize) -> (result: Result<Self, RangeError>)
        requires
            self.wf(),
        ensures
            start < end <= self@.len() ==> result is Ok,
            !(start < end <= self@.len()) ==> result == Err::<Self, RangeError>(
                RangeError { start, end, len: self@.len() as usize },
            ),
            result matches Ok(cut) ==> {
                &&& cut.wf()
                &&& cut.is_slice_of(self, start as int, end as int)
                &&& cut.height() == self.cut_height(start as int, end as int)
                &&& cut.height() <= self.height()
            },
    {
        let len = self.len();
        if start >= end || end > len {
            return Err(RangeError { start, end, len });
        }
        Ok(Rope { root: self.root.slice(start, end) })
    }

    /// The element at position `index`; a position at or past the end is
    /// refused.
    pub fn index(&self, index: usize) -> (result: Result<&T, IndexError>)
        requires
            self.wf(),
        ensures
            index < self@.len() ==> result == Ok::<&T, IndexError>(&self@[index as int]),
            index >= self@.len() ==> result == Err::<&T, IndexError>(
                IndexError { index, len: self@.len() as usize },
            ),
    {
        let len = self.len();
        if index >= len {
            return Err(IndexError { index, len });
        }
        Ok(self.root.at(index))
    }

    /// The position of the occurrence of `marker` that has exactly `n`
    /// occurrences before it, or `None` where there are `n` or fewer
    /// occurrences in all.
    pub fn index_for_nth_marker(&self, marker: M, n: usize) -> (found: Option<usize>)
        requires
            self.wf(),
        ensures
            n < self.marks(marker).len() ==> found == Some(self.marks(marker)[n as int] as usize),
            n >= self.marks(marker).len() ==> found.is_none(),
    {
        self.root.index_for_nth_marker(marker, n)
    }

    /// A cursor over the elements, from first to last.
    pub fn iter(&self) -> (values: Values<'_, T, M>)
        requires
            self.wf(),
        ensures
            values.wf(),
            values.remaining() == self@,
    {
        Values::new(&self.root)
    }
}

} // verus!
