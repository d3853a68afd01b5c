//! The tree behind a rope: leaves that hold elements, and internal nodes
//! that join two subtrees and cache their length, depth and marker counts.

use vstd::prelude::*;
use std::collections::{BTreeSet, HashMap};
use std::hash::Hash;
use std::rc::Rc;
use vstd::std_specs::hash::obeys_key_model;
use crate::marks::{
    clone_of, count_in, increasing, lemma_increasing_len, lemma_window_add, lemma_window_members,
    lemma_window_none, lemma_window_same_end, lemma_window_same_start, lemma_window_shift, shift,
    window, within,
};
use crate::offsets::{leaf_marks, leaf_table_wf, lemma_offsets_sorted, nth_offset};
use crate::table::{merged, sliced_table, tally, totals};

verus! {

/// A node of the tree. Nodes are never changed once built; a subtree may
/// be held by any number of parents and ropes at once.
#[allow(inconsistent_fields)]
pub(crate) enum Node<T, M> {
    /// Two subtrees side by side, with what is known of them cached: the
    /// depth and length of the whole, the length of the left subtree, and
    /// for each marker that occurs how often it occurs on the left and in
    /// all.
    Concat {
        depth: usize,
        left_len: usize,
        markers: HashMap<M, (usize, usize)>,
        len: usize,
        left: Rc<Node<T, M>>,
        right: Rc<Node<T, M>>,
    },
    /// A run of elements, and for each marker that occurs the set of the
    /// offsets that carry it.
    Flat { data: Vec<T>, markers: HashMap<M, BTreeSet<usize>> },
}

impl<T: Clone, M: Eq + Hash + Copy> Node<T, M> {
    /// The elements under this node, left to right.
    pub(crate) open spec fn elems(&self) -> Seq<T>
        decreases self,
    {
        match self {
            Node::Concat { left, right, .. } => left.elems() + right.elems(),
            Node::Flat { data, .. } => data@,
        }
    }

    /// The positions under this node that carry `m`, in increasing order.
    pub(crate) open spec fn marks(&self, m: M) -> Seq<int>
        decreases self,
    {
        match self {
            Node::Concat { left, right, .. } => left.marks(m) + shift(
                right.marks(m),
                left.elems().len() as int,
            ),
            Node::Flat { markers, .. } => leaf_marks(markers@, m),
        }
    }

    /// The number of internal nodes on the longest path down to a leaf.
    pub(crate) open spec fn height(&self) -> nat
        decreases self,
    {
        match self {
            Node::Concat { left, right, .. } => if left.height() >= right.height() {
                left.height() + 1
            } else {
                right.height() + 1
            },
            Node::Flat { .. } => 0,
        }
    }

    /// The number of leaves under this node.
    pub(crate) open spec fn leaves(&self) -> nat
        decreases self,
    {
        match self {
            Node::Concat { left, right, .. } => left.leaves() + right.leaves(),
            Node::Flat { .. } => 1,
        }
    }

    /// The height of the tree that cutting out `[start, end)` builds: a
    /// node is built only where the range reaches across the split of an
    /// internal node; a range on one side of the split is cut out of that
    /// side alone, and a leaf is cut into a leaf.
    pub(crate) open spec fn cut_height(&self, start: int, end: int) -> nat
        decreases self,
    {
        match self {
            Node::Concat { left, right, .. } => {
                let split = left.elems().len() as int;
                if start < split && end > split {
                    let left_cut = left.cut_height(start, split);
                    let right_cut = right.cut_height(0, end - split);
                    if left_cut >= right_cut {
                        left_cut + 1
                    } else {
                        right_cut + 1
                    }
                } else if end <= split {
                    left.cut_height(start, end)
                } else {
                    right.cut_height(start - split, end - split)
                }
            },
            Node::Flat { .. } => 0,
        }
    }

    /// Every cached field agrees with the subtree it summarises, and every
    /// leaf's marker table is valid.
    pub(crate) open spec fn wf(&self) -> bool
        decreases self,
    {
        match self {
            Node::Concat { depth, left_len, markers, len, left, right } => {
                &&& obeys_key_model::<M>()
                &&& left.wf()
                &&& right.wf()
                &&& left_len == left.elems().len()
                &&& len == left.elems().len() + right.elems().len()
                &&& depth == self.height()
                &&& forall|m: M| #[trigger]
                    markers@.contains_key(m) <==> left.marks(m).len() + right.marks(m).len() > 0
                &&& forall|m: M| #[trigger]
                    markers@.contains_key(m) ==> markers@[m].0 == left.marks(m).len()
                        && markers@[m].1 == left.marks(m).len() + right.marks(m).len()
            },
            Node::Flat { data, markers } => {
                &&& obeys_key_model::<M>()
                &&& leaf_table_wf(markers@, data@.len())
            },
        }
    }

    /// The marked positions of a valid node are strictly increasing and
    /// address elements of the node.
    pub(crate) proof fn lemma_marks_sorted(&self, m: M)
        requires
            self.wf(),
        ensures
            increasing(self.marks(m)),
            within(self.marks(m), 0, self.elems().len() as int),
            self.marks(m).len() <= self.elems().len(),
        decreases self,
    {
        match self {
            Node::Concat { left, right, .. } => {
                left.lemma_marks_sorted(m);
                right.lemma_marks_sorted(m);
                let l = left.marks(m);
                let r = shift(right.marks(m), left.elems().len() as int);
                let all = self.marks(m);
                assert forall|i: int, j: int| 0 <= i < j < all.len() implies all[i] < all[j] by {
                    if j < l.len() {
                        assert(all[i] == l[i] && all[j] == l[j]);
                    } else if i < l.len() {
                        assert(all[i] == l[i] && all[j] == r[j - l.len()]);
                    } else {
                        assert(all[i] == r[i - l.len()] && all[j] == r[j - l.len()]);
                    }
                }
                assert forall|i: int| 0 <= i < all.len() implies 0 <= #[trigger] all[i]
                    < self.elems().len() by {
                    if i < l.len() {
                        assert(all[i] == l[i]);
                    } else {
                        assert(all[i] == r[i - l.len()]);
                    }
                }
            },
            Node::Flat { markers, .. } => {
                if markers@.contains_key(m) {
                    lemma_offsets_sorted(&markers@[m]);
                }
            },
        }
        lemma_increasing_len(self.marks(m), 0, self.elems().len() as int);
    }

    pub(crate) fn depth(&self) -> (d: usize)
        requires
            self.wf(),
        ensures
            d == self.height(),
    {
        match self {
            Node::Concat { depth, .. } => *depth,
            Node::Flat { .. } => 0,
        }
    }

    pub(crate) fn len(&self) -> (n: usize)
        requires
            self.wf(),
        ensures
            n == self.elems().len(),
    {
        match self {
            Node::Concat { len, .. } => *len,
            Node::Flat { data, .. } => data.len(),
        }
    }

    /// The element at `index`, found by descending along the cached left
    /// lengths.
    pub(crate) fn at(&self, index: usize) -> (element: &T)
        requires
            self.wf(),
            index < self.elems().len(),
        ensures
            *element == self.elems()[index as int],
        decreases self,
    {
        match self {
            Node::Flat { data, .. } => &data[index],
            Node::Concat { left_len, left, right, .. } => {
                if index < *left_len {
                    left.at(index)
                } else {
                    right.at(index - *left_len)
                }
            },
        }
    }

    /// The position of the occurrence of `marker` that has `n` occurrences
    /// before it, found by descending along the cached counts.
    pub(crate) fn index_for_nth_marker(&self, marker: M, n: usize) -> (found: Option<usize>)
        requires
            self.wf(),
        ensures
            n < self.marks(marker).len() ==> found == Some(self.marks(marker)[n as int] as usize),
            n >= self.marks(marker).len() ==> found.is_none(),
            found matches Some(p) ==> p < self.elems().len(),
        decreases self,
    {
        proof {
            self.lemma_marks_sorted(marker);
        }
        match self {
            Node::Flat { markers, .. } => {
                match markers.get(&marker) {
                    None => None,
                    Some(offsets) => nth_offset(offsets, n),
                }
            },
            Node::Concat { markers, left, right, left_len, .. } => {
                match markers.get(&marker) {
                    None => None,
                    Some(counts) => {
                        if n < counts.0 {
                            left.index_for_nth_marker(marker, n)
                        } else if n < counts.1 {
                            proof {
                                right.lemma_marks_sorted(marker);
                            }
                            match right.index_for_nth_marker(marker, n - counts.0) {
                                Some(i) => Some(*left_len + i),
                                None => None,
                            }
                        } else {
                            None
                        }
                    },
                }
            },
        }
    }

    /// How often each marker occurs under this node. A marker that does not
    /// occur has no entry.
    pub(crate) fn marker_counts(&self) -> (counts: HashMap<M, usize>)
        requires
            self.wf(),
        ensures
            forall|m: M| #[trigger] counts@.contains_key(m) <==> self.marks(m).len() > 0,
            forall|m: M| #[trigger] counts@.contains_key(m) ==> counts@[m] == self.marks(m).len(),
    {
        match self {
            Node::Concat { markers, .. } => totals(markers),
            Node::Flat { markers, .. } => tally(markers),
        }
    }

    /// A new internal node over the two given subtrees, which it shares
    /// with whoever else holds them.
    pub(crate) fn concat(left: &Rc<Self>, right: &Rc<Self>) -> (node: Rc<Self>)
        requires
            left.wf(),
            right.wf(),
            left.elems().len() + right.elems().len() <= usize::MAX,
            left.height() < usize::MAX,
            right.height() < usize::MAX,
        ensures
            node.wf(),
            (*node) is Concat,
            (*node)->left == *left,
            (*node)->right == *right,
            node.elems() == left.elems() + right.elems(),
            forall|m: M| #[trigger]
                node.marks(m) == left.marks(m) + shift(right.marks(m), left.elems().len() as int),
            node.height() == if left.height() >= right.height() {
                left.height() + 1
            } else {
                right.height() + 1
            },
            node.leaves() == left.leaves() + right.leaves(),
    {
        let left_counts = left.marker_counts();
        let right_counts = right.marker_counts();
        proof {
            assert forall|m: M|
                count_in(left_counts@, m) == left.marks(m).len() && count_in(right_counts@, m)
                    == right.marks(m).len() && count_in(left_counts@, m) + count_in(
                    right_counts@,
                    m,
                ) <= usize::MAX by {
                left.lemma_marks_sorted(m);
                right.lemma_marks_sorted(m);
            }
        }
        let counts = merged(&left_counts, &right_counts);
        let left_depth = left.depth();
        let right_depth = right.depth();
        let depth = if left_depth >= right_depth {
            left_depth + 1
        } else {
            right_depth + 1
        };
        let node = Node::Concat {
            depth,
            left_len: left.len(),
            markers: counts,
            len: left.len() + right.len(),
            left: left.clone(),
            right: right.clone(),
        };
        proof {
            assert forall|m: M| #[trigger]
                counts@.contains_key(m) <==> left.marks(m).len() + right.marks(m).len() > 0 by {
                assert(count_in(left_counts@, m) == left.marks(m).len());
                assert(count_in(right_counts@, m) == right.marks(m).len());
            }
            assert forall|m: M| #[trigger] counts@.contains_key(m) implies counts@[m].0
                == left.marks(m).len() && counts@[m].1 == left.marks(m).len() + right.marks(
                m,
            ).len() by {
                assert(count_in(left_counts@, m) == left.marks(m).len());
                assert(count_in(right_counts@, m) == right.marks(m).len());
            }
            assert(node.wf());
        }
        Rc::new(node)
    }

    /// A new tree that holds clones of the elements at `[start, end)`, with
    /// the markers of that range re-expressed relative to `start`.
    pub(crate) fn slice(&self, start: usize, end: usize) -> (cut: Rc<Self>)
        requires
            self.wf(),
            start < end <= self.elems().len(),
        ensures
            cut.wf(),
            clone_of(self.elems().subrange(start as int, end as int), cut.elems()),
            forall|m: M| #[trigger] cut.marks(m) == window(self.marks(m), start as int, end as int),
            cut.height() == self.cut_height(start as int, end as int),
            cut.height() <= self.height(),
        decreases self,
    {
        match self {
            Node::Flat { data, markers } => {
                let mut copied: Vec<T> = Vec::with_capacity(end - start);
                copied.extend_from_slice(&data[start..end]);
                let kept = sliced_table(markers, start, end);
                proof {
                    assert forall|m: M| #[trigger] kept@.contains_key(m) implies within(
                        leaf_marks(kept@, m),
                        0,
                        copied@.len() as int,
                    ) by {
                        lemma_window_members(leaf_marks(markers@, m), start as int, end as int);
                    }
                }
                Rc::new(Node::Flat { data: copied, markers: kept })
            },
            Node::Concat { left_len, left, right, .. } => {
                let split = *left_len;
                if start < split && end > split {
                    let left_cut = left.slice(start, split);
                    let right_cut = right.slice(0, end - split);
                    let joined = Self::concat(&left_cut, &right_cut);
                    proof {
                        assert(clone_of(
                            self.elems().subrange(start as int, end as int),
                            joined.elems(),
                        )) by {
                            let want = self.elems().subrange(start as int, end as int);
                            let got = joined.elems();
                            assert forall|i: int| 0 <= i < want.len() implies cloned::<T>(
                                #[trigger] want[i],
                                got[i],
                            ) by {
                                if i < split - start {
                                    assert(want[i] == left.elems().subrange(
                                        start as int,
                                        split as int,
                                    )[i]);
                                    assert(got[i] == left_cut.elems()[i]);
                                } else {
                                    assert(want[i] == right.elems().subrange(
                                        0,
                                        end - split,
                                    )[i - (split - start)]);
                                    assert(got[i] == right_cut.elems()[i - (split - start)]);
                                }
                            }
                        }
                        assert forall|m: M| #[trigger]
                            joined.marks(m) == window(self.marks(m), start as int, end as int) by {
                            self.lemma_straddle(m, start as int, end as int);
                        }
                    }
                    joined
                } else if start < split {
                    let cut = left.slice(start, end);
                    proof {
                        assert(self.elems().subrange(start as int, end as int)
                            =~= left.elems().subrange(start as int, end as int));
                        assert forall|m: M| #[trigger]
                            cut.marks(m) == window(self.marks(m), start as int, end as int) by {
                            self.lemma_left_only(m, start as int, end as int);
                        }
                    }
                    cut
                } else {
                    let cut = right.slice(start - split, end - split);
                    proof {
                        assert(self.elems().subrange(start as int, end as int)
                            =~= right.elems().subrange(start - split, end - split));
                        assert forall|m: M| #[trigger]
                            cut.marks(m) == window(self.marks(m), start as int, end as int) by {
                            self.lemma_right_only(m, start as int, end as int);
                        }
                    }
                    cut
                }
            },
        }
    }

    /// The window of an internal node over a range that crosses the split
    /// is made of the window of the left child up to the split and the
    /// window of the right child from the split on.
    proof fn lemma_straddle(&self, m: M, start: int, end: int)
        requires
            self.wf(),
            self is Concat,
            0 <= start < self->left.elems().len() < end,
        ensures
            window(self.marks(m), start, end) == window(
                self->left.marks(m),
                start,
                self->left.elems().len() as int,
            ) + shift(
                window(self->right.marks(m), 0, end - self->left.elems().len()),
                self->left.elems().len() - start,
            ),
    {
        let left = self->left;
        let right = self->right;
        let split = left.elems().len() as int;
        let l = left.marks(m);
        let r = right.marks(m);
        left.lemma_marks_sorted(m);
        right.lemma_marks_sorted(m);
        lemma_window_add(l, shift(r, split), start, end);
        lemma_window_same_end(l, start, end, split);
        lemma_window_shift(r, split, start, end);
        lemma_window_same_start(r, start - split, 0, end - split);
    }

    /// The window of an internal node over a range left of the split is the
    /// window of the left child.
    proof fn lemma_left_only(&self, m: M, start: int, end: int)
        requires
            self.wf(),
            self is Concat,
            0 <= start,
            end <= self->left.elems().len(),
        ensures
            window(self.marks(m), start, end) == window(self->left.marks(m), start, end),
    {
        let left = self->left;
        let right = self->right;
        let split = left.elems().len() as int;
        let l = left.marks(m);
        let r = right.marks(m);
        right.lemma_marks_sorted(m);
        lemma_window_add(l, shift(r, split), start, end);
        lemma_window_none(shift(r, split), start, end);
        assert(window(l, start, end) + Seq::<int>::empty() =~= window(l, start, end));
    }

    /// The window of an internal node over a range right of the split is
    /// the window of the right child over the range moved back by the
    /// length of the left child.
    proof fn lemma_right_only(&self, m: M, start: int, end: int)
        requires
            self.wf(),
            self is Concat,
            self->left.elems().len() <= start,
        ensures
            window(self.marks(m), start, end) == window(
                self->right.marks(m),
                start - self->left.elems().len(),
                end - self->left.elems().len(),
            ),
    {
        let left = self->left;
        let right = self->right;
        let split = left.elems().len() as int;
        let l = left.marks(m);
        let r = right.marks(m);
        left.lemma_marks_sorted(m);
        lemma_window_add(l, shift(r, split), start, end);
        lemma_window_none(l, start, end);
        lemma_window_shift(r, split, start, end);
        assert(Seq::<int>::empty() + window(r, start - split, end - split) =~= window(
            r,
            start - split,
            end - split,
        ));
    }
}

} // verus!
