//! Bulk loading: assembling a balanced rope from a stream of chunks by
//! merging pending ropes of equal depth.

use vstd::prelude::*;
use std::hash::Hash;
use vstd::arithmetic::power2::{lemma_pow2_strictly_increases, lemma_pow2_unfold, pow2};
use crate::chunk::Chunk;
use crate::error::LoadError;
use crate::marks::shift;
use crate::rope::Rope;

verus! {

/// The elements of the chunks, first chunk first.
pub open spec fn data_of<T: Clone, M: Eq + Hash + Copy>(chunks: Seq<Chunk<T, M>>) -> Seq<T>
    decreases chunks.len(),
{
    if chunks.len() == 0 {
        Seq::empty()
    } else {
        data_of(chunks.drop_last()) + chunks.last()@
    }
}

/// The positions tagged `m` in the chunks laid end to end: each chunk's
/// offsets moved behind the elements of the chunks before it.
pub open spec fn marks_of<T: Clone, M: Eq + Hash + Copy>(chunks: Seq<Chunk<T, M>>, m: M) -> Seq<
    int,
>
    decreases chunks.len(),
{
    if chunks.len() == 0 {
        Seq::empty()
    } else {
        marks_of(chunks.drop_last(), m) + shift(
            chunks.last().marks(m),
            data_of(chunks.drop_last()).len() as int,
        )
    }
}

/// Each of the chunks is one that a call of `source` may yield.
pub open spec fn yielded_by<T: Clone, M: Eq + Hash + Copy, E, F: FnMut() -> Result<
    Option<Chunk<T, M>>,
    E,
>>(source: F, chunks: Seq<Chunk<T, M>>) -> bool {
    forall|i: int|
        0 <= i < chunks.len() ==> call_ensures(
            source,
            (),
            Ok::<Option<Chunk<T, M>>, E>(Some(#[trigger] chunks[i])),
        )
}

/// The elements of the ropes of `pending`, first rope first.
pub(crate) open spec fn joined<T: Clone, M: Eq + Hash + Copy>(pending: Seq<Rope<T, M>>) -> Seq<T>
    decreases pending.len(),
{
    if pending.len() == 0 {
        Seq::empty()
    } else {
        joined(pending.drop_last()) + pending.last()@
    }
}

/// The positions tagged `m` in the ropes of `pending` laid end to end.
pub(crate) open spec fn joined_marks<T: Clone, M: Eq + Hash + Copy>(
    pending: Seq<Rope<T, M>>,
    m: M,
) -> Seq<int>
    decreases pending.len(),
{
    if pending.len() == 0 {
        Seq::empty()
    } else {
        joined_marks(pending.drop_last(), m) + shift(
            pending.last().marks(m),
            joined(pending.drop_last()).len() as int,
        )
    }
}

/// The number of leaves in all the ropes of `pending`.
pub(crate) open spec fn joined_leaves<T: Clone, M: Eq + Hash + Copy>(
    pending: Seq<Rope<T, M>>,
) -> nat
    decreases pending.len(),
{
    if pending.len() == 0 {
        0
    } else {
        joined_leaves(pending.drop_last()) + pending.last().leaves()
    }
}

/// Every pending rope is valid and perfectly balanced: a rope of depth `d`
/// holds `2^d` leaves.
pub(crate) open spec fn all_perfect<T: Clone, M: Eq + Hash + Copy>(
    pending: Seq<Rope<T, M>>,
) -> bool {
    forall|i: int|
        0 <= i < pending.len() ==> (#[trigger] pending[i]).wf() && pending[i].leaves() == pow2(
            pending[i].height(),
        )
}

/// The depths fall strictly from the first of the first `n` ropes to the
/// last of them.
pub(crate) open spec fn falling<T: Clone, M: Eq + Hash + Copy>(
    pending: Seq<Rope<T, M>>,
    n: int,
) -> bool {
    forall|i: int, j: int|
        0 <= i < j < n && j < pending.len() ==> (#[trigger] pending[i]).height() > (
        #[trigger] pending[j]).height()
}

/// `depth` is the least depth of a binary tree with `leaves` leaves.
pub open spec fn least_depth(depth: nat, leaves: nat) -> bool {
    &&& pow2(depth) >= leaves
    &&& depth > 0 ==> pow2((depth - 1) as nat) < leaves
}

/// A power of two exceeds its exponent.
proof fn lemma_pow2_above(e: nat)
    ensures
        pow2(e) > e,
    decreases e,
{
    if e > 0 {
        lemma_pow2_above((e - 1) as nat);
        lemma_pow2_unfold(e);
    } else {
        assert(pow2(0) == 1) by {
            vstd::arithmetic::power2::lemma2_to64();
        }
    }
}

/// No pending rope holds more elements or leaves than all of them together.
proof fn lemma_joined_bounds<T: Clone, M: Eq + Hash + Copy>(pending: Seq<Rope<T, M>>, i: int)
    requires
        0 <= i < pending.len(),
    ensures
        pending[i]@.len() <= joined(pending).len(),
        pending[i].leaves() <= joined_leaves(pending),
        i + 1 < pending.len() ==> pending[i]@.len() + pending[i + 1]@.len() <= joined(
            pending,
        ).len(),
    decreases pending.len(),
{
    let front = pending.drop_last();
    if i < pending.len() - 1 {
        lemma_joined_bounds(front, i);
        assert(front[i] == pending[i]);
        if i + 1 == pending.len() - 1 {
            assert(joined(front).len() >= front[i]@.len());
        } else {
            assert(front[i + 1] == pending[i + 1]);
        }
    }
}

/// Pending ropes that are perfect and fall in depth hold fewer than twice
/// the leaves of the first: the first rope's depth bounds the total from
/// above as it does from below.
proof fn lemma_falling_sum<T: Clone, M: Eq + Hash + Copy>(pending: Seq<Rope<T, M>>)
    requires
        pending.len() > 0,
        all_perfect(pending),
        falling(pending, pending.len() as int),
    ensures
        joined_leaves(pending) + pow2(pending.last().height()) <= 2 * pow2(pending[0].height()),
        joined_leaves(pending) >= pow2(pending[0].height()),
        pending.len() > 1 ==> joined_leaves(pending) > pow2(pending[0].height()),
    decreases pending.len(),
{
    let front = pending.drop_last();
    let last = pending.last();
    if pending.len() == 1 {
        assert(joined_leaves(front) == 0);
    } else {
        assert(all_perfect(front)) by {
            assert forall|i: int| 0 <= i < front.len() implies (#[trigger] front[i]).wf()
                && front[i].leaves() == pow2(front[i].height()) by {
                assert(front[i] == pending[i]);
            }
        }
        assert(falling(front, front.len() as int)) by {
            assert forall|i: int, j: int| 0 <= i < j < front.len() implies (
            #[trigger] front[i]).height() > (#[trigger] front[j]).height() by {
                assert(front[i] == pending[i] && front[j] == pending[j]);
            }
        }
        lemma_falling_sum(front);
        assert(front[0] == pending[0]);
        let above = front.last();
        assert(above == pending[pending.len() - 2]);
        assert(above.height() > last.height());
        lemma_pow2_unfold(last.height() + 1);
        if last.height() + 1 < above.height() {
            lemma_pow2_strictly_increases(last.height() + 1, above.height());
        }
        assert(2 * pow2(last.height()) <= pow2(above.height()));
        vstd::arithmetic::power2::lemma_pow2_pos(last.height());
    }
}

/// Replacing the last two pending ropes by their concatenation changes
/// neither the elements, nor the marks, nor the number of leaves.
proof fn lemma_merge_top<T: Clone, M: Eq + Hash + Copy>(
    pending: Seq<Rope<T, M>>,
    merged: Rope<T, M>,
)
    requires
        pending.len() >= 2,
        merged.is_concat_of(&pending[pending.len() - 2], &pending[pending.len() - 1]),
        merged.leaves() == pending[pending.len() - 2].leaves() + pending[pending.len()
            - 1].leaves(),
    ensures
        joined(pending.subrange(0, pending.len() - 2).push(merged)) == joined(pending),
        forall|m: M|
            joined_marks(pending.subrange(0, pending.len() - 2).push(merged), m)
                == #[trigger] joined_marks(pending, m),
        joined_leaves(pending.subrange(0, pending.len() - 2).push(merged)) == joined_leaves(
            pending,
        ),
{
    let n = pending.len() as int;
    let base = pending.subrange(0, n - 2);
    let after = base.push(merged);
    let front = pending.drop_last();
    let a = pending[n - 2];
    let b = pending[n - 1];
    assert(after.drop_last() =~= base);
    assert(front.drop_last() =~= base);
    assert(front.last() == a);
    assert(after.last() == merged);
    assert(joined(front) == joined(base) + a@);
    assert(joined(pending) == joined(front) + b@);
    assert(joined(after) == joined(base) + merged@);
    assert((joined(base) + a@) + b@ =~= joined(base) + (a@ + b@));
    assert(joined(after) =~= joined(pending));
    assert(joined_leaves(front) == joined_leaves(base) + a.leaves());
    assert(joined_leaves(after) == joined_leaves(base) + merged.leaves());
    assert forall|m: M| joined_marks(after, m) == #[trigger] joined_marks(pending, m) by {
        let low = joined(base).len() as int;
        assert(joined_marks(front, m) == joined_marks(base, m) + shift(a.marks(m), low));
        assert(joined_marks(pending, m) == joined_marks(front, m) + shift(
            b.marks(m),
            joined(front).len() as int,
        ));
        assert(joined_marks(after, m) == joined_marks(base, m) + shift(merged.marks(m), low));
        assert(merged.marks(m) == a.marks(m) + shift(b.marks(m), a@.len() as int));
        assert(joined_marks(after, m) =~= joined_marks(pending, m));
    }
}

/// The pending ropes of a bulk load: what has been accepted so far, merged
/// as far as the rule of equal depths allows.
pub struct BulkLoader<T, M> {
    pub(crate) pending: Vec<Rope<T, M>>,
    pub(crate) total: usize,
    pub(crate) count: usize,
}

impl<T: Clone, M: Eq + Hash + Copy> BulkLoader<T, M> {
    /// The elements of the chunks accepted so far, in the order of
    /// acceptance.
    pub open(crate) spec fn view(&self) -> Seq<T> {
        joined(self.pending@)
    }

    /// The positions tagged `m` in the chunks accepted so far, laid end to
    /// end.
    pub open(crate) spec fn marks(&self, m: M) -> Seq<int> {
        joined_marks(self.pending@, m)
    }

    /// The number of chunks accepted so far.
    pub open(crate) spec fn chunks(&self) -> nat {
        joined_leaves(self.pending@)
    }

    /// The loader is valid: its pending ropes are valid and perfectly
    /// balanced, and their depths fall strictly from the oldest to the
    /// newest.
    pub open(crate) spec fn wf(&self) -> bool {
        &&& all_perfect(self.pending@)
        &&& falling(self.pending@, self.pending@.len() as int)
        &&& self.total == joined(self.pending@).len()
        &&& self.count == joined_leaves(self.pending@)
    }

    /// `self` is what `before` becomes by accepting `chunk`: the chunk's
    /// elements and marks stand behind those that `before` holds.
    pub open spec fn holds_after(&self, before: &Self, chunk: &Chunk<T, M>) -> bool {
        &&& self@ == before@ + chunk@
        &&& forall|m: M| #[trigger]
            self.marks(m) == before.marks(m) + shift(chunk.marks(m), before@.len() as int)
        &&& self.chunks() == before.chunks() + 1
    }

    /// A loader that has accepted nothing.
    pub fn new() -> (loader: Self)
        ensures
            loader.wf(),
            loader@ == Seq::<T>::empty(),
            forall|m: M| loader.marks(m) == Seq::<int>::empty(),
            loader.chunks() == 0,
    {
        BulkLoader { pending: Vec::new(), total: 0, count: 0 }
    }

    /// Takes the next chunk: makes it a flat rope, puts it behind the
    /// pending ropes, and merges the last two pending ropes for as long as
    /// they have the same depth. A chunk that would take the number of
    /// elements or of chunks beyond `usize::MAX` is not taken.
    pub fn accept(&mut self, chunk: Chunk<T, M>) -> (accepted: bool)
        requires
            old(self).wf(),
            chunk.wf(),
        ensures
            final(self).wf(),
            accepted <==> old(self)@.len() + chunk@.len() <= usize::MAX && old(self).chunks()
                < usize::MAX,
            accepted ==> final(self).holds_after(old(self), &chunk),
            !accepted ==> {
                &&& final(self)@ == old(self)@
                &&& forall|m: M| final(self).marks(m) == old(self).marks(m)
                &&& final(self).chunks() == old(self).chunks()
            },
    {
        let size = chunk.len();
        if size > usize::MAX - self.total || self.count == usize::MAX {
            return false;
        }
        self.total = self.total + size;
        self.count = self.count + 1;
        let ghost before = self.pending@;
        let leaf = Rope::from_chunk(chunk);
        self.pending.push(leaf);
        let ghost pushed = self.pending@;
        proof {
            assert(pushed.drop_last() =~= before);
            assert(pow2(0) == 1) by {
                vstd::arithmetic::power2::lemma2_to64();
            }
            assert(all_perfect(pushed)) by {
                assert forall|i: int| 0 <= i < pushed.len() implies (#[trigger] pushed[i]).wf()
                    && pushed[i].leaves() == pow2(pushed[i].height()) by {
                    if i < before.len() {
                        assert(pushed[i] == before[i]);
                    }
                }
            }
            assert(falling(pushed, pushed.len() - 1)) by {
                assert forall|i: int, j: int| 0 <= i < j < pushed.len() - 1 implies (
                #[trigger] pushed[i]).height() > (#[trigger] pushed[j]).height() by {
                    assert(pushed[i] == before[i] && pushed[j] == before[j]);
                }
            }
        }
        while self.pending.len() > 1 && self.pending[self.pending.len() - 1].depth()
            == self.pending[self.pending.len() - 2].depth()
            invariant
                self.pending@.len() >= 1,
                all_perfect(self.pending@),
                falling(self.pending@, self.pending@.len() - 1),
                self.pending@.len() >= 2 ==> self.pending@[self.pending@.len() - 2].height()
                    >= self.pending@[self.pending@.len() - 1].height(),
                joined(self.pending@) == joined(pushed),
                forall|m: M| joined_marks(self.pending@, m) == #[trigger] joined_marks(pushed, m),
                joined_leaves(self.pending@) == joined_leaves(pushed),
                self.total == joined(pushed).len(),
                self.count == joined_leaves(pushed),
            ensures
                falling(self.pending@, self.pending@.len() as int),
            decreases self.pending@.len(),
        {
            let ghost stacked = self.pending@;
            let ghost n = stacked.len() as int;
            proof {
                lemma_joined_bounds(stacked, n - 2);
                lemma_joined_bounds(stacked, n - 1);
                lemma_pow2_above(stacked[n - 2].height());
                lemma_pow2_above(stacked[n - 1].height());
            }
            let right = self.pending.pop().unwrap();
            let left = self.pending.pop().unwrap();
            let merged = Rope::concat(&left, &right);
            self.pending.push(merged);
            proof {
                let now = self.pending@;
                assert(left == stacked[n - 2] && right == stacked[n - 1]);
                assert(now =~= stacked.subrange(0, n - 2).push(merged));
                lemma_merge_top(stacked, merged);
                lemma_pow2_unfold(merged.height());
                assert(all_perfect(now)) by {
                    assert forall|i: int| 0 <= i < now.len() implies (#[trigger] now[i]).wf()
                        && now[i].leaves() == pow2(now[i].height()) by {
                        if i < n - 2 {
                            assert(now[i] == stacked[i]);
                        }
                    }
                }
                assert(falling(now, now.len() - 1)) by {
                    assert forall|i: int, j: int| 0 <= i < j < now.len() - 1 implies (
                    #[trigger] now[i]).height() > (#[trigger] now[j]).height() by {
                        assert(now[i] == stacked[i] && now[j] == stacked[j]);
                    }
                }
                if now.len() >= 2 {
                    assert(now[now.len() - 2] == stacked[n - 3]);
                    assert(stacked[n - 3].height() > stacked[n - 2].height());
                }
            }
        }
        proof {
            assert(joined(pushed) =~= old(self)@ + chunk@);
            assert forall|m: M| #[trigger]
                self.marks(m) == old(self).marks(m) + shift(
                    chunk.marks(m),
                    old(self)@.len() as int,
                ) by {
                assert(joined_marks(self.pending@, m) == joined_marks(pushed, m));
            }
        }
        true
    }

    /// Joins the pending ropes from the newest to the oldest into one rope.
    /// Without a single accepted chunk there is nothing to join.
    pub fn finish(self) -> (rope: Option<Rope<T, M>>)
        requires
            self.wf(),
        ensures
            rope is None <==> self.chunks() == 0,
            rope matches Some(r) ==> {
                &&& r.wf()
                &&& r@ == self@
                &&& forall|m: M| #[trigger] r.marks(m) == self.marks(m)
                &&& r.leaves() == self.chunks()
                &&& least_depth(r.height(), self.chunks())
            },
    {
        let ghost all = self.pending@;
        let ghost n = all.len() as int;
        let mut pending = self.pending;
        match pending.pop() {
            None => None,
            Some(top) => {
                let mut rope = top;
                proof {
                    assert(pending@ =~= all.drop_last());
                    assert forall|m: M|
                        joined_marks(pending@, m) + shift(
                            rope.marks(m),
                            joined(pending@).len() as int,
                        ) == #[trigger] joined_marks(all, m) by {}
                }
                while pending.len() > 0
                    invariant
                        n == all.len(),
                        pending@.len() < n,
                        pending@ == all.subrange(0, pending@.len() as int),
                        all_perfect(all),
                        falling(all, n),
                        joined(all).len() <= usize::MAX,
                        joined_leaves(all) <= usize::MAX,
                        rope.wf(),
                        joined(pending@) + rope@ == joined(all),
                        forall|m: M|
                            joined_marks(pending@, m) + shift(
                                rope.marks(m),
                                joined(pending@).len() as int,
                            ) == #[trigger] joined_marks(all, m),
                        joined_leaves(pending@) + rope.leaves() == joined_leaves(all),
                        rope.height() == if pending@.len() == n - 1 {
                            all[n - 1].height()
                        } else {
                            all[pending@.len() as int].height() + 1
                        },
                    decreases pending@.len(),
                {
                    let ghost held = pending@;
                    let ghost k = held.len() as int;
                    proof {
                        assert(held[k - 1] == all[k - 1]);
                        lemma_joined_bounds(all, k - 1);
                        lemma_pow2_above(all[k - 1].height());
                        if k < n - 1 {
                            assert(all[k - 1].height() > all[k].height());
                        } else {
                            assert(all[k - 1].height() > all[n - 1].height());
                        }
                    }
                    let left = pending.pop().unwrap();
                    let ghost inner = rope;
                    rope = Rope::concat(&left, &rope);
                    proof {
                        let rest = pending@;
                        assert(rest =~= held.drop_last());
                        assert(rest =~= all.subrange(0, k - 1));
                        assert(joined(held) == joined(rest) + left@);
                        assert(joined(rest) + rope@ =~= joined(held) + inner@);
                        assert forall|m: M|
                            joined_marks(rest, m) + shift(rope.marks(m), joined(rest).len() as int)
                                == #[trigger] joined_marks(all, m) by {
                            let low = joined(rest).len() as int;
                            assert(joined_marks(held, m) == joined_marks(rest, m) + shift(
                                left.marks(m),
                                low,
                            ));
                            assert(rope.marks(m) == left.marks(m) + shift(
                                inner.marks(m),
                                left@.len() as int,
                            ));
                            assert(joined_marks(rest, m) + shift(rope.marks(m), low)
                                =~= joined_marks(held, m) + shift(
                                inner.marks(m),
                                joined(held).len() as int,
                            ));
                        }
                    }
                }
                proof {
                    assert(pending@ =~= Seq::<Rope<T, M>>::empty());
                    assert(joined(pending@) + rope@ =~= rope@);
                    assert forall|m: M| #[trigger] rope.marks(m) == self.marks(m) by {
                        assert(joined_marks(pending@, m) + shift(
                            rope.marks(m),
                            joined(pending@).len() as int,
                        ) == joined_marks(all, m));
                        assert(shift(rope.marks(m), 0) =~= rope.marks(m));
                        assert(Seq::<int>::empty() + rope.marks(m) =~= rope.marks(m));
                    }
                    lemma_falling_sum(all);
                    let low = all[0].height();
                    if n == 1 {
                        if low > 0 {
                            lemma_pow2_strictly_increases((low - 1) as nat, low);
                        }
                    } else {
                        lemma_pow2_unfold(low + 1);
                        vstd::arithmetic::power2::lemma_pow2_pos(all[n - 1].height());
                    }
                }
                Some(rope)
            },
        }
    }
}

impl<T: Clone, M: Eq + Hash + Copy> Rope<T, M> {
    /// Builds one balanced rope from the chunks that `source` yields.
    ///
    /// `source` is called until it yields `Ok(None)`, which ends the input,
    /// or `Err`, which ends the load with that error. A rope is returned
    /// only once the source has given the end signal, never for a part of
    /// the input. Each chunk becomes a leaf; the rope holds the chunks'
    /// elements in the order in which they were yielded, and is as shallow
    /// as a binary tree over that many leaves can be.
    pub fn from_chunks<F, E>(source: F) -> (result: Result<Self, LoadError<E>>) where
        F: FnMut() -> Result<Option<Chunk<T, M>>, E>,

        requires
            call_requires(source, ()),
            forall|r: Result<Option<Chunk<T, M>>, E>|
                call_ensures(source, (), r) ==> (r matches Ok(Some(c)) ==> c.wf()),
        ensures
            match result {
                Ok(rope) => rope.wf() && call_ensures(
                    source,
                    (),
                    Ok::<Option<Chunk<T, M>>, E>(None),
                ) && exists|chunks: Seq<Chunk<T, M>>|
                    {
                        &&& chunks.len() > 0
                        &&& #[trigger] yielded_by(source, chunks)
                        &&& rope@ == data_of(chunks)
                        &&& forall|m: M| #[trigger] rope.marks(m) == marks_of(chunks, m)
                        &&& rope.leaves() == chunks.len()
                        &&& least_depth(rope.height(), chunks.len())
                    },
                Err(LoadError::Source(e)) => call_ensures(
                    source,
                    (),
                    Err::<Option<Chunk<T, M>>, E>(e),
                ),
                Err(LoadError::NoChunks) => call_ensures(
                    source,
                    (),
                    Ok::<Option<Chunk<T, M>>, E>(None),
                ),
                Err(LoadError::TooLarge) => exists|chunks: Seq<Chunk<T, M>>|
                    {
                        &&& #[trigger] yielded_by(source, chunks)
                        &&& (data_of(chunks).len() > usize::MAX || chunks.len() > usize::MAX)
                    },
            },
    {
        let mut loader: BulkLoader<T, M> = BulkLoader::new();
        let ghost mut taken: Seq<Chunk<T, M>> = Seq::empty();
        let mut next_chunk = source;
        loop
            invariant
                next_chunk == source,
                call_requires(source, ()),
                forall|r: Result<Option<Chunk<T, M>>, E>|
                    call_ensures(source, (), r) ==> (r matches Ok(Some(c)) ==> c.wf()),
                loader.wf(),
                yielded_by(source, taken),
                loader@ == data_of(taken),
                forall|m: M| #[trigger] loader.marks(m) == marks_of(taken, m),
                loader.chunks() == taken.len(),
                taken.len() <= usize::MAX,
            decreases usize::MAX - taken.len(),
        {
            match next_chunk() {
                Err(e) => {
                    return Err(LoadError::Source(e));
                },
                Ok(None) => {
                    match loader.finish() {
                        Some(rope) => {
                            return Ok(rope);
                        },
                        None => {
                            return Err(LoadError::NoChunks);
                        },
                    }
                },
                Ok(Some(chunk)) => {
                    let ghost next = taken.push(chunk);
                    proof {
                        assert(next.drop_last() =~= taken);
                        assert(next.last() == chunk);
                    }
                    let accepted = loader.accept(chunk);
                    if !accepted {
                        proof {
                            assert(yielded_by(source, next)) by {
                                assert forall|i: int| 0 <= i < next.len() implies call_ensures(
                                    source,
                                    (),
                                    Ok::<Option<Chunk<T, M>>, E>(Some(#[trigger] next[i])),
                                ) by {
                                    if i < taken.len() {
                                        assert(next[i] == taken[i]);
                                    }
                                }
                            }
                            assert(data_of(next) == data_of(taken) + chunk@);
                        }
                        return Err(LoadError::TooLarge);
                    }
                    proof {
                        assert(yielded_by(source, next)) by {
                            assert forall|i: int| 0 <= i < next.len() implies call_ensures(
                                source,
                                (),
                                Ok::<Option<Chunk<T, M>>, E>(Some(#[trigger] next[i])),
                            ) by {
                                if i < taken.len() {
                                    assert(next[i] == taken[i]);
                                }
                            }
                        }
                        taken = next;
                    }
                },
            }
        }
    }
}

} // verus!