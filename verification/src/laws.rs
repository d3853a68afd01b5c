//! What holds between the operations on ropes, stated over their elements
//! and marks.

use vstd::prelude::*;
use std::hash::Hash;
use crate::chunk::Chunk;
use crate::loader::{data_of, marks_of, BulkLoader};
use crate::marks::{
    clone_of, increasing, lemma_increasing_unique, lemma_window_all, lemma_window_narrow,
    lemma_window_none, lemma_window_split, lemma_window_window, shift, window,
};
use crate::rope::Rope;

verus! {

/// Cutting a rope in two at any inner position and joining the two cuts
/// gives a rope with the same marks whose elements are clones of the
/// first rope's, in the same order.
pub proof fn lemma_split_rejoin<T: Clone, M: Eq + Hash + Copy>(
    rope: Rope<T, M>,
    at: int,
    left: Rope<T, M>,
    right: Rope<T, M>,
    rejoined: Rope<T, M>,
)
    requires
        rope.wf(),
        0 < at < rope@.len(),
        left.is_slice_of(&rope, 0, at),
        right.is_slice_of(&rope, at, rope@.len() as int),
        rejoined.is_concat_of(&left, &right),
    ensures
        clone_of(rope@, rejoined@),
        forall|m: M| rejoined.marks(m) == rope.marks(m),
{
    let len = rope@.len() as int;
    assert forall|i: int| 0 <= i < len implies cloned::<T>(#[trigger] rope@[i], rejoined@[i]) by {
        if i < at {
            assert(rope@.subrange(0, at)[i] == rope@[i]);
            assert(rejoined@[i] == left@[i]);
        } else {
            assert(rope@.subrange(at, len)[i - at] == rope@[i]);
            assert(rejoined@[i] == right@[i - at]);
        }
    }
    assert forall|m: M| rejoined.marks(m) == rope.marks(m) by {
        let all = rope.marks(m);
        rope.lemma_marks_sorted(m);
        lemma_window_split(all, 0, at, len);
        lemma_window_all(all, 0, len);
        assert(shift(all, 0) =~= all);
        assert(rejoined.marks(m) == left.marks(m) + shift(right.marks(m), left@.len() as int));
    }
}

/// A concatenation is as long as its two sources together, holds the
/// elements of the first followed by those of the second, and counts each
/// marker as often as both sources together.
pub proof fn lemma_concat_appends<T: Clone, M: Eq + Hash + Copy>(
    left: Rope<T, M>,
    right: Rope<T, M>,
    both: Rope<T, M>,
)
    requires
        both.is_concat_of(&left, &right),
    ensures
        both@.len() == left@.len() + right@.len(),
        forall|i: int| 0 <= i < left@.len() ==> both@[i] == left@[i],
        forall|i: int| 0 <= i < right@.len() ==> both@[left@.len() + i] == right@[i],
        forall|m: M| both.marks(m).len() == left.marks(m).len() + right.marks(m).len(),
{
    assert forall|m: M| both.marks(m).len() == left.marks(m).len() + right.marks(m).len() by {
        assert(both.marks(m) == left.marks(m) + shift(right.marks(m), left@.len() as int));
    }
}

/// A slice over `[start, end)` has `end - start` elements, and its element
/// at `k` is a clone of the source's element at `start + k`.
pub proof fn lemma_slice_elements<T: Clone, M: Eq + Hash + Copy>(
    source: Rope<T, M>,
    start: int,
    end: int,
    cut: Rope<T, M>,
)
    requires
        0 <= start < end <= source@.len(),
        cut.is_slice_of(&source, start, end),
    ensures
        cut@.len() == end - start,
        forall|k: int| 0 <= k < end - start ==> cloned::<T>(source@[start + k], #[trigger] cut@[k]),
{
    let part = source@.subrange(start, end);
    assert forall|k: int| 0 <= k < end - start implies cloned::<T>(
        source@[start + k],
        #[trigger] cut@[k],
    ) by {
        assert(part[k] == source@[start + k]);
    }
}

/// Slicing a slice marks the same positions as slicing the source over the
/// inner range directly: the marks of a range do not depend on the wider
/// range it was reached through.
pub proof fn lemma_slice_of_slice_marks<T: Clone, M: Eq + Hash + Copy>(
    source: Rope<T, M>,
    outer: Rope<T, M>,
    nested: Rope<T, M>,
    direct: Rope<T, M>,
    a: int,
    b: int,
    c: int,
    d: int,
)
    requires
        0 <= c,
        a + d <= b,
        outer.is_slice_of(&source, a, b),
        nested.is_slice_of(&outer, c, d),
        direct.is_slice_of(&source, a + c, a + d),
    ensures
        forall|m: M| nested.marks(m) == direct.marks(m),
{
    assert forall|m: M| nested.marks(m) == direct.marks(m) by {
        lemma_window_window(source.marks(m), a, b, c, d);
        assert(outer.marks(m) == window(source.marks(m), a, b));
        assert(nested.marks(m) == window(outer.marks(m), c, d));
        assert(direct.marks(m) == window(source.marks(m), a + c, a + d));
    }
}

/// A slice over a range inside another range counts no marker more often
/// than the slice over the wider range does.
pub proof fn lemma_narrower_slice_counts_less<T: Clone, M: Eq + Hash + Copy>(
    source: Rope<T, M>,
    wide: Rope<T, M>,
    narrow: Rope<T, M>,
    a: int,
    b: int,
    c: int,
    d: int,
)
    requires
        a <= c,
        d <= b,
        wide.is_slice_of(&source, a, b),
        narrow.is_slice_of(&source, c, d),
    ensures
        forall|m: M| narrow.marks(m).len() <= wide.marks(m).len(),
{
    assert forall|m: M| narrow.marks(m).len() <= wide.marks(m).len() by {
        lemma_window_narrow(source.marks(m), a, b, c, d);
        assert(wide.marks(m) == window(source.marks(m), a, b));
        assert(narrow.marks(m) == window(source.marks(m), c, d));
    }
}

/// A slice over a range in which a marker does not occur does not hold the
/// marker.
pub proof fn lemma_unmarked_slice<T: Clone, M: Eq + Hash + Copy>(
    source: Rope<T, M>,
    cut: Rope<T, M>,
    start: int,
    end: int,
    m: M,
)
    requires
        cut.is_slice_of(&source, start, end),
        forall|i: int|
            0 <= i < source.marks(m).len() ==> !(start <= #[trigger] source.marks(m)[i] < end),
    ensures
        cut.marks(m).len() == 0,
{
    lemma_window_none(source.marks(m), start, end);
    assert(cut.marks(m) == window(source.marks(m), start, end));
}

/// The occurrences of a marker stand at strictly rising positions: a later
/// occurrence is found at a greater position than an earlier one.
pub proof fn lemma_nth_marker_rises<T: Clone, M: Eq + Hash + Copy>(
    rope: Rope<T, M>,
    m: M,
    earlier: int,
    later: int,
)
    requires
        rope.wf(),
        0 <= earlier < later < rope.marks(m).len(),
    ensures
        0 <= rope.marks(m)[earlier] < rope.marks(m)[later] < rope@.len(),
{
    rope.lemma_marks_sorted(m);
}

/// The marks of a valid chunk are fixed by the set of marked offsets: they
/// are the one increasing sequence that holds exactly these offsets. So
/// marking an offset has one outcome, marking it again changes nothing, and
/// the order in which offsets are marked does not matter.
pub proof fn lemma_marks_fixed_by_set<T: Clone, M: Eq + Hash + Copy>(
    chunk: Chunk<T, M>,
    m: M,
    listing: Seq<int>,
)
    requires
        chunk.wf(),
        increasing(listing),
        listing.to_set() == chunk.marks(m).to_set(),
    ensures
        chunk.marks(m) == listing,
{
    chunk.lemma_marks_sorted(m);
    lemma_increasing_unique(chunk.marks(m), listing);
}

/// How often `m` is marked in all the chunks together.
pub open spec fn count_of<T: Clone, M: Eq + Hash + Copy>(chunks: Seq<Chunk<T, M>>, m: M) -> nat
    decreases chunks.len(),
{
    if chunks.len() == 0 {
        0
    } else {
        count_of(chunks.drop_last(), m) + chunks.last().marks(m).len()
    }
}

/// How many elements all the chunks hold together.
pub open spec fn len_of<T: Clone, M: Eq + Hash + Copy>(chunks: Seq<Chunk<T, M>>) -> nat
    decreases chunks.len(),
{
    if chunks.len() == 0 {
        0
    } else {
        len_of(chunks.drop_last()) + chunks.last()@.len()
    }
}

/// The chunks laid end to end hold as many elements as the chunks hold
/// together, and mark each marker as often as the chunks do together.
pub proof fn lemma_chunks_add_up<T: Clone, M: Eq + Hash + Copy>(chunks: Seq<Chunk<T, M>>, m: M)
    ensures
        data_of(chunks).len() == len_of(chunks),
        marks_of(chunks, m).len() == count_of(chunks, m),
    decreases chunks.len(),
{
    if chunks.len() > 0 {
        lemma_chunks_add_up(chunks.drop_last(), m);
    }
}

/// Accepting chunks one after the other, from a loader that holds
/// nothing, gives a loader that holds the chunks' elements in the order of
/// acceptance and marks each marker where the chunks mark it.
pub proof fn lemma_accepted_in_order<T: Clone, M: Eq + Hash + Copy>(
    states: Seq<BulkLoader<T, M>>,
    chunks: Seq<Chunk<T, M>>,
    n: int,
    m: M,
)
    requires
        states.len() == chunks.len() + 1,
        0 <= n <= chunks.len(),
        states[0]@ == Seq::<T>::empty(),
        states[0].marks(m) == Seq::<int>::empty(),
        forall|i: int|
            1 <= i < states.len() ==> (#[trigger] states[i]).holds_after(
                &states[i - 1],
                &chunks[i - 1],
            ),
    ensures
        states[n]@ == data_of(chunks.take(n)),
        states[n].marks(m) == marks_of(chunks.take(n), m),
    decreases n,
{
    if n == 0 {
        assert(chunks.take(0) =~= Seq::<Chunk<T, M>>::empty());
    } else {
        lemma_accepted_in_order(states, chunks, n - 1, m);
        let taken = chunks.take(n);
        assert(taken.drop_last() =~= chunks.take(n - 1));
        assert(taken.last() == chunks[n - 1]);
        assert(states[n].holds_after(&states[n - 1], &chunks[n - 1]));
        assert(states[n].marks(m) == states[n - 1].marks(m) + shift(
            chunks[n - 1].marks(m),
            states[n - 1]@.len() as int,
        ));
    }
}

/// A rope loaded from chunks that were accepted one after the other holds
/// the chunks' elements in the order of acceptance, as many as the chunks
/// hold together, and marks each marker where the chunks mark it and as
/// often as they do together.
pub proof fn lemma_load_in_order<T: Clone, M: Eq + Hash + Copy>(
    states: Seq<BulkLoader<T, M>>,
    chunks: Seq<Chunk<T, M>>,
    rope: Rope<T, M>,
    m: M,
)
    requires
        states.len() == chunks.len() + 1,
        states[0]@ == Seq::<T>::empty(),
        states[0].marks(m) == Seq::<int>::empty(),
        forall|i: int|
            1 <= i < states.len() ==> (#[trigger] states[i]).holds_after(
                &states[i - 1],
                &chunks[i - 1],
            ),
        rope@ == states.last()@,
        rope.marks(m) == states.last().marks(m),
    ensures
        rope@ == data_of(chunks),
        rope@.len() == len_of(chunks),
        rope.marks(m) == marks_of(chunks, m),
        rope.marks(m).len() == count_of(chunks, m),
{
    lemma_accepted_in_order(states, chunks, chunks.len() as int, m);
    assert(chunks.take(chunks.len() as int) =~= chunks);
    lemma_chunks_add_up(chunks, m);
}

} // verus!
