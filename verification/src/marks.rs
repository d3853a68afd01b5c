//! Marker positions as strictly increasing sequences of integers, and the
//! two operations that ropes apply to them: shifting by an offset and
//! cutting out a window.

use vstd::prelude::*;

verus! {

/// Every element is smaller than all elements after it.
pub open spec fn increasing(s: Seq<int>) -> bool {
    forall|i: int, j: int| 0 <= i < j < s.len() ==> s[i] < s[j]
}

/// Every element lies in `[lo, hi)`.
pub open spec fn within(s: Seq<int>, lo: int, hi: int) -> bool {
    forall|i: int| 0 <= i < s.len() ==> lo <= #[trigger] s[i] < hi
}

/// The same positions, each moved by `by`.
pub open spec fn shift(s: Seq<int>, by: int) -> Seq<int> {
    Seq::new(s.len(), |i: int| s[i] + by)
}

/// The positions of `s` that lie in `[start, end)`, in the order they have in `s`,
/// each re-expressed relative to `start`.
pub open spec fn window(s: Seq<int>, start: int, end: int) -> Seq<int>
    decreases s.len(),
{
    if s.len() == 0 {
        Seq::empty()
    } else {
        let rest = window(s.drop_last(), start, end);
        if start <= s.last() < end {
            rest.push(s.last() - start)
        } else {
            rest
        }
    }
}

/// `dst` has the length of `src`, and each element of `dst` is a clone of
/// the element of `src` at the same position.
pub open spec fn clone_of<T: Clone>(src: Seq<T>, dst: Seq<T>) -> bool {
    &&& dst.len() == src.len()
    &&& forall|i: int| 0 <= i < src.len() ==> cloned::<T>(#[trigger] src[i], dst[i])
}

/// The count recorded for `m`: zero where the table has no entry.
pub(crate) open spec fn count_in<M>(counts: Map<M, usize>, m: M) -> nat {
    if counts.contains_key(m) {
        counts[m] as nat
    } else {
        0
    }
}

/// A window never holds more positions than the sequence it was cut from,
/// and each of its positions comes from that sequence.
pub proof fn lemma_window_members(s: Seq<int>, start: int, end: int)
    ensures
        window(s, start, end).len() <= s.len(),
        within(window(s, start, end), 0, end - start),
        forall|i: int|
            0 <= i < window(s, start, end).len() ==> s.contains(
                #[trigger] window(s, start, end)[i] + start,
            ),
    decreases s.len(),
{
    if s.len() > 0 {
        let front = s.drop_last();
        lemma_window_members(front, start, end);
        let w = window(s, start, end);
        let rest = window(front, start, end);
        assert forall|i: int| 0 <= i < w.len() implies s.contains(#[trigger] w[i] + start) by {
            if i < rest.len() {
                assert(front.contains(rest[i] + start));
                let k = choose|k: int| 0 <= k < front.len() && front[k] == rest[i] + start;
                assert(s[k] == w[i] + start);
            } else {
                assert(s[s.len() - 1] == w[i] + start);
            }
        }
    }
}

/// A window holds exactly the positions of the range, each reduced by
/// `start`.
pub proof fn lemma_window_contains(s: Seq<int>, start: int, end: int, p: int)
    ensures
        window(s, start, end).contains(p) <==> s.contains(p + start) && start <= p + start < end,
    decreases s.len(),
{
    if s.len() > 0 {
        let front = s.drop_last();
        let rest = window(front, start, end);
        let all = window(s, start, end);
        lemma_window_contains(front, start, end, p);
        if s.contains(p + start) && start <= p + start < end {
            let k = choose|k: int| 0 <= k < s.len() && s[k] == p + start;
            if k < front.len() {
                assert(front[k] == p + start);
                let i = choose|i: int| 0 <= i < rest.len() && rest[i] == p;
                assert(all[i] == p);
            } else {
                assert(all[all.len() - 1] == p);
            }
        }
        if all.contains(p) {
            let i = choose|i: int| 0 <= i < all.len() && all[i] == p;
            if i < rest.len() {
                assert(rest[i] == p);
                let k = choose|k: int| 0 <= k < front.len() && front[k] == p + start;
                assert(s[k] == p + start);
            } else {
                assert(s[s.len() - 1] == p + start);
            }
        }
    }
}

/// Cutting a window out of a concatenation is the same as concatenating the
/// windows of the two parts.
pub proof fn lemma_window_add(a: Seq<int>, b: Seq<int>, start: int, end: int)
    ensures
        window(a + b, start, end) == window(a, start, end) + window(b, start, end),
    decreases b.len(),
{
    if b.len() == 0 {
        assert(a + b =~= a);
        assert(window(a, start, end) + window(b, start, end) =~= window(a, start, end));
    } else {
        assert((a + b).drop_last() =~= a + b.drop_last());
        assert((a + b).last() == b.last());
        lemma_window_add(a, b.drop_last(), start, end);
        assert(window(a + b, start, end) =~= window(a, start, end) + window(b, start, end));
    }
}

/// A window that covers every position keeps them all.
pub proof fn lemma_window_all(s: Seq<int>, start: int, end: int)
    requires
        within(s, start, end),
    ensures
        window(s, start, end) == shift(s, -start),
    decreases s.len(),
{
    if s.len() == 0 {
        assert(window(s, start, end) =~= shift(s, -start));
    } else {
        let front = s.drop_last();
        assert(within(front, start, end)) by {
            assert forall|i: int| 0 <= i < front.len() implies start <= #[trigger] front[i]
                < end by {
                assert(front[i] == s[i]);
            }
        }
        lemma_window_all(front, start, end);
        assert(start <= s[s.len() - 1] < end);
        assert(window(s, start, end) =~= shift(s, -start));
    }
}

/// A window that covers no position is empty.
pub proof fn lemma_window_none(s: Seq<int>, start: int, end: int)
    requires
        forall|i: int| 0 <= i < s.len() ==> !(start <= #[trigger] s[i] < end),
    ensures
        window(s, start, end) == Seq::<int>::empty(),
    decreases s.len(),
{
    if s.len() > 0 {
        let front = s.drop_last();
        assert forall|i: int| 0 <= i < front.len() implies !(start <= #[trigger] front[i]
            < end) by {
            assert(front[i] == s[i]);
        }
        lemma_window_none(front, start, end);
        assert(!(start <= s[s.len() - 1] < end));
    }
}

/// Shifting the positions and then cutting a window equals cutting the
/// window moved back by the same amount.
pub proof fn lemma_window_shift(s: Seq<int>, by: int, start: int, end: int)
    ensures
        window(shift(s, by), start, end) == window(s, start - by, end - by),
    decreases s.len(),
{
    let t = shift(s, by);
    if s.len() == 0 {
        assert(window(t, start, end) =~= window(s, start - by, end - by));
    } else {
        assert(t.drop_last() =~= shift(s.drop_last(), by));
        assert(t.last() == s.last() + by);
        lemma_window_shift(s.drop_last(), by, start, end);
        assert(window(t, start, end) =~= window(s, start - by, end - by));
    }
}

/// A window of an increasing sequence is increasing.
pub proof fn lemma_window_increasing(s: Seq<int>, start: int, end: int)
    requires
        increasing(s),
    ensures
        increasing(window(s, start, end)),
    decreases s.len(),
{
    if s.len() > 0 {
        let front = s.drop_last();
        assert(increasing(front)) by {
            assert forall|i: int, j: int| 0 <= i < j < front.len() implies front[i] < front[j] by {
                assert(front[i] == s[i] && front[j] == s[j]);
            }
        }
        lemma_window_increasing(front, start, end);
        lemma_window_members(front, start, end);
        let w = window(s, start, end);
        let rest = window(front, start, end);
        assert forall|i: int, j: int| 0 <= i < j < w.len() implies w[i] < w[j] by {
            if j == rest.len() {
                assert(front.contains(rest[i] + start));
                let k = choose|k: int| 0 <= k < front.len() && front[k] == rest[i] + start;
                assert(s[k] < s[s.len() - 1]);
            }
        }
    }
}

/// Cutting a window out of a window equals cutting the inner range out of
/// the whole sequence directly.
pub proof fn lemma_window_window(s: Seq<int>, a: int, b: int, c: int, d: int)
    requires
        0 <= c,
        a + d <= b,
    ensures
        window(window(s, a, b), c, d) == window(s, a + c, a + d),
    decreases s.len(),
{
    if s.len() > 0 {
        let front = s.drop_last();
        lemma_window_window(front, a, b, c, d);
        if a <= s.last() < b {
            let inner = window(front, a, b);
            let x = s.last() - a;
            assert(window(s, a, b) == inner.push(x));
            assert(inner.push(x).drop_last() =~= inner);
            assert(inner.push(x).last() == x);
        }
    }
}

/// Moving the end of the window across a stretch that holds no position
/// does not change the window.
pub proof fn lemma_window_same_end(s: Seq<int>, start: int, e1: int, e2: int)
    requires
        forall|i: int| 0 <= i < s.len() ==> (#[trigger] s[i] < e1 <==> s[i] < e2),
    ensures
        window(s, start, e1) == window(s, start, e2),
    decreases s.len(),
{
    if s.len() > 0 {
        let front = s.drop_last();
        assert forall|i: int| 0 <= i < front.len() implies (#[trigger] front[i] < e1 <==> front[i]
            < e2) by {
            assert(front[i] == s[i]);
        }
        lemma_window_same_end(front, start, e1, e2);
        assert(s[s.len() - 1] < e1 <==> s[s.len() - 1] < e2);
    }
}

/// Moving the start of the window across a stretch that holds no position
/// keeps the same positions, re-expressed relative to the new start.
pub proof fn lemma_window_same_start(s: Seq<int>, s1: int, s2: int, end: int)
    requires
        forall|i: int| 0 <= i < s.len() ==> (s1 <= #[trigger] s[i] <==> s2 <= s[i]),
    ensures
        window(s, s1, end) == shift(window(s, s2, end), s2 - s1),
    decreases s.len(),
{
    if s.len() == 0 {
        assert(window(s, s1, end) =~= shift(window(s, s2, end), s2 - s1));
    } else {
        let front = s.drop_last();
        assert forall|i: int| 0 <= i < front.len() implies (s1 <= #[trigger] front[i] <==> s2
            <= front[i]) by {
            assert(front[i] == s[i]);
        }
        lemma_window_same_start(front, s1, s2, end);
        assert(s1 <= s[s.len() - 1] <==> s2 <= s[s.len() - 1]);
        assert(window(s, s1, end) =~= shift(window(s, s2, end), s2 - s1));
    }
}

/// Two adjacent windows of an increasing sequence make up the window over
/// both ranges.
pub proof fn lemma_window_split(s: Seq<int>, a: int, b: int, c: int)
    requires
        increasing(s),
        a <= b <= c,
    ensures
        window(s, a, b) + shift(window(s, b, c), b - a) == window(s, a, c),
    decreases s.len(),
{
    if s.len() == 0 {
        assert(window(s, a, b) + shift(window(s, b, c), b - a) =~= window(s, a, c));
    } else {
        let front = s.drop_last();
        let x = s[s.len() - 1];
        assert(increasing(front)) by {
            assert forall|i: int, j: int| 0 <= i < j < front.len() implies front[i] < front[j] by {
                assert(front[i] == s[i] && front[j] == s[j]);
            }
        }
        lemma_window_split(front, a, b, c);
        if a <= x < b {
            assert forall|i: int| 0 <= i < front.len() implies !(b <= #[trigger] front[i]
                < c) by {
                assert(front[i] == s[i] && s[i] < x);
            }
            lemma_window_none(front, b, c);
        }
        assert(window(s, a, b) + shift(window(s, b, c), b - a) =~= window(s, a, c));
    }
}

/// A narrower window holds at most as many positions as a wider one.
pub proof fn lemma_window_narrow(s: Seq<int>, a: int, b: int, c: int, d: int)
    requires
        a <= c,
        d <= b,
    ensures
        window(s, c, d).len() <= window(s, a, b).len(),
    decreases s.len(),
{
    if s.len() > 0 {
        lemma_window_narrow(s.drop_last(), a, b, c, d);
    }
}

/// An increasing sequence confined to `[lo, hi)` has at most `hi - lo`
/// elements.
pub proof fn lemma_increasing_len(s: Seq<int>, lo: int, hi: int)
    requires
        increasing(s),
        within(s, lo, hi),
    ensures
        s.len() == 0 || s.len() <= hi - lo,
    decreases s.len(),
{
    if s.len() > 0 {
        let front = s.drop_last();
        let top = s[s.len() - 1];
        assert(increasing(front) && within(front, lo, top)) by {
            assert forall|i: int, j: int| 0 <= i < j < front.len() implies front[i] < front[j] by {
                assert(front[i] == s[i] && front[j] == s[j]);
            }
            assert forall|i: int| 0 <= i < front.len() implies lo <= #[trigger] front[i]
                < top by {
                assert(front[i] == s[i]);
            }
        }
        lemma_increasing_len(front, lo, top);
    }
}

/// An increasing sequence is determined by the set of its elements.
pub proof fn lemma_increasing_unique(a: Seq<int>, b: Seq<int>)
    requires
        increasing(a),
        increasing(b),
        a.to_set() == b.to_set(),
    ensures
        a == b,
    decreases a.len(),
{
    if a.len() == 0 {
        if b.len() > 0 {
            assert(b.to_set().contains(b[0]));
            assert(a.contains(b[0]));
        }
        assert(a =~= b);
    } else {
        let x = a[a.len() - 1];
        assert(a.to_set().contains(x));
        assert(b.contains(x));
        let y = b[b.len() - 1];
        assert(b.to_set().contains(y));
        assert(a.contains(y));
        assert(x == y);
        let fa = a.drop_last();
        let fb = b.drop_last();
        assert(increasing(fa)) by {
            assert forall|i: int, j: int| 0 <= i < j < fa.len() implies fa[i] < fa[j] by {
                assert(fa[i] == a[i] && fa[j] == a[j]);
            }
        }
        assert(increasing(fb)) by {
            assert forall|i: int, j: int| 0 <= i < j < fb.len() implies fb[i] < fb[j] by {
                assert(fb[i] == b[i] && fb[j] == b[j]);
            }
        }
        assert(fa.to_set() =~= fb.to_set()) by {
            assert forall|v: int| fa.to_set().contains(v) <==> fb.to_set().contains(v) by {
                if fa.contains(v) {
                    let k = choose|k: int| 0 <= k < fa.len() && fa[k] == v;
                    assert(a[k] == v && v < x);
                    assert(a.to_set().contains(v));
                    assert(b.contains(v));
                    let l = choose|l: int| 0 <= l < b.len() && b[l] == v;
                    assert(l < b.len() - 1);
                    assert(fb[l] == v);
                }
                if fb.contains(v) {
                    let k = choose|k: int| 0 <= k < fb.len() && fb[k] == v;
                    assert(b[k] == v && v < y);
                    assert(b.to_set().contains(v));
                    assert(a.contains(v));
                    let l = choose|l: int| 0 <= l < a.len() && a[l] == v;
                    assert(l < a.len() - 1);
                    assert(fa[l] == v);
                }
            }
        }
        lemma_increasing_unique(fa, fb);
        assert(a =~= fa.push(x));
        assert(b =~= fb.push(y));
    }
}

} // verus!
