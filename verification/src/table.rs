//! Walks over the marker tables that nodes carry: tallying, merging and
//! slicing them.

use vstd::prelude::*;
use std::collections::{BTreeSet, HashMap};
use std::hash::Hash;
use vstd::std_specs::hash::obeys_key_model;
use vstd::std_specs::iter::IteratorSpec;
use crate::marks::{count_in, window};
use crate::offsets::{leaf_marks, lemma_offsets_sorted, offsets_of, sliced_offsets};

verus! {

/// Walking a map meets each of its keys.
pub(crate) proof fn lemma_walk_covers<K, V>(map: &HashMap<K, V>, k: K)
    requires
        obeys_key_model::<K>(),
        map@.contains_key(k),
    ensures
        exists|i: int|
            0 <= i < map.iter().remaining().len() && *(#[trigger] map.iter().remaining()[i]).0
                == k,
{
    let walk = map.iter().remaining();
    assert(walk.contains((&k, &map@[k])));
    let i = choose|i: int| 0 <= i < walk.len() && walk[i] == (&k, &map@[k]);
    assert(*walk[i].0 == k);
}

/// A walk that meets no entry twice meets no key twice.
pub(crate) proof fn lemma_walk_distinct<K, V>(map: &HashMap<K, V>, i: int, j: int)
    requires
        obeys_key_model::<K>(),
        0 <= i < map.iter().remaining().len(),
        0 <= j < map.iter().remaining().len(),
        *map.iter().remaining()[i].0 == *map.iter().remaining()[j].0,
        map.iter().remaining().no_duplicates(),
    ensures
        i == j,
{
    let walk = map.iter().remaining();
    assert(map@.contains_key(*walk[i].0) && map@[*walk[i].0] == *walk[i].1);
    assert(map@.contains_key(*walk[j].0) && map@[*walk[j].0] == *walk[j].1);
    assert(walk[i] == walk[j]);
}

/// Key `k` is among the first `n` entries of a walk.
pub(crate) open spec fn met<K, V>(walk: Seq<(&K, &V)>, n: int, k: K) -> bool {
    exists|i: int| 0 <= i < n && *(#[trigger] walk[i]).0 == k
}

/// The total count of each marker of an internal node's table.
pub(crate) fn totals<M: Eq + Hash + Copy>(table: &HashMap<M, (usize, usize)>) -> (counts: HashMap<
    M,
    usize,
>)
    requires
        obeys_key_model::<M>(),
    ensures
        counts@.dom() == table@.dom(),
        forall|m: M| #[trigger] table@.contains_key(m) ==> counts@[m] == table@[m].1,
{
    let mut counts: HashMap<M, usize> = HashMap::new();
    for (marker, pair) in it: table.iter()
        invariant
            obeys_key_model::<M>(),
            it.seq() == table.iter().remaining(),
            forall|m: M| #[trigger]
                counts@.contains_key(m) ==> table@.contains_key(m) && counts@[m] == table@[m].1,
            forall|i: int|
                0 <= i < it.index() ==> counts@.contains_key(*(#[trigger] it.seq()[i]).0),
    {
        assert(table@.contains_key(*marker) && table@[*marker] == *pair);
        counts.insert(*marker, pair.1);
    }
    assert forall|m: M| table@.contains_key(m) implies counts@.contains_key(m) by {
        lemma_walk_covers(table, m);
    }
    assert(counts@.dom() =~= table@.dom());
    counts
}

/// The number of offsets recorded for each marker of a leaf's table.
pub(crate) fn tally<M: Eq + Hash + Copy>(
    table: &HashMap<M, BTreeSet<usize>>,
) -> (counts: HashMap<M, usize>)
    requires
        obeys_key_model::<M>(),
    ensures
        counts@.dom() == table@.dom(),
        forall|m: M| #[trigger]
            table@.contains_key(m) ==> counts@[m] == offsets_of(&table@[m]).len(),
{
    let mut counts: HashMap<M, usize> = HashMap::new();
    for (marker, offsets) in it: table.iter()
        invariant
            obeys_key_model::<M>(),
            it.seq() == table.iter().remaining(),
            forall|m: M| #[trigger]
                counts@.contains_key(m) ==> table@.contains_key(m) && counts@[m] == offsets_of(
                    &table@[m],
                ).len(),
            forall|i: int|
                0 <= i < it.index() ==> counts@.contains_key(*(#[trigger] it.seq()[i]).0),
    {
        assert(table@.contains_key(*marker) && table@[*marker] == *offsets);
        proof {
            lemma_offsets_sorted(offsets);
        }
        counts.insert(*marker, offsets.len());
    }
    assert forall|m: M| table@.contains_key(m) implies counts@.contains_key(m) by {
        lemma_walk_covers(table, m);
    }
    assert(counts@.dom() =~= table@.dom());
    counts
}

/// The table of an internal node, from the counts of its two children: a
/// marker counted on either side gets the left count and the sum of both.
pub(crate) fn merged<M: Eq + Hash + Copy>(
    left: &HashMap<M, usize>,
    right: &HashMap<M, usize>,
) -> (table: HashMap<M, (usize, usize)>)
    requires
        obeys_key_model::<M>(),
        forall|m: M| count_in(left@, m) + count_in(right@, m) <= usize::MAX,
    ensures
        forall|m: M| #[trigger]
            table@.contains_key(m) <==> left@.contains_key(m) || right@.contains_key(m),
        forall|m: M| #[trigger]
            table@.contains_key(m) ==> table@[m].0 == count_in(left@, m) && table@[m].1
                == count_in(left@, m) + count_in(right@, m),
{
    let mut table: HashMap<M, (usize, usize)> = HashMap::new();
    for (marker, count) in it: left.iter()
        invariant
            obeys_key_model::<M>(),
            it.seq() == left.iter().remaining(),
            forall|m: M| #[trigger]
                table@.contains_key(m) ==> left@.contains_key(m) && table@[m] == (
                    left@[m],
                    left@[m],
                ),
            forall|i: int|
                0 <= i < it.index() ==> table@.contains_key(*(#[trigger] it.seq()[i]).0),
    {
        assert(left@.contains_key(*marker) && left@[*marker] == *count);
        table.insert(*marker, (*count, *count));
    }
    assert forall|m: M| left@.contains_key(m) implies table@.contains_key(m) by {
        lemma_walk_covers(left, m);
    }
    for (marker, count) in it: right.iter()
        invariant
            obeys_key_model::<M>(),
            it.seq() == right.iter().remaining(),
            it.seq().no_duplicates(),
            forall|m: M| count_in(left@, m) + count_in(right@, m) <= usize::MAX,
            forall|m: M| #[trigger]
                table@.contains_key(m) <==> left@.contains_key(m) || met(it.seq(), it.index(), m),
            forall|m: M| #[trigger]
                table@.contains_key(m) ==> table@[m].0 == count_in(left@, m) && table@[m].1
                    == count_in(left@, m) + if met(it.seq(), it.index(), m) {
                    count_in(right@, m)
                } else {
                    0
                },
    {
        let ghost walk = it.seq();
        let ghost at = it.index();
        assert(right@.contains_key(*marker) && right@[*marker] == *count);
        assert(!met(walk, at, *marker)) by {
            if met(walk, at, *marker) {
                let i = choose|i: int| 0 <= i < at && *(#[trigger] walk[i]).0 == *marker;
                lemma_walk_distinct(right, i, at);
            }
        }
        assert(count_in(left@, *marker) + count_in(right@, *marker) <= usize::MAX);
        table.entry(*marker).or_insert((0, 0)).1 += *count;
        proof {
            assert forall|m: M| met(walk, at + 1, m) <==> met(walk, at, m) || m == *marker by {
                if met(walk, at + 1, m) {
                    let i = choose|i: int| 0 <= i < at + 1 && *(#[trigger] walk[i]).0 == m;
                    if i < at {
                        assert(met(walk, at, m));
                    }
                }
                if met(walk, at, m) {
                    let i = choose|i: int| 0 <= i < at && *(#[trigger] walk[i]).0 == m;
                    assert(0 <= i < at + 1 && *walk[i].0 == m);
                }
                if m == *marker {
                    assert(*walk[at].0 == m);
                }
            }
        }
    }
    assert forall|m: M| met(right.iter().remaining(), right.iter().remaining().len() as int, m)
        <==> right@.contains_key(m) by {
        let walk = right.iter().remaining();
        if right@.contains_key(m) {
            lemma_walk_covers(right, m);
        }
        if met(walk, walk.len() as int, m) {
            let i = choose|i: int| 0 <= i < walk.len() && *(#[trigger] walk[i]).0 == m;
            assert(right@.contains_key(*walk[i].0));
        }
    }
    table
}

/// The table of the leaf cut out at `[start, end)`: each marker keeps its
/// offsets inside the range, re-expressed relative to `start`, and a marker
/// left with none is dropped.
pub(crate) fn sliced_table<M: Eq + Hash + Copy>(
    table: &HashMap<M, BTreeSet<usize>>,
    start: usize,
    end: usize,
) -> (kept: HashMap<M, BTreeSet<usize>>)
    requires
        obeys_key_model::<M>(),
    ensures
        forall|m: M| #[trigger] kept@.contains_key(m) ==> offsets_of(&kept@[m]).len() > 0,
        forall|m: M|
            leaf_marks(kept@, m) == window(
                #[trigger] leaf_marks(table@, m),
                start as int,
                end as int,
            ),
{
    let mut kept: HashMap<M, BTreeSet<usize>> = HashMap::new();
    for (marker, offsets) in it: table.iter()
        invariant
            obeys_key_model::<M>(),
            it.seq() == table.iter().remaining(),
            forall|m: M| #[trigger]
                kept@.contains_key(m) ==> table@.contains_key(m) && offsets_of(&kept@[m]).len()
                    > 0 && offsets_of(&kept@[m]) == window(
                    offsets_of(&table@[m]),
                    start as int,
                    end as int,
                ),
            forall|i: int|
                0 <= i < it.index() ==> kept@.contains_key(*(#[trigger] it.seq()[i]).0) || window(
                    offsets_of(&table@[*it.seq()[i].0]),
                    start as int,
                    end as int,
                ).len() == 0,
    {
        assert(table@.contains_key(*marker) && table@[*marker] == *offsets);
        let inside = sliced_offsets(offsets, start, end);
        proof {
            lemma_offsets_sorted(&inside);
        }
        if !inside.is_empty() {
            kept.insert(*marker, inside);
        }
    }
    assert forall|m: M|
        leaf_marks(kept@, m) == window(
            #[trigger] leaf_marks(table@, m),
            start as int,
            end as int,
        ) by {
        if table@.contains_key(m) {
            lemma_walk_covers(table, m);
            let walk = table.iter().remaining();
            let i = choose|i: int| 0 <= i < walk.len() && *(#[trigger] walk[i]).0 == m;
            assert(kept@.contains_key(*walk[i].0) || window(
                offsets_of(&table@[*walk[i].0]),
                start as int,
                end as int,
            ).len() == 0);
            if !kept@.contains_key(m) {
                assert(leaf_marks(kept@, m) =~= window(
                    leaf_marks(table@, m),
                    start as int,
                    end as int,
                ));
            }
        }
    }
    kept
}

} // verus!
