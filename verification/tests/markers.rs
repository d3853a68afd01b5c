use persistent_rope::{Chunk, MarkerRangeError, Rope};

#[derive(PartialEq, Eq, Hash, Clone, Copy, Debug)]
struct Marker {}

fn flat_marked_rope() -> Rope<usize, Marker> {
    let mut chunk = Chunk::with_capacity(3);
    chunk.extend_from_slice(&vec![0, 1, 2]);
    chunk.mark_at(Marker {}, 1).unwrap();
    Rope::from_chunk(chunk)
}

fn deep_marked_rope() -> Rope<usize, Marker> {
    let mut chunk = Chunk::with_capacity(3);
    chunk.extend_from_slice(&vec![0, 1, 2, 3]);
    chunk.mark_at(Marker {}, 1).unwrap();
    chunk.mark_at(Marker {}, 3).unwrap();
    let rope = Rope::from_chunk(chunk);

    Rope::concat(
        &flat_marked_rope(),
        &Rope::concat(&rope, &flat_marked_rope()),
    )
}

#[test]
fn flat_indices() {
    assert_eq!(Some(1), flat_marked_rope().index_for_nth_marker(Marker {}, 0));
    assert_eq!(None, flat_marked_rope().index_for_nth_marker(Marker {}, 1));
    assert_eq!(None, flat_marked_rope().index_for_nth_marker(Marker {}, 25));
}

#[test]
fn deep_indices() {
    assert_eq!(Some(1), deep_marked_rope().index_for_nth_marker(Marker {}, 0));
    assert_eq!(Some(4), deep_marked_rope().index_for_nth_marker(Marker {}, 1));
    assert_eq!(Some(6), deep_marked_rope().index_for_nth_marker(Marker {}, 2));
    assert_eq!(Some(8), deep_marked_rope().index_for_nth_marker(Marker {}, 3));
    assert_eq!(None, deep_marked_rope().index_for_nth_marker(Marker {}, 4));
    assert_eq!(None, deep_marked_rope().index_for_nth_marker(Marker {}, 25));
}

#[test]
fn slice_count() {
    assert_eq!(
        None,
        flat_marked_rope().slice(0, 1).unwrap().marker_counts().get(&Marker {})
    );

    assert_eq!(
        Some(&1),
        flat_marked_rope().slice(1, 3).unwrap().marker_counts().get(&Marker {})
    );

    assert_eq!(
        None,
        deep_marked_rope().slice(0, 1).unwrap().marker_counts().get(&Marker {})
    );

    assert_eq!(
        Some(&1),
        deep_marked_rope().slice(1, 3).unwrap().marker_counts().get(&Marker {})
    );

    assert_eq!(
        Some(&2),
        deep_marked_rope().slice(1, 6).unwrap().marker_counts().get(&Marker {})
    );
}

#[test]
fn flat_count() {
    assert_eq!(Some(&1), flat_marked_rope().marker_counts().get(&Marker {}));
}

#[test]
fn deep_count() {
    assert_eq!(Some(&4), deep_marked_rope().marker_counts().get(&Marker {}));
}

#[test]
fn marked_leaf_between_unmarked_leaves() {
    let side: Rope<usize, char> = Rope::new(&vec![0, 1, 2]);
    let mut chunk = Chunk::with_capacity(4);
    chunk.extend_from_slice(&vec![0, 1, 2, 3]);
    chunk.mark_at('X', 1).unwrap();
    chunk.mark_at('X', 3).unwrap();
    let middle = Rope::from_chunk(chunk);
    let rope = Rope::concat(&Rope::concat(&side, &middle), &side);
    assert_eq!(10, rope.len());
    assert_eq!(2, rope.marker_count('X'));
    assert_eq!(Some(4), rope.index_for_nth_marker('X', 0));
    assert_eq!(Some(6), rope.index_for_nth_marker('X', 1));
    assert_eq!(None, rope.index_for_nth_marker('X', 2));
    assert_eq!(0, rope.marker_count('Y'));
    assert_eq!(None, rope.index_for_nth_marker('Y', 0));
}

#[test]
fn mark_outside_the_data_is_refused() {
    let mut chunk: Chunk<usize, Marker> = Chunk::with_capacity(2);
    assert_eq!(
        Err(MarkerRangeError { at: 0, len: 0 }),
        chunk.mark_at(Marker {}, 0)
    );
    chunk.push(7);
    chunk.push(8);
    assert_eq!(2, chunk.len());
    assert_eq!(
        Err(MarkerRangeError { at: 2, len: 2 }),
        chunk.mark_at(Marker {}, 2)
    );
    assert_eq!(Ok(()), chunk.mark_at(Marker {}, 1));
    let rope = Rope::from_chunk(chunk);
    assert_eq!(1, rope.marker_count(Marker {}));
    assert_eq!(Some(1), rope.index_for_nth_marker(Marker {}, 0));
}

#[test]
fn marks_come_out_in_order_and_once() {
    let mut chunk: Chunk<u8, u32> = Chunk::with_capacity(8);
    chunk.extend_from_slice(&[10, 11, 12, 13, 14, 15]);
    for at in [4, 0, 5, 2, 4, 0] {
        chunk.mark_at(7, at).unwrap();
    }
    chunk.mark_at(9, 3).unwrap();
    let rope = Rope::from_chunk(chunk);
    assert_eq!(4, rope.marker_count(7));
    assert_eq!(1, rope.marker_count(9));
    assert_eq!(Some(0), rope.index_for_nth_marker(7, 0));
    assert_eq!(Some(2), rope.index_for_nth_marker(7, 1));
    assert_eq!(Some(4), rope.index_for_nth_marker(7, 2));
    assert_eq!(Some(5), rope.index_for_nth_marker(7, 3));
    assert_eq!(None, rope.index_for_nth_marker(7, 4));
    assert_eq!(Some(3), rope.index_for_nth_marker(9, 0));
    let counts = rope.marker_counts();
    assert_eq!(2, counts.len());
    assert_eq!(Some(&4), counts.get(&7));
    assert_eq!(Some(&1), counts.get(&9));
}

#[test]
fn nth_marker_index_rises_with_n() {
    let rope = deep_marked_rope();
    let count = rope.marker_count(Marker {});
    assert_eq!(4, count);
    let mut last = None;
    for n in 0..count {
        let found = rope.index_for_nth_marker(Marker {}, n);
        assert!(found.is_some());
        assert!(found > last);
        last = found;
    }
    assert_eq!(None, rope.index_for_nth_marker(Marker {}, count));
}

#[test]
fn slicing_moves_marks_to_the_new_origin() {
    let rope = deep_marked_rope();
    // marks stand at 1, 4, 6 and 8
    let cut = rope.slice(3, 9).unwrap();
    assert_eq!(3, cut.marker_count(Marker {}));
    assert_eq!(Some(1), cut.index_for_nth_marker(Marker {}, 0));
    assert_eq!(Some(3), cut.index_for_nth_marker(Marker {}, 1));
    assert_eq!(Some(5), cut.index_for_nth_marker(Marker {}, 2));
    assert_eq!(None, cut.index_for_nth_marker(Marker {}, 3));

    let right_only = rope.slice(7, 10).unwrap();
    assert_eq!(Some(1), right_only.index_for_nth_marker(Marker {}, 0));
    assert_eq!(1, right_only.marker_count(Marker {}));

    let leaf_cut = flat_marked_rope().slice(1, 2).unwrap();
    assert_eq!(Some(0), leaf_cut.index_for_nth_marker(Marker {}, 0));
}

#[test]
fn marker_count_shrinks_with_the_range() {
    let rope = deep_marked_rope();
    let wide = rope.slice(0, 10).unwrap();
    assert_eq!(rope.marker_count(Marker {}), wide.marker_count(Marker {}));
    let outer = rope.slice(1, 9).unwrap();
    let inner = rope.slice(3, 7).unwrap();
    let inner_of_outer = outer.slice(2, 6).unwrap();
    assert_eq!(4, outer.marker_count(Marker {}));
    assert_eq!(2, inner.marker_count(Marker {}));
    assert_eq!(inner.marker_count(Marker {}), inner_of_outer.marker_count(Marker {}));
    assert!(inner.marker_count(Marker {}) <= outer.marker_count(Marker {}));
    let bare = rope.slice(2, 4).unwrap();
    assert_eq!(0, bare.marker_count(Marker {}));
    assert!(bare.marker_counts().is_empty());
}
