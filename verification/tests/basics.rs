use persistent_rope::{IndexError, RangeError, Rope};

fn sample_flat_rope() -> Rope<usize> {
    Rope::new(&vec![0, 1, 2])
}

fn sample_deep_rope() -> Rope<usize> {
    let v1 = &vec![0, 1, 2];
    let v2 = &vec![3, 4, 5];
    let v3 = &vec![6, 7, 8];

    Rope::concat(&Rope::new(v1), &Rope::concat(&Rope::new(v2), &Rope::new(v3)))
}

fn collect(rope: &Rope<usize>) -> Vec<usize> {
    let mut values = rope.iter();
    let mut out = Vec::new();
    while let Some(value) = values.next() {
        out.push(*value);
    }
    out
}

#[test]
fn length() {
    let empty: Vec<usize> = Vec::new();
    let empty_rope: Rope<usize> = Rope::new(&empty);
    assert_eq!(0, empty_rope.len());
    assert!(empty_rope.is_empty());

    let flat_rope = sample_flat_rope();
    assert_eq!(3, flat_rope.len());
    assert!(!flat_rope.is_empty());

    let deep_rope = sample_deep_rope();
    assert_eq!(9, deep_rope.len());
    assert!(!deep_rope.is_empty());
}

#[test]
fn tests_flat() {
    // indexing
    let rope = sample_flat_rope();
    for i in 0..2 {
        assert_eq!(i, *rope.index(i).unwrap());
    }

    // iteration
    let rope = sample_flat_rope();
    assert_eq!(vec![0, 1, 2], collect(&rope));

    // slicing
    let base = sample_flat_rope();
    let sub = base.slice(1, 3).unwrap();
    assert_eq!(vec![1, 2], collect(&sub));
}

#[test]
fn tests_deep() {
    // indexing
    let rope = sample_deep_rope();
    for i in 0..8 {
        assert_eq!(i, *rope.index(i).unwrap());
    }

    // iteration
    let rope = sample_deep_rope();
    let exp = vec![0, 1, 2, 3, 4, 5, 6, 7, 8];
    assert_eq!(exp, collect(&rope));

    // slicing
    let base = sample_deep_rope();
    let sub = base.slice(1, 5).unwrap();
    assert_eq!(vec![1, 2, 3, 4], collect(&sub));
}

#[test]
fn index_out_of_bounds_is_refused() {
    assert_eq!(
        sample_flat_rope().index(3),
        Err(IndexError { index: 3, len: 3 })
    );
    assert_eq!(
        sample_deep_rope().index(9),
        Err(IndexError { index: 9, len: 9 })
    );
    assert_eq!(sample_deep_rope().index(8), Ok(&8));
}

#[test]
fn bad_ranges_are_refused() {
    let rope = sample_deep_rope();
    assert_eq!(
        rope.slice(0, 10).err(),
        Some(RangeError { start: 0, end: 10, len: 9 })
    );
    assert_eq!(
        rope.slice(3, 3).err(),
        Some(RangeError { start: 3, end: 3, len: 9 })
    );
    assert_eq!(
        rope.slice(5, 2).err(),
        Some(RangeError { start: 5, end: 2, len: 9 })
    );
    assert!(rope.slice(0, 9).is_ok());
    assert!(rope.slice(8, 9).is_ok());
}

#[test]
fn depth_counts_internal_levels() {
    assert_eq!(0, sample_flat_rope().depth());
    assert_eq!(2, sample_deep_rope().depth());
    let left_heavy = Rope::concat(&sample_deep_rope(), &sample_flat_rope());
    assert_eq!(3, left_heavy.depth());
    assert_eq!(0, sample_flat_rope().slice(0, 2).unwrap().depth());
}

#[test]
fn three_chunks_left_to_right() {
    let a: Rope<usize> = Rope::new(&vec![1, 2, 3]);
    let b: Rope<usize> = Rope::new(&vec![4, 5, 6]);
    let c: Rope<usize> = Rope::new(&vec![7, 8, 9]);
    let rope = Rope::concat(&Rope::concat(&a, &b), &c);
    assert_eq!(9, rope.len());
    assert_eq!(Ok(&5), rope.index(4));
    assert_eq!(vec![1, 2, 3, 4, 5, 6, 7, 8, 9], collect(&rope));
    assert_eq!(vec![3, 4, 5, 6], collect(&rope.slice(2, 6).unwrap()));
}

#[test]
fn concat_keeps_its_sources() {
    let a = sample_flat_rope();
    let b = sample_deep_rope();
    let joined = Rope::concat(&a, &b);
    assert_eq!(a.len() + b.len(), joined.len());
    let mut expected = collect(&a);
    expected.extend(collect(&b));
    assert_eq!(expected, collect(&joined));
    assert_eq!(vec![0, 1, 2], collect(&a));
    assert_eq!(9, b.len());
}

#[test]
fn concat_with_empty_is_identity() {
    let empty: Rope<usize> = Rope::new(&[]);
    let rope = sample_deep_rope();
    assert_eq!(collect(&rope), collect(&Rope::concat(&empty, &rope)));
    assert_eq!(collect(&rope), collect(&Rope::concat(&rope, &empty)));
    let hollow = Rope::concat(&empty, &empty);
    assert!(hollow.is_empty());
    assert_eq!(Vec::<usize>::new(), collect(&hollow));
    let padded = Rope::concat(&Rope::concat(&empty, &rope), &Rope::concat(&hollow, &rope));
    assert_eq!(18, padded.len());
    assert_eq!(Ok(&0), padded.index(9));
    let mut twice = collect(&rope);
    twice.extend(collect(&rope));
    assert_eq!(twice, collect(&padded));
}

#[test]
fn split_and_rejoin_gives_the_same_elements() {
    let rope = sample_deep_rope();
    for i in 1..rope.len() {
        let left = rope.slice(0, i).unwrap();
        let right = rope.slice(i, rope.len()).unwrap();
        assert_eq!(collect(&rope), collect(&Rope::concat(&left, &right)));
    }
}

#[test]
fn slice_agrees_with_index() {
    let rope = sample_deep_rope();
    for start in 0..rope.len() {
        for end in (start + 1)..=rope.len() {
            let cut = rope.slice(start, end).unwrap();
            assert_eq!(end - start, cut.len());
            assert!(cut.depth() <= rope.depth());
            for k in 0..(end - start) {
                assert_eq!(rope.index(start + k), cut.index(k));
            }
        }
    }
}

#[test]
fn iteration_can_be_restarted() {
    let rope = sample_deep_rope();
    let mut values = rope.iter();
    assert_eq!(Some(&0), values.next());
    assert_eq!(Some(&1), values.next());
    let mut again = rope.iter();
    assert_eq!(Some(&0), again.next());
    let mut rest = Vec::new();
    while let Some(value) = values.next() {
        rest.push(*value);
    }
    assert_eq!(vec![2, 3, 4, 5, 6, 7, 8], rest);
    assert_eq!(None, values.next());
    assert_eq!(None, values.next());
}

#[test]
fn ropes_outlive_their_sources() {
    let words: Vec<String> = ["a", "bb", "ccc", "dddd"].iter().map(|w| w.to_string()).collect();
    let cut = {
        let whole: Rope<String> = Rope::concat(&Rope::new(&words[..2]), &Rope::new(&words[2..]));
        let cut = whole.slice(1, 4).unwrap();
        assert_eq!(4, whole.len());
        cut
    };
    assert_eq!(3, cut.len());
    assert_eq!(Ok(&"bb".to_string()), cut.index(0));
    assert_eq!(Ok(&"dddd".to_string()), cut.index(2));
    let doubled = Rope::concat(&cut, &cut);
    assert_eq!(6, doubled.len());
    assert_eq!(doubled.index(1), doubled.index(4));
    assert_eq!(cut.depth() + 1, doubled.depth());
}

#[test]
fn empty_leaves_do_not_stop_iteration() {
    let empty: Rope<usize> = Rope::new(&[]);
    let one: Rope<usize> = Rope::new(&[1]);
    let two: Rope<usize> = Rope::new(&[2]);
    let left = Rope::concat(&Rope::concat(&empty, &empty), &Rope::concat(&one, &empty));
    let right = Rope::concat(&empty, &Rope::concat(&Rope::concat(&empty, &two), &empty));
    let rope = Rope::concat(&left, &right);
    assert_eq!(vec![1, 2], collect(&rope));
    assert_eq!(2, rope.len());
    assert_eq!(4, rope.depth());
    assert_eq!(Ok(&2), rope.index(1));
    assert_eq!(vec![2], collect(&rope.slice(1, 2).unwrap()));
}

#[test]
fn slice_builds_a_node_only_across_a_split() {
    let rope = sample_deep_rope();
    assert_eq!(2, rope.depth());
    // inside the left leaf, and up to the split: no node
    assert_eq!(0, rope.slice(0, 3).unwrap().depth());
    assert_eq!(0, rope.slice(1, 2).unwrap().depth());
    // inside one leaf of the right subtree: no node
    assert_eq!(0, rope.slice(3, 6).unwrap().depth());
    assert_eq!(0, rope.slice(7, 9).unwrap().depth());
    // across the inner split only: one node
    assert_eq!(1, rope.slice(3, 9).unwrap().depth());
    assert_eq!(1, rope.slice(5, 7).unwrap().depth());
    // across the outer split: a node over the cuts of both sides
    assert_eq!(1, rope.slice(2, 4).unwrap().depth());
    assert_eq!(2, rope.slice(1, 8).unwrap().depth());
    assert_eq!(2, rope.slice(0, 9).unwrap().depth());
    assert_eq!(vec![2, 3], collect(&rope.slice(2, 4).unwrap()));
}
