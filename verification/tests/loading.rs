use persistent_rope::loader::BulkLoader;
use persistent_rope::{Chunk, LoadError, Rope};

fn chunk_of(data: &[u32], marks: &[(char, usize)]) -> Chunk<u32, char> {
    let mut chunk = Chunk::with_capacity(data.len());
    chunk.extend_from_slice(data);
    for (marker, at) in marks {
        chunk.mark_at(*marker, *at).unwrap();
    }
    chunk
}

fn collect(rope: &Rope<u32, char>) -> Vec<u32> {
    let mut values = rope.iter();
    let mut out = Vec::new();
    while let Some(value) = values.next() {
        out.push(*value);
    }
    out
}

fn numbered_chunks(n: u32) -> Vec<Chunk<u32, char>> {
    (0..n)
        .map(|i| chunk_of(&[2 * i, 2 * i + 1], &[('e', 0)]))
        .collect()
}

fn load(chunks: Vec<Chunk<u32, char>>) -> Result<Rope<u32, char>, LoadError<String>> {
    let mut source = chunks.into_iter();
    Rope::from_chunks(|| Ok(source.next()))
}

#[test]
fn loading_keeps_the_order_of_the_chunks() {
    let rope = load(vec![
        chunk_of(&[1, 2, 3], &[('a', 0), ('b', 2)]),
        chunk_of(&[], &[]),
        chunk_of(&[4, 5], &[('a', 1)]),
        chunk_of(&[6], &[('b', 0)]),
        chunk_of(&[7, 8, 9], &[('a', 0), ('a', 2)]),
    ])
    .unwrap();
    assert_eq!(vec![1, 2, 3, 4, 5, 6, 7, 8, 9], collect(&rope));
    assert_eq!(9, rope.len());
    assert_eq!(4, rope.marker_count('a'));
    assert_eq!(2, rope.marker_count('b'));
    assert_eq!(Some(0), rope.index_for_nth_marker('a', 0));
    assert_eq!(Some(4), rope.index_for_nth_marker('a', 1));
    assert_eq!(Some(6), rope.index_for_nth_marker('a', 2));
    assert_eq!(Some(8), rope.index_for_nth_marker('a', 3));
    assert_eq!(Some(2), rope.index_for_nth_marker('b', 0));
    assert_eq!(Some(5), rope.index_for_nth_marker('b', 1));
    assert_eq!(3, rope.depth());
}

#[test]
fn loading_builds_the_shallowest_tree() {
    let expected = [0, 0, 1, 2, 2, 3, 3, 3, 3, 4];
    for n in 1..10u32 {
        let rope = load(numbered_chunks(n)).unwrap();
        assert_eq!(expected[n as usize], rope.depth());
        assert_eq!((0..2 * n).collect::<Vec<u32>>(), collect(&rope));
        assert_eq!(n as usize, rope.marker_count('e'));
    }
    assert_eq!(10, load(numbered_chunks(1000)).unwrap().depth());
    assert_eq!(10, load(numbered_chunks(1024)).unwrap().depth());
    assert_eq!(11, load(numbered_chunks(1025)).unwrap().depth());
}

#[test]
fn loading_one_empty_chunk_gives_an_empty_rope() {
    let rope = load(vec![chunk_of(&[], &[])]).unwrap();
    assert!(rope.is_empty());
    assert_eq!(0, rope.depth());
    assert_eq!(Vec::<u32>::new(), collect(&rope));
}

#[test]
fn loading_nothing_is_an_error() {
    assert!(matches!(load(Vec::new()), Err(LoadError::NoChunks)));
}

#[test]
fn source_error_is_handed_on() {
    let mut calls = 0;
    let result: Result<Rope<u32, char>, LoadError<String>> = Rope::from_chunks(|| {
        calls += 1;
        if calls < 3 {
            Ok(Some(chunk_of(&[calls], &[])))
        } else {
            Err(format!("failed at call {}", calls))
        }
    });
    match result {
        Err(LoadError::Source(message)) => assert_eq!("failed at call 3", message),
        _ => panic!("the source's error was not handed on"),
    }
    assert_eq!(3, calls);
}

#[test]
fn source_is_not_called_after_the_end() {
    let mut calls = 0;
    let result: Result<Rope<u32, char>, LoadError<()>> = Rope::from_chunks(|| {
        calls += 1;
        if calls == 1 {
            Ok(Some(chunk_of(&[5], &[])))
        } else {
            Ok(None)
        }
    });
    assert_eq!(vec![5], collect(&result.unwrap()));
    assert_eq!(2, calls);
}

#[test]
fn loader_merges_ropes_of_equal_depth() {
    let mut loader: BulkLoader<u32, char> = BulkLoader::new();
    assert!(loader.finish().is_none());

    let mut loader: BulkLoader<u32, char> = BulkLoader::new();
    for chunk in numbered_chunks(3) {
        assert!(loader.accept(chunk));
    }
    let rope = loader.finish().unwrap();
    assert_eq!(2, rope.depth());
    assert_eq!(vec![0, 1, 2, 3, 4, 5], collect(&rope));
    assert_eq!(Some(4), rope.index_for_nth_marker('e', 2));
}

#[test]
fn too_many_elements_are_refused() {
    // Units take no room, so two chunks can hold more than usize::MAX of them.
    let mut big: Chunk<(), char> = Chunk::with_capacity(0);
    big.extend_from_slice(&vec![(); usize::MAX]);
    let mut one: Chunk<(), char> = Chunk::with_capacity(0);
    one.push(());
    let mut loader: BulkLoader<(), char> = BulkLoader::new();
    assert!(loader.accept(big));
    assert!(!loader.accept(one));
    let rope = loader.finish().unwrap();
    assert_eq!(usize::MAX, rope.len());

    let mut big: Chunk<(), char> = Chunk::with_capacity(0);
    big.extend_from_slice(&vec![(); usize::MAX]);
    let mut one: Chunk<(), char> = Chunk::with_capacity(0);
    one.push(());
    let mut source = vec![one, big].into_iter();
    let result: Result<Rope<(), char>, LoadError<()>> = Rope::from_chunks(|| Ok(source.next()));
    assert!(matches!(result, Err(LoadError::TooLarge)));
}
