use nuts::container::{Container, ContainerError};
use nuts::memory::{MemErr, MemId, MemoryBackend};
use nuts::stream::{Block, Stream};
use nuts::testutils::{setup_container, setup_one, setup_three, setup_two, setup_two_with};

fn next(stream: &mut Stream<MemoryBackend>, container: &mut Container<MemoryBackend>) -> MemId {
    stream.next_block(container).unwrap().unwrap()
}

fn prev(stream: &mut Stream<MemoryBackend>, container: &mut Container<MemoryBackend>) -> MemId {
    stream.prev_block(container).unwrap().unwrap()
}

fn payload(
    stream: &Stream<MemoryBackend>,
    container: &mut Container<MemoryBackend>,
) -> Vec<u8> {
    stream.current_payload(container).unwrap()
}

#[test]
fn one_block_boundaries() {
    let (mut container, id) = setup_one().unwrap();
    let mut stream = Stream::new(id);

    assert_eq!(payload(&stream, &mut container), vec![1, 2, 3]);
    assert!(stream.next_block(&mut container).is_none());
    assert!(stream.prev_block(&mut container).is_none());
    assert_eq!(stream.current(), id);
}

#[test]
fn two_block_traversal() {
    let (mut container, (id1, id2)) = setup_two().unwrap();
    let mut stream = Stream::new(id1);

    assert_eq!(payload(&stream, &mut container), vec![1, 2, 3]);
    assert_eq!(next(&mut stream, &mut container), id2);
    assert_eq!(payload(&stream, &mut container), vec![4, 5, 6]);
    assert!(stream.next_block(&mut container).is_none());
    assert_eq!(stream.current(), id2);

    assert_eq!(prev(&mut stream, &mut container), id1);
    assert_eq!(payload(&stream, &mut container), vec![1, 2, 3]);
    assert!(stream.prev_block(&mut container).is_none());
    assert_eq!(stream.current(), id1);
}

#[test]
fn three_block_traversal() {
    let (mut container, (id1, id2, id3)) = setup_three().unwrap();
    let mut stream = Stream::new(id1);

    assert_eq!(next(&mut stream, &mut container), id2);
    assert_eq!(next(&mut stream, &mut container), id3);
    assert_eq!(payload(&stream, &mut container), vec![7, 8, 9]);
    assert!(stream.next_block(&mut container).is_none());

    assert_eq!(prev(&mut stream, &mut container), id2);
    assert_eq!(prev(&mut stream, &mut container), id1);
    assert!(stream.prev_block(&mut container).is_none());
}

#[test]
fn walk_collects_all_payloads() {
    let (mut container, (id1, _, _)) = setup_three().unwrap();
    let stream = Stream::new(id1);

    let payloads = stream.walk(&mut container);
    assert_eq!(
        payloads,
        vec![vec![1, 2, 3], vec![4, 5, 6], vec![7, 8, 9]]
    );
}

#[test]
fn walk_restarts_from_cursor() {
    let (mut container, (id1, _)) = setup_two_with(&[10], &[20, 30]).unwrap();
    let mut stream = Stream::new(id1);

    assert_eq!(stream.walk(&mut container), vec![vec![10], vec![20, 30]]);
    assert_eq!(stream.walk(&mut container), vec![vec![10], vec![20, 30]]);

    next(&mut stream, &mut container);
    assert_eq!(stream.walk(&mut container), vec![vec![20, 30]]);
}

#[test]
fn insert_after_cursor_mid_chain() {
    let (mut container, (id1, id2, id3)) = setup_three().unwrap();
    let mut stream = Stream::new(id1);

    let new_id = stream.insert(&mut container, &[10, 11]).unwrap();
    assert_eq!(stream.current(), new_id);
    assert_ne!(new_id, id1);
    assert_ne!(new_id, id2);
    assert_ne!(new_id, id3);

    // Forward walk sees the four-node chain in splice order.
    let mut walker = Stream::new(id1);
    assert_eq!(payload(&walker, &mut container), vec![1, 2, 3]);
    assert_eq!(next(&mut walker, &mut container), new_id);
    assert_eq!(payload(&walker, &mut container), vec![10, 11]);
    assert_eq!(next(&mut walker, &mut container), id2);
    assert_eq!(next(&mut walker, &mut container), id3);
    assert!(walker.next_block(&mut container).is_none());

    // All back links were updated.
    assert_eq!(prev(&mut walker, &mut container), id2);
    assert_eq!(prev(&mut walker, &mut container), new_id);
    assert_eq!(prev(&mut walker, &mut container), id1);
    assert!(walker.prev_block(&mut container).is_none());
}

#[test]
fn insert_at_tail() {
    let (mut container, id) = setup_one().unwrap();
    let mut stream = Stream::new(id);

    let new_id = stream.insert(&mut container, &[4, 4, 4]).unwrap();
    assert_eq!(stream.current(), new_id);
    assert!(stream.next_block(&mut container).is_none());
    assert_eq!(prev(&mut stream, &mut container), id);

    let walker = Stream::new(id);
    assert_eq!(walker.walk(&mut container), vec![vec![1, 2, 3], vec![4, 4, 4]]);
}

#[test]
fn chain_built_by_repeated_insert_walks_both_ways() {
    let (mut container, id) = setup_one().unwrap();
    let mut stream = Stream::new(id);

    stream.insert(&mut container, &[2]).unwrap();
    stream.insert(&mut container, &[3]).unwrap();
    let tail = stream.insert(&mut container, &[4]).unwrap();

    let walker = Stream::new(id);
    assert_eq!(
        walker.walk(&mut container),
        vec![vec![1, 2, 3], vec![2], vec![3], vec![4]]
    );

    // Backward from the tail: the same payloads in reverse, then the
    // boundary at the head.
    let mut back: Stream<MemoryBackend> = Stream::new(tail);
    let mut collected = vec![payload(&back, &mut container)];
    while let Some(step) = back.prev_block(&mut container) {
        step.unwrap();
        collected.push(payload(&back, &mut container));
    }
    assert_eq!(collected, vec![vec![4], vec![3], vec![2], vec![1, 2, 3]]);
    assert!(back.prev_block(&mut container).is_none());
}

#[test]
fn insert_front_moves_head() {
    let (mut container, (id1, id2)) = setup_two().unwrap();
    let mut stream = Stream::new(id1);

    let new_head = stream.insert_front(&mut container, &[0, 0]).unwrap();
    assert_eq!(stream.current(), new_head);

    // The new head is its own predecessor boundary.
    assert!(stream.prev_block(&mut container).is_none());

    // The chain now has one more node, and the old head follows the new.
    assert_eq!(next(&mut stream, &mut container), id1);
    assert_eq!(payload(&stream, &mut container), vec![1, 2, 3]);
    assert_eq!(next(&mut stream, &mut container), id2);
    assert!(stream.next_block(&mut container).is_none());

    // The second node's predecessor link refers to the new head.
    assert_eq!(prev(&mut stream, &mut container), id1);
    assert_eq!(prev(&mut stream, &mut container), new_head);

    let walker = Stream::new(new_head);
    assert_eq!(
        walker.walk(&mut container),
        vec![vec![0, 0], vec![1, 2, 3], vec![4, 5, 6]]
    );
}

#[test]
fn insert_front_retags_old_head() {
    let (mut container, id) = setup_one().unwrap();
    let mut stream = Stream::new(id);
    let new_head = stream.insert_front(&mut container, &[9]).unwrap();

    let new_bytes = container.read(&new_head).unwrap();
    let new_block = Block::<MemId>::decode(new_bytes.as_slice()).unwrap();
    assert!(new_block.head);
    assert_eq!(new_block.prev, new_head);
    assert_eq!(new_block.next, id);

    let old_bytes = container.read(&id).unwrap();
    let old_block = Block::<MemId>::decode(old_bytes.as_slice()).unwrap();
    assert!(!old_block.head);
    assert_eq!(old_block.prev, new_head);
    assert_eq!(old_block.payload, vec![1, 2, 3]);
}

#[test]
fn traversal_fault_is_an_error_not_a_boundary() {
    let (mut container, _) = setup_one().unwrap();
    // An acquired but never written block: reading it is a backend fault.
    let empty_id = container.aquire().unwrap();
    let mut stream = Stream::new(empty_id);

    match stream.next_block(&mut container) {
        Some(Err(ContainerError::Backend(MemErr::NoContent))) => {},
        _ => panic!("expected a backend error"),
    }
    match stream.prev_block(&mut container) {
        Some(Err(ContainerError::Backend(MemErr::NoContent))) => {},
        _ => panic!("expected a backend error"),
    }
    assert!(stream.current_payload(&mut container).is_err());
}

#[test]
fn corrupt_block_is_a_bytes_error() {
    let mut container = setup_container().unwrap();
    let id = container.aquire().unwrap();
    container.write(&id, &[0, 1, 2, 3, 4, 5, 6, 7, 8, 9]).unwrap();

    let mut stream = Stream::new(id);
    match stream.next_block(&mut container) {
        Some(Err(ContainerError::Bytes(_))) => {},
        _ => panic!("expected a bytes error"),
    }
}
