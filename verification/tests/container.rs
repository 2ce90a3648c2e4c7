use nuts::container::ContainerError;
use nuts::memory::{MemErr, MemId};
use nuts::stream::Block;
use nuts::testutils::{make_block, setup_container};

#[test]
fn acquired_ids_are_distinct_and_not_null() {
    let mut container = setup_container().unwrap();
    let id1 = container.aquire().unwrap();
    let id2 = container.aquire().unwrap();
    let id3 = container.aquire().unwrap();
    assert_ne!(id1, id2);
    assert_ne!(id2, id3);
    assert_ne!(id1, id3);
}

#[test]
fn write_then_read_verbatim() {
    let mut container = setup_container().unwrap();
    let id = container.aquire().unwrap();
    container.write(&id, &[0xde, 0xad, 0xbe, 0xef]).unwrap();
    assert_eq!(container.read(&id).unwrap(), vec![0xde, 0xad, 0xbe, 0xef]);

    // Overwriting replaces the whole content.
    container.write(&id, &[1]).unwrap();
    assert_eq!(container.read(&id).unwrap(), vec![1]);
}

#[test]
fn read_of_unwritten_block_fails() {
    let mut container = setup_container().unwrap();
    let id = container.aquire().unwrap();
    match container.read(&id).unwrap_err() {
        ContainerError::Backend(MemErr::NoContent) => {},
        _ => panic!("expected the no-content backend error"),
    }
}

#[test]
fn foreign_id_is_invalid() {
    let mut donor = setup_container().unwrap();
    let foreign = donor.aquire().unwrap();

    // A fresh container never handed this id out.
    let mut container = setup_container().unwrap();
    match container.read(&foreign).unwrap_err() {
        ContainerError::Backend(MemErr::InvalidId) => {},
        _ => panic!("expected the invalid-id backend error"),
    }
    match container.write(&foreign, &[1, 2]).unwrap_err() {
        ContainerError::Backend(MemErr::InvalidId) => {},
        _ => panic!("expected the invalid-id backend error"),
    }
}

#[test]
fn make_block_lays_out_the_wire_header() {
    let mut container = setup_container().unwrap();
    let id = container.aquire().unwrap();
    let other = container.aquire().unwrap();
    make_block(&mut container, &id, true, &id, &other, &[0xaa, 0xbb]).unwrap();

    let bytes = container.read(&id).unwrap();
    // magic "stream0", prev, next, length, payload
    assert_eq!(&bytes[..7], b"stream0");
    assert_eq!(bytes.len(), 7 + 4 + 4 + 4 + 2);
    assert_eq!(&bytes[15..19], &[0, 0, 0, 2]);
    assert_eq!(&bytes[19..], &[0xaa, 0xbb]);

    let block = Block::<MemId>::decode(bytes.as_slice()).unwrap();
    assert!(block.head);
    assert_eq!(block.prev, id);
    assert_eq!(block.next, other);
    assert_eq!(block.payload, vec![0xaa, 0xbb]);
}

#[test]
fn block_decode_rejects_unknown_tag() {
    let mut good = Vec::new();
    good.extend_from_slice(b"streamx");
    good.extend_from_slice(&[0, 0, 0, 1]);
    good.extend_from_slice(&[0, 0, 0, 0]);
    good.extend_from_slice(&[0, 0, 0, 0]);
    assert!(Block::<MemId>::decode(good.as_slice()).is_err());
}

#[test]
fn block_decode_rejects_length_mismatch() {
    let mut bytes = Vec::new();
    bytes.extend_from_slice(b"streamn");
    bytes.extend_from_slice(&[0, 0, 0, 1]);
    bytes.extend_from_slice(&[0, 0, 0, 0]);
    bytes.extend_from_slice(&[0, 0, 0, 5]);
    bytes.extend_from_slice(&[1, 2, 3]);
    assert!(Block::<MemId>::decode(bytes.as_slice()).is_err());
}

#[test]
fn block_encode_decode_round_trip() {
    let mut container = setup_container().unwrap();
    let a = container.aquire().unwrap();
    let b = container.aquire().unwrap();
    let block = Block { head: false, prev: a, next: b, payload: vec![5, 6, 7, 8] };
    let bytes = block.encode();
    assert_eq!(&bytes[..7], b"streamn");
    let back = Block::<MemId>::decode(bytes.as_slice()).unwrap();
    assert!(!back.head);
    assert_eq!(back.prev, a);
    assert_eq!(back.next, b);
    assert_eq!(back.payload, vec![5, 6, 7, 8]);
}
