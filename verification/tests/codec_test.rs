//! Tests of the entry codec and the index log.

use guardian_store::{Entry, Error, Index, Operation, Position};

#[test]
fn test_entry_pack_unpack_round_trip() {
    let position = Position { segment: 3, offset: 70, length: 129 };
    let entry = Entry::new(&[1, 2, 3, 4], position);
    let packed = entry.pack();
    // tag, 4-byte key length, key, then three 8-byte location fields
    assert_eq!(packed.len(), 1 + 4 + 4 + 24);
    assert_eq!(packed[0], 1);
    let back = Entry::unpack(&packed).unwrap();
    assert_eq!(back.key, vec![1, 2, 3, 4]);
    let p = back.position.unwrap();
    assert_eq!(p.segment, 3);
    assert_eq!(p.offset, 70);
    assert_eq!(p.length, 129);
}

#[test]
fn test_tombstone_pack_unpack_round_trip() {
    let entry = Entry::tombstone(&[9, 9]);
    let packed = entry.pack();
    assert_eq!(packed.len(), 1 + 4 + 2);
    assert_eq!(packed[0], 2);
    let back = Entry::unpack(&packed).unwrap();
    assert_eq!(back.key, vec![9, 9]);
    assert!(back.position.is_none());
}

#[test]
fn test_unpack_rejects_malformed() {
    // Too short to hold even the tag and key length.
    match Entry::unpack(&[1, 0, 0]) {
        Err(Error::Format(_)) => {}
        other => panic!("expected a format error, got {:?}", other),
    }
    // An unknown version tag.
    match Entry::unpack(&[7, 0, 0, 0, 0]) {
        Err(Error::Format(_)) => {}
        other => panic!("expected a format error, got {:?}", other),
    }
    // A put entry whose byte length disagrees with its key length.
    let position = Position { segment: 1, offset: 2, length: 3 };
    let mut packed = Entry::new(&[5, 6], position).pack();
    packed.pop();
    match Entry::unpack(&packed) {
        Err(Error::Format(_)) => {}
        other => panic!("expected a format error, got {:?}", other),
    }
}

#[test]
fn test_index_replay_matches_operations() {
    let mut index = Index::new();
    let p1 = Position { segment: 1, offset: 10, length: 5 };
    let p2 = Position { segment: 1, offset: 19, length: 7 };
    index.put(b"alpha", p1).unwrap();
    index.put(b"beta", p2).unwrap();
    index.delete(b"alpha").unwrap();
    assert_eq!(index.get(b"alpha").unwrap(), None);
    let beta = index.get(b"beta").unwrap().unwrap();
    assert_eq!(beta.offset, 19);

    // Rebuild from the durable image: the tombstone must survive.
    let image = index.log_bytes();
    let rebuilt = Index::load(&image).unwrap();
    assert_eq!(rebuilt.get(b"alpha").unwrap(), None);
    assert_eq!(rebuilt.get(b"beta").unwrap().unwrap().length, 7);
    assert_eq!(rebuilt.len(), 1);
}

#[test]
fn test_index_batch_order_kept() {
    let mut index = Index::new();
    let p1 = Position { segment: 1, offset: 0, length: 1 };
    let p2 = Position { segment: 1, offset: 1, length: 1 };
    index
        .batch(vec![
            Operation::Put { key: b"k".to_vec(), position: p1 },
            Operation::Delete { key: b"k".to_vec() },
            Operation::Put { key: b"k".to_vec(), position: p2 },
        ])
        .unwrap();
    assert_eq!(index.get(b"k").unwrap().unwrap().offset, 1);
    assert_eq!(index.len(), 1);
}

#[test]
fn test_index_load_truncated_tail_is_end_of_log() {
    let mut index = Index::new();
    let p = Position { segment: 1, offset: 0, length: 4 };
    index.put(b"whole", p).unwrap();
    let mut image = index.log_bytes();
    // A partial trailing entry, as a crash mid-write would leave.
    image.extend_from_slice(&[13, 0, 0, 0, 2, 1]);
    let rebuilt = Index::load(&image).unwrap();
    assert_eq!(rebuilt.len(), 1);
    assert!(rebuilt.get(b"whole").unwrap().is_some());
}

#[test]
fn test_index_load_rejects_malformed_entry() {
    // A complete frame whose entry bytes carry an unknown tag.
    let image = vec![5u8, 0, 0, 0, 9, 0, 0, 0, 0];
    match Index::load(&image) {
        Err(Error::Format(_)) => {}
        Err(other) => panic!("expected a format error, got {:?}", other),
        Ok(_) => panic!("expected a format error, got a loaded index"),
    }
}
