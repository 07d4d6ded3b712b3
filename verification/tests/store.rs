use nostr_db::bytes::u64_to_ver;
use nostr_db::error::Error;
use nostr_db::event::{Event, EventIndex};
use nostr_db::model::Table;
use nostr_db::store::{CheckEventResult, Store};

fn event(id: u8, pubkey: u8, kind: u64, created_at: u64, tags: Vec<(Vec<u8>, Vec<u8>)>) -> Event {
    Event {
        index: EventIndex {
            id: vec![id; 32],
            pubkey: vec![pubkey; 32],
            kind,
            created_at,
            delegator: None,
            expiration: None,
            tags,
        },
        payload: format!("{{\"id\":{}}}", id).into_bytes(),
        words: None,
    }
}

fn stored(r: Result<CheckEventResult, Error>) -> usize {
    match r {
        Ok(CheckEventResult::Stored(n)) => n,
        other => panic!("not stored: {:?}", other),
    }
}

#[test]
fn first_event_gets_uid_one() {
    let mut s = Store::new(false);
    let e = event(1, 0xaa, 1, 1000, vec![]);
    assert_eq!(stored(s.put(&e)), 1);
    assert_eq!(s.tree(Table::IdUid).get(&[1u8; 32]), Some(u64_to_ver(1)));
    assert_eq!(s.tree(Table::IdUid).get(&[1u8; 32]), Some(vec![0, 0, 0, 0, 0, 0, 0, 1]));
    assert_eq!(s.tree(Table::Time).get(&u64_to_ver(1000)), Some(u64_to_ver(1)));
    assert_eq!(s.tree(Table::Data).get(&u64_to_ver(1)), Some(e.payload.clone()));
    assert_eq!(s.get(&[1u8; 32]), Some(e.payload.clone()));
    assert_eq!(s.seq(), 1);
}

#[test]
fn second_put_is_duplicate_and_takes_no_uid() {
    let mut s = Store::new(false);
    let e = event(1, 0xaa, 1, 1000, vec![]);
    assert_eq!(stored(s.put(&e)), 1);
    assert!(matches!(s.put(&e), Ok(CheckEventResult::Duplicate)));
    assert_eq!(s.seq(), 1);
    assert_eq!(s.tree(Table::Data).len(), 1);
    assert_eq!(s.tree(Table::Time).len(), 1);
}

#[test]
fn deletion_event_removes_target_and_blocks_it() {
    let mut s = Store::new(false);
    let e = event(1, 0xaa, 1, 1000, vec![]);
    assert_eq!(stored(s.put(&e)), 1);
    let k5 = event(2, 0xaa, 5, 1001, vec![(b"e".to_vec(), vec![1u8; 32])]);
    assert_eq!(stored(s.put(&k5)), 2);
    assert_eq!(s.tree(Table::Data).get(&u64_to_ver(1)), None);
    assert_eq!(s.get(&[1u8; 32]), None);
    let mut key = vec![1u8; 32];
    key.extend_from_slice(&[0xaa; 32]);
    assert_eq!(s.deletion_tree().get(&key), Some(u64_to_ver(2)));
    assert!(matches!(s.put(&e), Ok(CheckEventResult::Deleted)));
    assert_eq!(s.get(&[2u8; 32]), Some(k5.payload.clone()));
    assert_eq!(s.tree(Table::Data).len(), 1);
}

#[test]
fn deletion_by_other_author_is_stored_but_deletes_nothing() {
    let mut s = Store::new(false);
    let e = event(1, 0xaa, 1, 1000, vec![]);
    assert_eq!(stored(s.put(&e)), 1);
    let k5 = event(2, 0xbb, 5, 1001, vec![(b"e".to_vec(), vec![1u8; 32])]);
    assert_eq!(stored(s.put(&k5)), 1);
    assert_eq!(s.get(&[1u8; 32]), Some(e.payload.clone()));
    assert_eq!(s.get(&[2u8; 32]), Some(k5.payload.clone()));
    assert!(matches!(s.put(&e), Ok(CheckEventResult::Duplicate)));
}

#[test]
fn deletion_by_delegator_removes_target() {
    let mut s = Store::new(false);
    let mut e = event(1, 0xaa, 1, 1000, vec![]);
    e.index.delegator = Some(vec![0xcc; 32]);
    assert_eq!(stored(s.put(&e)), 1);
    assert_eq!(s.tree(Table::Pubkey).len(), 2);
    assert_eq!(s.tree(Table::PubkeyKind).len(), 2);
    let k5 = event(2, 0xcc, 5, 1001, vec![(b"e".to_vec(), vec![1u8; 32])]);
    assert_eq!(stored(s.put(&k5)), 2);
    assert_eq!(s.get(&[1u8; 32]), None);
    assert_eq!(s.tree(Table::Pubkey).len(), 1);
}

#[test]
fn deletion_event_does_not_delete_deletion_event() {
    let mut s = Store::new(false);
    let a = event(1, 0xaa, 5, 1000, vec![(b"e".to_vec(), vec![9u8; 32])]);
    assert_eq!(stored(s.put(&a)), 1);
    let b = event(2, 0xaa, 5, 1001, vec![(b"e".to_vec(), vec![1u8; 32])]);
    assert_eq!(stored(s.put(&b)), 1);
    assert_eq!(s.get(&[1u8; 32]), Some(a.payload.clone()));
}

#[test]
fn repeated_target_is_counted_once() {
    let mut s = Store::new(false);
    assert_eq!(stored(s.put(&event(1, 0xaa, 1, 1000, vec![]))), 1);
    assert_eq!(stored(s.put(&event(3, 0xaa, 1, 1000, vec![]))), 1);
    let k5 = event(
        2,
        0xaa,
        5,
        1001,
        vec![
            (b"e".to_vec(), vec![1u8; 32]),
            (b"p".to_vec(), vec![3u8; 32]),
            (b"e".to_vec(), vec![1u8; 32]),
            (b"e".to_vec(), vec![3u8; 32]),
            (b"e".to_vec(), vec![7u8; 32]),
        ],
    );
    assert_eq!(stored(s.put(&k5)), 3);
    assert_eq!(s.tree(Table::Data).len(), 1);
    assert_eq!(s.deletion_tree().len(), 3);
}

#[test]
fn older_replaceable_event_is_ignored() {
    let mut s = Store::new(false);
    let b1 = event(0xb1, 0xbb, 10002, 500, vec![]);
    let b2 = event(0xb2, 0xbb, 10002, 400, vec![]);
    assert_eq!(stored(s.put(&b1)), 1);
    assert!(matches!(s.put(&b2), Ok(CheckEventResult::ReplaceIgnored)));
    assert_eq!(s.get(&[0xb1; 32]), Some(b1.payload.clone()));
    assert_eq!(s.get(&[0xb2; 32]), None);
    assert_eq!(s.seq(), 1);
}

#[test]
fn newer_replaceable_event_replaces() {
    let mut s = Store::new(false);
    let b1 = event(0xb1, 0xbb, 10002, 400, vec![]);
    let b2 = event(0xb2, 0xbb, 10002, 500, vec![]);
    assert_eq!(stored(s.put(&b1)), 1);
    assert_eq!(stored(s.put(&b2)), 2);
    assert_eq!(s.get(&[0xb1; 32]), None);
    assert_eq!(s.get(&[0xb2; 32]), Some(b2.payload.clone()));
    assert_eq!(s.tree(Table::Replacement).len(), 1);
    assert_eq!(s.tree(Table::Data).len(), 1);
}

#[test]
fn equal_time_replaceable_event_replaces() {
    let mut s = Store::new(false);
    assert_eq!(stored(s.put(&event(0xb1, 0xbb, 0, 400, vec![]))), 1);
    assert_eq!(stored(s.put(&event(0xb2, 0xbb, 0, 400, vec![]))), 2);
    assert_eq!(s.get(&[0xb1; 32]), None);
}

#[test]
fn parameterized_kind_is_keyed_by_d_tag() {
    let mut s = Store::new(false);
    let a = event(1, 0xbb, 30000, 400, vec![(b"d".to_vec(), b"x".to_vec())]);
    let b = event(2, 0xbb, 30000, 500, vec![(b"d".to_vec(), b"y".to_vec())]);
    let c = event(3, 0xbb, 30000, 600, vec![(b"t".to_vec(), b"z".to_vec()), (b"d".to_vec(), b"x".to_vec())]);
    assert_eq!(stored(s.put(&a)), 1);
    assert_eq!(stored(s.put(&b)), 1);
    assert_eq!(stored(s.put(&c)), 2);
    assert_eq!(s.get(&[1u8; 32]), None);
    assert_eq!(s.tree(Table::Replacement).len(), 2);
    assert_eq!(s.tree(Table::Tag).len(), 3);
}

#[test]
fn wrong_shape_is_invalid() {
    let mut s = Store::new(false);
    let mut e = event(1, 0xaa, 1, 1000, vec![]);
    e.index.id = vec![1u8; 31];
    match s.put(&e) {
        Ok(CheckEventResult::Invalid(m)) => assert_eq!(m, "invalid event id or pubkey"),
        other => panic!("{:?}", other),
    }
    let mut e = event(1, 0xaa, 1, 1000, vec![]);
    e.index.pubkey = vec![];
    assert!(matches!(s.put(&e), Ok(CheckEventResult::Invalid(_))));
    let long = event(1, 0xaa, 1, 1000, vec![(b"t".to_vec(), vec![b'a'; 256])]);
    match s.put(&long) {
        Ok(CheckEventResult::Invalid(m)) => assert_eq!(m, "invalid tag value"),
        other => panic!("{:?}", other),
    }
    let fits = event(1, 0xaa, 1, 1000, vec![(b"t".to_vec(), vec![b'a'; 255])]);
    assert_eq!(stored(s.put(&fits)), 1);
    assert_eq!(s.seq(), 1);
}

#[test]
fn del_is_the_inverse_of_put() {
    let mut s = Store::new(false);
    let mut e = event(1, 0xaa, 30000, 1000, vec![(b"d".to_vec(), b"x".to_vec()), (b"t".to_vec(), b"nostr".to_vec())]);
    e.index.delegator = Some(vec![0xcc; 32]);
    e.index.expiration = Some(5000);
    e.words = Some(vec![b"hello".to_vec(), b"world".to_vec()]);
    assert_eq!(stored(s.put(&e)), 1);
    assert_eq!(s.tree(Table::Word).len(), 2);
    assert_eq!(s.tree(Table::UidWord).len(), 1);
    assert_eq!(s.tree(Table::Expiration).len(), 1);
    assert_eq!(s.tree(Table::Tag).len(), 2);
    assert!(s.del(&[1u8; 32]));
    for t in [
        Table::Data,
        Table::Index,
        Table::IdUid,
        Table::UidWord,
        Table::Id,
        Table::Pubkey,
        Table::Kind,
        Table::PubkeyKind,
        Table::Time,
        Table::Tag,
        Table::Replacement,
        Table::Expiration,
        Table::Word,
    ] {
        assert_eq!(s.tree(t).len(), 0);
    }
    assert!(!s.del(&[1u8; 32]));
    assert_eq!(s.seq(), 1);
    assert_eq!(stored(s.put(&e)), 1);
    assert_eq!(s.tree(Table::IdUid).get(&[1u8; 32]), Some(u64_to_ver(2)));
}

#[test]
fn deleting_a_deletion_event_lifts_its_tombstones() {
    let mut s = Store::new(false);
    let e = event(1, 0xaa, 1, 1000, vec![]);
    let k5 = event(2, 0xaa, 5, 1001, vec![(b"e".to_vec(), vec![1u8; 32])]);
    assert_eq!(stored(s.put(&k5)), 1);
    assert!(matches!(s.put(&e), Ok(CheckEventResult::Deleted)));
    assert!(s.del(&[2u8; 32]));
    assert_eq!(s.deletion_tree().len(), 0);
    assert_eq!(stored(s.put(&e)), 1);
}

#[test]
fn compressed_payload_is_marked() {
    let mut s = Store::new(true);
    let mut e = event(1, 0xaa, 1, 1000, vec![]);
    e.payload = vec![b'x'; 500];
    assert_eq!(stored(s.put(&e)), 1);
    let kept = s.get(&[1u8; 32]).unwrap();
    assert_eq!(kept.last(), Some(&1u8));
    assert!(kept.len() < 500);
    assert_eq!(nostr_db::payload::decode_event(&kept, true), Ok(e.payload.clone()));
}

#[test]
fn copy_is_independent() {
    let mut s = Store::new(false);
    assert_eq!(stored(s.put(&event(1, 0xaa, 1, 1000, vec![]))), 1);
    let mut c = s.copy();
    assert_eq!(stored(c.put(&event(2, 0xaa, 1, 1001, vec![]))), 1);
    assert_eq!(s.get(&[2u8; 32]), None);
    assert!(c.get(&[2u8; 32]).is_some());
    assert_eq!(s.seq(), 1);
    assert_eq!(c.seq(), 2);
}

#[test]
fn a_tombstone_stays_while_a_deletion_event_that_lays_it_lives() {
    let mut s = Store::new(false);
    let e = event(1, 0xaa, 1, 1000, vec![]);
    let k1 = event(2, 0xaa, 5, 1001, vec![(b"e".to_vec(), vec![1u8; 32])]);
    let k2 = event(3, 0xaa, 5, 1002, vec![(b"e".to_vec(), vec![1u8; 32])]);
    assert_eq!(stored(s.put(&k1)), 1);
    assert_eq!(stored(s.put(&k2)), 1);
    assert_eq!(s.deletion_tree().len(), 2);
    assert!(s.del(&[2u8; 32]));
    assert!(matches!(s.put(&e), Ok(CheckEventResult::Deleted)));
    assert_eq!(s.deletion_tree().len(), 1);
    assert!(s.del(&[3u8; 32]));
    assert_eq!(s.deletion_tree().len(), 0);
    assert_eq!(stored(s.put(&e)), 1);
}

#[test]
fn a_stored_id_put_again_is_a_duplicate_whatever_its_tags() {
    let mut s = Store::new(false);
    assert_eq!(stored(s.put(&event(1, 0xaa, 1, 1000, vec![]))), 1);
    let long = event(1, 0xaa, 1, 1000, vec![(b"t".to_vec(), vec![b'a'; 256])]);
    assert!(matches!(s.put(&long), Ok(CheckEventResult::Duplicate)));
    let mut k5 = event(2, 0xbb, 5, 1001, vec![(b"e".to_vec(), vec![9u8; 32])]);
    assert_eq!(stored(s.put(&k5)), 1);
    let mut blocked = event(9, 0xbb, 1, 1, vec![(b"t".to_vec(), vec![b'a'; 256])]);
    assert!(matches!(s.put(&blocked), Ok(CheckEventResult::Deleted)));
    blocked.index.delegator = Some(vec![1, 2, 3]);
    assert!(matches!(s.put(&blocked), Ok(CheckEventResult::Deleted)));
    k5.index.id = vec![4u8; 32];
    k5.index.delegator = Some(vec![1, 2, 3]);
    match s.put(&k5) {
        Ok(CheckEventResult::Invalid(m)) => assert_eq!(m, "invalid delegator"),
        other => panic!("{:?}", other),
    }
}

#[test]
fn an_uncompressed_payload_that_ends_in_the_mark_reads_back() {
    let mut s = Store::new(false);
    let mut e = event(1, 0xaa, 1, 1000, vec![]);
    e.payload = vec![7, 7, 1];
    assert_eq!(stored(s.put(&e)), 1);
    let kept = s.get(&[1u8; 32]).unwrap();
    assert_eq!(kept, vec![7, 7, 1]);
    assert_eq!(nostr_db::payload::decode_event(&kept, false), Ok(vec![7, 7, 1]));
    assert_eq!(nostr_db::payload::decode_event(&[7, 7], true), Err(Error::Serialization));
}
