use nostr_db::db::Db;
use nostr_db::error::Error;
use nostr_db::event::{Event, EventIndex};
use nostr_db::store::CheckEventResult;

fn event(id: u8, pubkey: u8, kind: u64, created_at: u64, tags: Vec<(Vec<u8>, Vec<u8>)>) -> Event {
    Event {
        index: EventIndex {
            id: vec![id; 32],
            pubkey: vec![pubkey; 32],
            kind,
            created_at,
            delegator: None,
            expiration: None,
            tags,
        },
        payload: vec![id],
        words: None,
    }
}

#[test]
fn uncommitted_writes_are_not_seen() {
    let mut db = Db::open(false, &vec![]).unwrap();
    let mut w = db.writer();
    assert!(matches!(db.put(&mut w, &event(1, 0xaa, 1, 10, vec![])), Ok(CheckEventResult::Stored(1))));
    assert_eq!(db.get(&w.reader(), &[1u8; 32]), Some(vec![1]));
    assert_eq!(db.get(&db.reader(), &[1u8; 32]), None);
    db.commit(w);
    assert_eq!(db.get(&db.reader(), &[1u8; 32]), Some(vec![1]));
}

#[test]
fn dropped_writer_changes_nothing() {
    let mut db = Db::open(false, &vec![]).unwrap();
    {
        let mut w = db.writer();
        assert!(matches!(db.put(&mut w, &event(1, 0xaa, 1, 10, vec![])), Ok(CheckEventResult::Stored(1))));
    }
    assert_eq!(db.get(&db.reader(), &[1u8; 32]), None);
    let mut w = db.writer();
    assert!(matches!(db.put(&mut w, &event(1, 0xaa, 1, 10, vec![])), Ok(CheckEventResult::Stored(1))));
    db.commit(w);
    assert_eq!(db.reader().tables().seq(), 1);
}

#[test]
fn batch_put_skips_repeated_ids_and_counts() {
    let mut db = Db::open(false, &vec![]).unwrap();
    let mut second = event(1, 0xaa, 1, 99, vec![]);
    second.payload = vec![77];
    let batch = vec![
        event(3, 0xaa, 1, 30, vec![]),
        event(1, 0xaa, 1, 10, vec![]),
        second,
        event(2, 0xaa, 1, 20, vec![]),
    ];
    assert_eq!(db.batch_put(&batch), Ok(3));
    assert_eq!(db.get(&db.reader(), &[1u8; 32]), Some(vec![1]));
    // ids are ingested in their order: 1, 2, 3
    assert_eq!(
        db.reader().tables().tree(nostr_db::model::Table::IdUid).get(&[3u8; 32]),
        Some(vec![0, 0, 0, 0, 0, 0, 0, 3])
    );
    assert_eq!(db.batch_put(&batch), Ok(0));
}

#[test]
fn batch_put_counts_replaced_events() {
    let mut db = Db::open(false, &vec![]).unwrap();
    assert_eq!(db.batch_put(&vec![event(1, 0xaa, 0, 10, vec![])]), Ok(1));
    assert_eq!(db.batch_put(&vec![event(2, 0xaa, 0, 20, vec![]), event(3, 0xbb, 1, 5, vec![])]), Ok(3));
}

#[test]
fn batch_get_and_del() {
    let mut db = Db::open(false, &vec![]).unwrap();
    let batch = vec![event(1, 0xaa, 1, 10, vec![]), event(2, 0xaa, 1, 20, vec![]), event(3, 0xaa, 1, 30, vec![])];
    assert_eq!(db.batch_put(&batch), Ok(3));
    let ids = vec![vec![3u8; 32], vec![9u8; 32], vec![1u8; 32]];
    assert_eq!(db.batch_get(&ids), vec![vec![3u8], vec![1u8]]);
    db.batch_del(&ids);
    assert_eq!(db.batch_get(&ids), Vec::<Vec<u8>>::new());
    assert_eq!(db.batch_get(&vec![vec![2u8; 32]]), vec![vec![2u8]]);
    let mut w = db.writer();
    assert!(!db.del(&mut w, &[1u8; 32]));
    assert!(db.del(&mut w, &[2u8; 32]));
}

#[test]
fn reopened_database_goes_on_after_the_last_uid() {
    let records = vec![
        (3u64, event(1, 0xaa, 1, 10, vec![])),
        (7u64, event(2, 0xaa, 5, 20, vec![(b"e".to_vec(), vec![9u8; 32])])),
    ];
    let db = match Db::open(false, &records) {
        Ok(db) => db,
        Err(e) => panic!("{:?}", e),
    };
    assert_eq!(db.reader().tables().seq(), 7);
    assert_eq!(db.get(&db.reader(), &[1u8; 32]), Some(vec![1]));
    assert_eq!(
        nostr_db::store::latest_seq(db.reader().tables().tree(nostr_db::model::Table::Data)),
        Ok(7)
    );
    let mut w = db.writer();
    // the tombstone of the deletion event was laid again
    let mut blocked = event(9, 0xaa, 1, 5, vec![]);
    assert!(matches!(db.put(&mut w, &blocked), Ok(CheckEventResult::Deleted)));
    blocked.index.pubkey = vec![0xbb; 32];
    assert!(matches!(db.put(&mut w, &blocked), Ok(CheckEventResult::Stored(1))));
    assert_eq!(
        w.reader().tables().tree(nostr_db::model::Table::IdUid).get(&[9u8; 32]),
        Some(vec![0, 0, 0, 0, 0, 0, 0, 8])
    );
}

#[test]
fn a_list_that_no_database_held_is_refused() {
    let unordered = vec![(3u64, event(1, 0xaa, 1, 10, vec![])), (3u64, event(2, 0xaa, 1, 20, vec![]))];
    assert!(matches!(Db::open(false, &unordered), Err(Error::Substrate)));
    let twice = vec![(1u64, event(1, 0xaa, 1, 10, vec![])), (2u64, event(1, 0xaa, 1, 20, vec![]))];
    assert!(matches!(Db::open(false, &twice), Err(Error::Substrate)));
    let clash = vec![(1u64, event(1, 0xaa, 0, 10, vec![])), (2u64, event(2, 0xaa, 0, 20, vec![]))];
    assert!(matches!(Db::open(false, &clash), Err(Error::Substrate)));
    let zero = vec![(0u64, event(1, 0xaa, 1, 10, vec![]))];
    assert!(matches!(Db::open(false, &zero), Err(Error::Substrate)));
    assert_eq!(nostr_db::store::latest_seq(Db::open(false, &vec![]).unwrap().reader().tables().tree(nostr_db::model::Table::Data)), Ok(0));
}
