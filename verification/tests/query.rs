use nostr_db::db::Db;
use nostr_db::error::Error;
use nostr_db::event::{Event, EventIndex};
use nostr_db::filter::Filter;
use nostr_db::hexcodec::encode_hex;
use nostr_db::plan::MatchIndex;
use nostr_db::query::Iter;
use nostr_db::store::CheckEventResult;

fn event(id: u8, pubkey: u8, kind: u64, created_at: u64, tags: Vec<(Vec<u8>, Vec<u8>)>) -> Event {
    Event {
        index: EventIndex {
            id: vec![id; 32],
            pubkey: vec![pubkey; 32],
            kind,
            created_at,
            delegator: None,
            expiration: None,
            tags,
        },
        payload: vec![id],
        words: None,
    }
}

fn tag(name: &str, value: &str) -> (Vec<u8>, Vec<u8>) {
    (name.as_bytes().to_vec(), value.as_bytes().to_vec())
}

fn filled(events: &[Event]) -> Db {
    let mut db = Db::open(false, &vec![]).unwrap();
    let mut w = db.writer();
    for e in events {
        match db.put(&mut w, e) {
            Ok(CheckEventResult::Stored(_)) => {}
            other => panic!("not stored: {:?}", other),
        }
    }
    db.commit(w);
    db
}

fn run(db: &Db, filter: &Filter) -> Vec<u8> {
    let reader = db.reader();
    let mut it = db.iter(&reader, filter).unwrap();
    let mut out = vec![];
    while let Some(item) = it.next() {
        out.push(item.unwrap()[0]);
    }
    out
}

fn hex(b: &[u8]) -> Vec<u8> {
    encode_hex(b)
}

#[test]
fn replaceable_query_returns_only_the_winner() {
    let mut db = Db::open(false, &vec![]).unwrap();
    let mut w = db.writer();
    let b1 = event(0xb1, 0xbb, 10002, 500, vec![]);
    let b2 = event(0xb2, 0xbb, 10002, 400, vec![]);
    assert!(matches!(db.put(&mut w, &b1), Ok(CheckEventResult::Stored(1))));
    assert!(matches!(db.put(&mut w, &b2), Ok(CheckEventResult::ReplaceIgnored)));
    db.commit(w);
    let mut f = Filter::new();
    f.authors = Some(vec![hex(&[0xbb; 32])]);
    f.kinds = Some(vec![10002]);
    assert_eq!(run(&db, &f), vec![0xb1]);
}

#[test]
fn tag_value_boundary() {
    let db = filled(&[
        event(1, 0xaa, 1, 10, vec![tag("t", "nostr")]),
        event(2, 0xaa, 1, 11, vec![tag("t", "nostr1")]),
    ]);
    let mut f = Filter::new();
    f.tags = vec![(b"t".to_vec(), vec![b"nostr".to_vec()])];
    assert_eq!(run(&db, &f), vec![1]);
    f.tags = vec![(b"t".to_vec(), vec![b"nostr1".to_vec()])];
    assert_eq!(run(&db, &f), vec![2]);
    f.tags = vec![(b"t".to_vec(), vec![b"nost".to_vec()])];
    assert_eq!(run(&db, &f), Vec::<u8>::new());
    f.desc = true;
    f.tags = vec![(b"t".to_vec(), vec![b"nostr".to_vec()])];
    assert_eq!(run(&db, &f), vec![1]);
    f.tags = vec![(b"t".to_vec(), vec![b"nostr".to_vec(), b"nostr1".to_vec()])];
    assert_eq!(run(&db, &f), vec![2, 1]);
}

#[test]
fn kinds_with_limit_come_newest_first() {
    let mut events = vec![];
    let mut seed: u64 = 12345;
    for i in 0..1000u64 {
        seed = seed.wrapping_mul(6364136223846793005).wrapping_add(1442695040888963407);
        let created_at = (seed >> 33) % 1_000_000;
        let mut e = event(0, (seed >> 8) as u8, 1 + (i % 2), created_at, vec![]);
        e.index.id = {
            let mut id = vec![0u8; 32];
            id[0] = (i >> 8) as u8;
            id[1] = i as u8;
            id
        };
        e.payload = created_at.to_be_bytes().to_vec();
        events.push(e);
    }
    let db = filled(&events);
    let mut f = Filter::new();
    f.kinds = Some(vec![1]);
    f.desc = true;
    f.limit = Some(50);
    let reader = db.reader();
    let mut it = db.iter(&reader, &f).unwrap();
    let mut times = vec![];
    while let Some(item) = it.next() {
        let p = item.unwrap();
        times.push(u64::from_be_bytes(p.try_into().unwrap()));
    }
    assert_eq!(times.len(), 50);
    for pair in times.windows(2) {
        assert!(pair[0] > pair[1]);
    }
    let mut all: Vec<u64> = events.iter().filter(|e| e.index.kind == 1).map(|e| e.index.created_at).collect();
    all.sort();
    all.reverse();
    assert_eq!(times, all[..50].to_vec());
    let stats = it.stats();
    assert_eq!(stats.get_data, 50);
    assert_eq!(stats.get_index, 0);
}

#[test]
fn time_scan_both_directions_with_window() {
    let db = filled(&[
        event(1, 0xaa, 1, 10, vec![]),
        event(2, 0xaa, 1, 20, vec![]),
        event(3, 0xaa, 1, 20, vec![]),
        event(4, 0xaa, 1, 30, vec![]),
    ]);
    let mut f = Filter::new();
    assert_eq!(run(&db, &f), vec![1, 2, 3, 4]);
    f.desc = true;
    assert_eq!(run(&db, &f), vec![4, 3, 2, 1]);
    f.since = Some(20);
    assert_eq!(run(&db, &f), vec![4, 3, 2]);
    f.until = Some(20);
    assert_eq!(run(&db, &f), vec![3, 2]);
    f.desc = false;
    assert_eq!(run(&db, &f), vec![2, 3]);
    f.limit = Some(1);
    assert_eq!(run(&db, &f), vec![2]);
    f.limit = Some(0);
    assert_eq!(run(&db, &f), Vec::<u8>::new());
}

#[test]
fn several_kinds_merge_by_time_then_uid() {
    let db = filled(&[
        event(1, 0xaa, 7, 10, vec![]),
        event(2, 0xaa, 8, 5, vec![]),
        event(3, 0xaa, 7, 5, vec![]),
        event(4, 0xaa, 9, 1, vec![]),
        event(5, 0xaa, 8, 10, vec![]),
    ]);
    let mut f = Filter::new();
    f.kinds = Some(vec![7, 8]);
    assert_eq!(run(&db, &f), vec![2, 3, 1, 5]);
    f.desc = true;
    assert_eq!(run(&db, &f), vec![5, 1, 3, 2]);
}

#[test]
fn ids_by_prefix_even_and_odd() {
    let mut a = event(0, 0xaa, 1, 10, vec![]);
    a.index.id = {
        let mut id = vec![0x12u8; 32];
        id[1] = 0x34;
        id
    };
    a.payload = vec![1];
    let mut b = event(0, 0xaa, 1, 11, vec![]);
    b.index.id = {
        let mut id = vec![0x12u8; 32];
        id[1] = 0x3f;
        id
    };
    b.payload = vec![2];
    let mut c = event(0, 0xaa, 1, 12, vec![]);
    c.index.id = vec![0x13u8; 32];
    c.payload = vec![3];
    let db = filled(&[a.clone_event(), b.clone_event(), c.clone_event()]);
    let mut f = Filter::new();
    f.ids = Some(vec![b"12".to_vec()]);
    assert_eq!(run(&db, &f), vec![1, 2]);
    f.ids = Some(vec![b"123".to_vec()]);
    assert_eq!(run(&db, &f), vec![1, 2]);
    f.ids = Some(vec![b"1234".to_vec()]);
    assert_eq!(run(&db, &f), vec![1]);
    f.ids = Some(vec![b"1".to_vec()]);
    assert_eq!(run(&db, &f), vec![1, 2, 3]);
    f.ids = Some(vec![hex(&c.index.id)]);
    assert_eq!(run(&db, &f), vec![3]);
    f.ids = Some(vec![b"123".to_vec()]);
    f.desc = true;
    assert_eq!(run(&db, &f), vec![2, 1]);
    f.ids = Some(vec![b"zz".to_vec()]);
    let reader = db.reader();
    assert!(matches!(db.iter(&reader, &f), Err(Error::Hex)));
}

trait CloneEvent {
    fn clone_event(&self) -> Event;
}

impl CloneEvent for Event {
    fn clone_event(&self) -> Event {
        Event {
            index: EventIndex {
                id: self.index.id.clone(),
                pubkey: self.index.pubkey.clone(),
                kind: self.index.kind,
                created_at: self.index.created_at,
                delegator: self.index.delegator.clone(),
                expiration: self.index.expiration,
                tags: self.index.tags.clone(),
            },
            payload: self.payload.clone(),
            words: self.words.clone(),
        }
    }
}

#[test]
fn authors_match_signer_and_delegator() {
    let mut d = event(3, 0xcc, 1, 12, vec![]);
    d.index.delegator = Some(vec![0xaa; 32]);
    let db = filled(&[event(1, 0xaa, 1, 10, vec![]), event(2, 0xbb, 1, 11, vec![]), d]);
    let mut f = Filter::new();
    f.authors = Some(vec![hex(&[0xaa; 32])]);
    assert_eq!(run(&db, &f), vec![1, 3]);
    f.authors = Some(vec![hex(&[0xaa; 32]), hex(&[0xbb; 32])]);
    assert_eq!(run(&db, &f), vec![1, 2, 3]);
    f.authors = Some(vec![b"b".to_vec()]);
    assert_eq!(run(&db, &f), vec![2]);
}

#[test]
fn authors_with_kinds_full_key_and_prefix() {
    let db = filled(&[
        event(1, 0xaa, 1, 10, vec![]),
        event(2, 0xaa, 2, 11, vec![]),
        event(3, 0xab, 1, 12, vec![]),
        event(4, 0xbb, 1, 13, vec![]),
    ]);
    let mut f = Filter::new();
    f.authors = Some(vec![hex(&[0xaa; 32])]);
    f.kinds = Some(vec![1]);
    assert_eq!(run(&db, &f), vec![1]);
    f.kinds = Some(vec![1, 2]);
    assert_eq!(run(&db, &f), vec![1, 2]);
    f.authors = Some(vec![b"a".to_vec()]);
    f.kinds = Some(vec![1]);
    assert_eq!(run(&db, &f), vec![1, 3]);
    f.authors = Some(vec![b"aa".to_vec()]);
    f.kinds = Some(vec![2]);
    assert_eq!(run(&db, &f), vec![2]);
    f.authors = Some(vec![b"xyz".to_vec()]);
    let reader = db.reader();
    assert!(matches!(db.iter(&reader, &f), Err(Error::Hex)));
}

#[test]
fn tags_with_kinds_and_authors() {
    let db = filled(&[
        event(1, 0xaa, 1, 10, vec![tag("t", "x")]),
        event(2, 0xbb, 2, 11, vec![tag("t", "x")]),
        event(3, 0xaa, 2, 12, vec![tag("t", "x"), tag("p", "y")]),
        event(4, 0xaa, 2, 13, vec![tag("p", "y")]),
    ]);
    let mut f = Filter::new();
    f.tags = vec![(b"t".to_vec(), vec![b"x".to_vec()])];
    assert_eq!(run(&db, &f), vec![1, 2, 3]);
    f.kinds = Some(vec![2]);
    assert_eq!(run(&db, &f), vec![2, 3]);
    f.authors = Some(vec![hex(&[0xaa; 32])]);
    assert_eq!(run(&db, &f), vec![3]);
    f.kinds = None;
    assert_eq!(run(&db, &f), vec![1, 3]);
    f.authors = None;
    f.tags = vec![(b"t".to_vec(), vec![b"x".to_vec()]), (b"p".to_vec(), vec![b"y".to_vec()])];
    assert_eq!(run(&db, &f), vec![3]);
}

#[test]
fn an_event_with_two_matching_tag_values_comes_once() {
    let db = filled(&[
        event(1, 0xaa, 1, 10, vec![tag("t", "x"), tag("t", "y")]),
        event(2, 0xaa, 1, 10, vec![tag("t", "y")]),
    ]);
    let mut f = Filter::new();
    f.tags = vec![(b"t".to_vec(), vec![b"x".to_vec(), b"y".to_vec()])];
    assert_eq!(run(&db, &f), vec![1, 2]);
}

#[test]
fn words_must_all_be_present() {
    let mut a = event(1, 0xaa, 1, 10, vec![]);
    a.words = Some(vec![b"hello".to_vec(), b"world".to_vec()]);
    let mut b = event(2, 0xaa, 1, 11, vec![]);
    b.words = Some(vec![b"hello".to_vec()]);
    let mut c = event(3, 0xaa, 2, 12, vec![]);
    c.words = Some(vec![b"world".to_vec(), b"hello".to_vec(), b"again".to_vec()]);
    let db = filled(&[a, b, c]);
    let mut f = Filter::new();
    f.words = Some(vec![b"hello".to_vec()]);
    assert_eq!(run(&db, &f), vec![1, 2, 3]);
    f.words = Some(vec![b"hello".to_vec(), b"world".to_vec()]);
    assert_eq!(run(&db, &f), vec![1, 3]);
    f.desc = true;
    assert_eq!(run(&db, &f), vec![3, 1]);
    f.kinds = Some(vec![2]);
    assert_eq!(run(&db, &f), vec![3]);
    f.words = Some(vec![b"hell".to_vec()]);
    f.kinds = None;
    assert_eq!(run(&db, &f), Vec::<u8>::new());
}

#[test]
fn size_counts_without_fetching_payloads() {
    let db = filled(&[
        event(1, 0xaa, 1, 10, vec![tag("t", "x")]),
        event(2, 0xbb, 1, 11, vec![tag("t", "x")]),
        event(3, 0xaa, 1, 12, vec![tag("t", "x")]),
    ]);
    let reader = db.reader();
    let mut f = Filter::new();
    let (n, stats) = db.iter(&reader, &f).unwrap().size().unwrap();
    assert_eq!(n, 3);
    assert_eq!(stats.get_data, 0);
    assert_eq!(stats.get_index, 0);
    assert_eq!(stats.scan_index, 3);
    f.limit = Some(2);
    let (n, _) = db.iter(&reader, &f).unwrap().size().unwrap();
    assert_eq!(n, 2);
    f.limit = None;
    f.tags = vec![(b"t".to_vec(), vec![b"x".to_vec()])];
    f.authors = Some(vec![hex(&[0xaa; 32])]);
    let (n, stats) = db.iter(&reader, &f).unwrap().size().unwrap();
    assert_eq!(n, 2);
    assert_eq!(stats.get_index, 3);
    assert_eq!(stats.get_data, 0);
}

#[test]
fn stats_count_fetches() {
    let db = filled(&[
        event(1, 0xaa, 1, 10, vec![tag("t", "x")]),
        event(2, 0xbb, 1, 11, vec![tag("t", "x")]),
    ]);
    let reader = db.reader();
    let mut f = Filter::new();
    f.tags = vec![(b"t".to_vec(), vec![b"x".to_vec()])];
    f.authors = Some(vec![hex(&[0xbb; 32])]);
    let mut it = db.iter(&reader, &f).unwrap();
    assert_eq!(it.next(), Some(Ok(vec![2])));
    assert_eq!(it.next(), None);
    let s = it.stats();
    assert_eq!(s.get_index, 2);
    assert_eq!(s.get_data, 1);
    assert_eq!(s.scan_index, 2);
}

#[test]
fn expiration_sweep_comes_in_order_of_expiry() {
    let mut a = event(1, 0xaa, 1, 10, vec![]);
    a.index.expiration = Some(300);
    let mut b = event(2, 0xaa, 1, 11, vec![]);
    b.index.expiration = Some(100);
    let mut c = event(3, 0xaa, 1, 12, vec![]);
    c.index.expiration = Some(200);
    let d = event(4, 0xaa, 1, 13, vec![]);
    let db = filled(&[a, b, c, d]);
    let reader = db.reader();
    let mut it = db.iter_expiration(&reader, Some(200)).unwrap();
    assert_eq!(it.next(), Some(Ok(vec![2])));
    assert_eq!(it.next(), Some(Ok(vec![3])));
    assert_eq!(it.next(), None);
    let mut it = db.iter_expiration(&reader, None).unwrap();
    let mut n = 0;
    while let Some(_) = it.next() {
        n += 1;
    }
    assert_eq!(n, 3);
}

#[test]
fn constructors_hold_what_they_are_told_against_the_record() {
    let db = filled(&[event(1, 0xaa, 1, 10, vec![]), event(2, 0xbb, 2, 11, vec![])]);
    let reader = db.reader();
    let mut f = Filter::new();
    f.kinds = Some(vec![1, 2]);
    f.authors = Some(vec![hex(&[0xbb; 32])]);
    let mut it = Iter::new_kind(reader.tables(), &f, MatchIndex::Pubkey).unwrap();
    assert_eq!(it.next(), Some(Ok(vec![2])));
    assert_eq!(it.next(), None);
    let mut it = Iter::new_kind(reader.tables(), &f, MatchIndex::Off).unwrap();
    assert_eq!(it.next(), Some(Ok(vec![1])));
    assert_eq!(it.next(), Some(Ok(vec![2])));
    assert_eq!(it.next(), None);
}

#[test]
fn size_respects_a_limit_of_nought() {
    let db = filled(&[
        event(1, 0xaa, 1, 10, vec![]),
        event(2, 0xaa, 1, 20, vec![]),
        event(3, 0xaa, 1, 30, vec![]),
    ]);
    let reader = db.reader();
    let mut f = Filter::new();
    f.kinds = Some(vec![1]);
    f.since = Some(10);
    f.until = Some(20);
    f.limit = Some(0);
    assert_eq!(run(&db, &f), Vec::<u8>::new());
    let (n, stats) = db.iter(&reader, &f).unwrap().size().unwrap();
    assert_eq!(n, 0);
    assert_eq!(stats.get_data, 0);
    f.limit = Some(1);
    assert_eq!(db.iter(&reader, &f).unwrap().size().unwrap().0, 1);
    assert_eq!(run(&db, &f).len(), 1);
    f.limit = Some(5);
    assert_eq!(db.iter(&reader, &f).unwrap().size().unwrap().0, 2);
    assert_eq!(run(&db, &f).len(), 2);
    f.limit = None;
    assert_eq!(db.iter(&reader, &f).unwrap().size().unwrap().0, 2);
}

#[test]
fn size_is_the_number_of_results() {
    let db = filled(&[
        event(1, 0xaa, 1, 10, vec![tag("t", "x")]),
        event(2, 0xbb, 1, 11, vec![tag("t", "x")]),
        event(3, 0xaa, 2, 12, vec![tag("t", "x")]),
        event(4, 0xaa, 1, 13, vec![tag("t", "y")]),
    ]);
    let reader = db.reader();
    for limit in [None, Some(0), Some(1), Some(2), Some(9)] {
        let mut f = Filter::new();
        f.limit = limit;
        f.tags = vec![(b"t".to_vec(), vec![b"x".to_vec()])];
        f.authors = Some(vec![hex(&[0xaa; 32])]);
        let yielded = run(&db, &f).len() as u64;
        let (n, stats) = db.iter(&reader, &f).unwrap().size().unwrap();
        assert_eq!(n, yielded);
        assert_eq!(stats.get_data, 0);
        assert_eq!(n, match limit { Some(l) => l.min(2), None => 2 });
    }
}

#[test]
fn an_event_at_the_last_time_of_all_is_found_downwards() {
    let db = filled(&[event(1, 0xaa, 1, u64::MAX, vec![]), event(2, 0xaa, 1, u64::MAX - 1, vec![]), event(3, 0xaa, 1, 0, vec![])]);
    let mut f = Filter::new();
    f.desc = true;
    assert_eq!(run(&db, &f), vec![1, 2, 3]);
    f.desc = false;
    assert_eq!(run(&db, &f), vec![3, 2, 1]);
    f.desc = true;
    f.since = Some(u64::MAX);
    assert_eq!(run(&db, &f), vec![1]);
}

#[test]
fn every_tag_entry_of_a_filter_must_match() {
    let a = vec![0x0a; 32];
    let b = vec![0x0b; 32];
    let x = event(1, 0xaa, 1, 10, vec![(b"e".to_vec(), a.clone())]);
    let y = event(2, 0xaa, 1, 11, vec![(b"e".to_vec(), a.clone()), (b"p".to_vec(), b.clone())]);
    let db = filled(&[x, y]);
    let mut f = Filter::new();
    f.tags = vec![(b"e".to_vec(), vec![a]), (b"p".to_vec(), vec![b])];
    assert_eq!(run(&db, &f), vec![2]);
}

#[test]
fn results_come_as_often_as_the_limit_allows() {
    let db = filled(&[
        event(1, 0xaa, 1, 10, vec![]),
        event(2, 0xaa, 2, 20, vec![]),
        event(3, 0xaa, 1, 30, vec![]),
        event(4, 0xaa, 3, 40, vec![]),
    ]);
    let reader = db.reader();
    let mut f = Filter::new();
    f.kinds = Some(vec![1, 2]);
    for (limit, want) in [(Some(0), 0), (Some(2), 2), (Some(3), 3), (Some(8), 3), (None, 3)] {
        f.limit = limit;
        let mut it = db.iter(&reader, &f).unwrap();
        let mut n = 0;
        while let Some(item) = it.next() {
            item.unwrap();
            n += 1;
        }
        assert_eq!(n, want);
        assert_eq!(it.next(), None);
        assert_eq!(it.next(), None);
    }
}

#[test]
fn a_short_author_prefix_holds_the_kind_against_each_record() {
    let mut p = event(1, 0, 1, 10, vec![]);
    p.index.pubkey = { let mut k = vec![0u8; 32]; k[0] = 0xab; k };
    let mut q = event(2, 0, 7, 11, vec![]);
    q.index.pubkey = p.index.pubkey.clone();
    let mut r = event(3, 0, 1, 12, vec![]);
    r.index.pubkey = { let mut k = vec![0u8; 32]; k[0] = 0xac; k };
    let mut p2 = event(4, 0, 1, 13, vec![]);
    p2.index.pubkey = p.index.pubkey.clone();
    let db = filled(&[p, q, r, p2]);
    let mut f = Filter::new();
    f.authors = Some(vec![b"ab".to_vec()]);
    f.kinds = Some(vec![1]);
    assert_eq!(run(&db, &f), vec![1, 4]);
    f.desc = true;
    assert_eq!(run(&db, &f), vec![4, 1]);
}

#[test]
fn an_odd_id_prefix_is_held_against_the_text_of_the_key() {
    let mut events = vec![];
    for (n, first) in [0x9fu8, 0xa0, 0xaf, 0xb0].iter().enumerate() {
        let mut e = event(0, 0xaa, 1, 10, vec![]);
        e.index.id = { let mut id = vec![0x11u8; 32]; id[0] = *first; id };
        e.payload = vec![n as u8 + 1];
        events.push(e);
    }
    let db = filled(&events);
    let mut f = Filter::new();
    f.ids = Some(vec![b"a".to_vec()]);
    assert_eq!(run(&db, &f), vec![2, 3]);
    f.desc = true;
    assert_eq!(run(&db, &f), vec![3, 2]);
}

#[test]
fn a_tag_scan_passes_over_another_kind_and_goes_on() {
    let db = filled(&[
        event(1, 0xaa, 1, 10, vec![tag("t", "nostr")]),
        event(2, 0xaa, 7, 20, vec![tag("t", "nostr")]),
        event(3, 0xaa, 1, 30, vec![tag("t", "nostr")]),
    ]);
    let mut f = Filter::new();
    f.tags = vec![(b"t".to_vec(), vec![b"nostr".to_vec()])];
    f.kinds = Some(vec![1]);
    assert_eq!(run(&db, &f), vec![1, 3]);
    f.desc = true;
    assert_eq!(run(&db, &f), vec![3, 1]);
}
