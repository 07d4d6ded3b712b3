use nostr_db::bytes::u64_to_ver;
use nostr_db::error::Error;
use nostr_db::filter::Filter;
use nostr_db::group::{comes_before, Group};
use nostr_db::key::{encode_replace_key, IndexKey};
use nostr_db::scanner::{create_iter, MatchResult, Matcher, Scan, Scanner};
use nostr_db::tree::Tree;
use nostr_db::event::EventIndex;

fn timed(prefix: &[u8], time: u64) -> Vec<u8> {
    [prefix.to_vec(), u64_to_ver(time)].concat()
}

fn key(time: u64, uid: u64) -> IndexKey {
    IndexKey { time, uid, kind: None }
}

fn index(entries: &[(&[u8], u64, u64)]) -> Tree {
    let mut t = Tree::new(true);
    for (p, time, uid) in entries {
        t.put(&timed(p, *time), &u64_to_ver(*uid));
    }
    t
}

fn scanner<'a>(t: &'a Tree, prefix: &[u8], reverse: bool, since: Option<u64>, until: Option<u64>, m: Matcher) -> Scanner<'a> {
    let iter = create_iter(t, &prefix.to_vec(), reverse);
    Scanner::new(iter, vec![], prefix.to_vec(), reverse, since, until, m)
}

fn drain(s: &mut Scanner) -> Vec<Result<IndexKey, Error>> {
    let mut out = vec![];
    while let Some(x) = s.next() {
        out.push(x);
    }
    out
}

#[test]
fn index_key_is_read_from_key_and_value() {
    let k = timed(b"abc", 77);
    assert_eq!(IndexKey::from(&k, &u64_to_ver(5)), Ok(IndexKey { time: 77, uid: 5, kind: None }));
    let v = [u64_to_ver(5), u64_to_ver(30000)].concat();
    assert_eq!(IndexKey::from(&k, &v), Ok(IndexKey { time: 77, uid: 5, kind: Some(30000) }));
    assert_eq!(IndexKey::from(b"short", &v), Err(Error::InvalidLength));
    assert_eq!(IndexKey::from(&k, b"short"), Err(Error::InvalidLength));
}

#[test]
fn key_encoders() {
    assert_eq!(IndexKey::encode_time(1), vec![0, 0, 0, 0, 0, 0, 0, 1]);
    assert_eq!(IndexKey::encode_kind(2, 1), vec![0, 0, 0, 0, 0, 0, 0, 2, 0, 0, 0, 0, 0, 0, 0, 1]);
    assert_eq!(IndexKey::encode_id(&[9; 32], 1), [vec![9u8; 32], u64_to_ver(1)].concat());
    assert_eq!(IndexKey::encode_pubkey(&[8; 32], 3), [vec![8u8; 32], u64_to_ver(3)].concat());
    assert_eq!(
        IndexKey::encode_pubkey_kind(&[8; 32], 7, 3),
        [vec![8u8; 32], u64_to_ver(7), u64_to_ver(3)].concat()
    );
    assert_eq!(IndexKey::encode_tag(b"t", b"nostr", 1), [b"t\0nostr\0".to_vec(), u64_to_ver(1)].concat());
    assert_eq!(IndexKey::encode_word(b"hi", 1), [b"hi\0".to_vec(), u64_to_ver(1)].concat());
}

#[test]
fn replace_keys_by_kind() {
    let pk = vec![7u8; 32];
    let tags = vec![(b"t".to_vec(), b"x".to_vec()), (b"d".to_vec(), b"one".to_vec()), (b"d".to_vec(), b"two".to_vec())];
    let plain = |kind: u64| [u64_to_ver(kind), pk.clone()].concat();
    assert_eq!(encode_replace_key(0, &pk, &tags), Some(plain(0)));
    assert_eq!(encode_replace_key(3, &pk, &tags), Some(plain(3)));
    assert_eq!(encode_replace_key(41, &pk, &tags), Some(plain(41)));
    assert_eq!(encode_replace_key(10000, &pk, &tags), Some(plain(10000)));
    assert_eq!(encode_replace_key(19999, &pk, &tags), Some(plain(19999)));
    assert_eq!(encode_replace_key(20000, &pk, &tags), None);
    assert_eq!(encode_replace_key(1, &pk, &tags), None);
    assert_eq!(encode_replace_key(5, &pk, &tags), None);
    assert_eq!(encode_replace_key(30000, &pk, &tags), Some([plain(30000), b"one".to_vec()].concat()));
    assert_eq!(encode_replace_key(39999, &pk, &vec![]), Some(plain(39999)));
    assert_eq!(encode_replace_key(40000, &pk, &tags), None);
}

#[test]
fn scan_upwards_skips_before_the_window_and_stops_after_it() {
    let t = index(&[(b"a", 5, 1), (b"b", 1, 2), (b"b", 3, 3), (b"b", 3, 4), (b"b", 9, 5), (b"c", 3, 6)]);
    let mut s = scanner(&t, b"b", false, Some(2), Some(8), Matcher::Prefix);
    assert_eq!(drain(&mut s), vec![Ok(key(3, 3)), Ok(key(3, 4))]);
    // one entry skipped, two found, one past the window
    assert_eq!(s.count(), 4);
    let mut s = scanner(&t, b"b", false, None, None, Matcher::Prefix);
    assert_eq!(drain(&mut s), vec![Ok(key(1, 2)), Ok(key(3, 3)), Ok(key(3, 4)), Ok(key(9, 5))]);
    assert_eq!(s.count(), 5);
}

#[test]
fn scan_downwards_mirrors() {
    let t = index(&[(b"a", 5, 1), (b"b", 1, 2), (b"b", 3, 3), (b"b", 3, 4), (b"b", 9, 5), (b"c", 3, 6)]);
    let mut s = scanner(&t, b"b", true, Some(2), Some(8), Matcher::Prefix);
    assert_eq!(drain(&mut s), vec![Ok(key(3, 4)), Ok(key(3, 3))]);
    assert_eq!(s.count(), 4);
    let mut s = scanner(&t, b"b", true, None, None, Matcher::Prefix);
    assert_eq!(drain(&mut s), vec![Ok(key(9, 5)), Ok(key(3, 4)), Ok(key(3, 3)), Ok(key(1, 2))]);
}

#[test]
fn exact_matcher_stops_at_a_longer_key() {
    let t = index(&[(b"w\0", 1, 1), (b"w\0", 2, 2), (b"wx\0", 1, 3)]);
    let mut s = scanner(&t, b"w\0", false, None, None, Matcher::Exact);
    assert_eq!(drain(&mut s), vec![Ok(key(1, 1)), Ok(key(2, 2))]);
    let mut s = scanner(&t, b"w", false, None, None, Matcher::Exact);
    assert_eq!(drain(&mut s).len(), 0);
}

#[test]
fn tag_matcher_reads_the_kind_from_the_value() {
    let mut t = Tree::new(true);
    t.put(&timed(b"t\0x\0", 1), &[u64_to_ver(1), u64_to_ver(7)].concat());
    t.put(&timed(b"t\0x\0", 2), &[u64_to_ver(2), u64_to_ver(8)].concat());
    t.put(&timed(b"t\0x\0", 3), &[u64_to_ver(3), u64_to_ver(7)].concat());
    let mut s = scanner(&t, b"t\0x\0", false, None, None, Matcher::Tag { kinds: Some(vec![7]) });
    assert_eq!(
        drain(&mut s),
        vec![Ok(IndexKey { time: 1, uid: 1, kind: Some(7) }), Ok(IndexKey { time: 3, uid: 3, kind: Some(7) })]
    );
    let mut s = scanner(&t, b"t\0x\0", true, None, None, Matcher::Tag { kinds: None });
    assert_eq!(drain(&mut s).len(), 3);
}

#[test]
fn entries_that_cannot_be_read_are_told() {
    let mut t = Tree::new(true);
    t.put(b"abc", &u64_to_ver(1));
    t.put(&timed(b"b", 1), b"v");
    t.put(&timed(b"b", 2), &u64_to_ver(2));
    let mut s = scanner(&t, b"", false, None, None, Matcher::Any);
    assert_eq!(drain(&mut s), vec![Err(Error::InvalidLength), Err(Error::InvalidLength), Ok(key(2, 2))]);
    let mut g = Group::new(false, false, false);
    assert_eq!(g.add(scanner(&t, b"", false, None, None, Matcher::Any)), Err(Error::InvalidLength));
    assert_eq!(g.next(), None);
}

#[test]
fn scan_verdicts() {
    let scan = Scan { key: b"61".to_vec(), prefix: b"a".to_vec(), reverse: false, since: Some(5), until: Some(9), matcher: Matcher::Hex { odd: false } };
    let v = u64_to_ver(1);
    assert_eq!(scan.check(&timed(b"a", 4), &v), Ok(MatchResult::Continue));
    assert_eq!(scan.check(&timed(b"a", 5), &v), Ok(MatchResult::Found(key(5, 1))));
    assert_eq!(scan.check(&timed(b"a", 10), &v), Ok(MatchResult::Stop));
    assert_eq!(scan.check(&timed(b"b", 6), &v), Ok(MatchResult::Stop));
    assert_eq!(scan.check(b"a", &v), Err(Error::InvalidLength));
    let odd = Scan { key: b"6".to_vec(), prefix: vec![0x60], reverse: true, since: Some(5), until: Some(9), matcher: Matcher::Hex { odd: true } };
    assert_eq!(odd.check(&timed(b"a", 6), &v), Ok(MatchResult::Found(key(6, 1))));
    assert_eq!(odd.check(&timed(b"p", 6), &v), Ok(MatchResult::Stop));
    assert_eq!(odd.check(&timed(b"a", 10), &v), Ok(MatchResult::Continue));
    assert_eq!(odd.check(&timed(b"a", 4), &v), Ok(MatchResult::Stop));
    let copy = odd.copy();
    assert_eq!(copy.prefix, vec![0x60]);
    let hk = Scan { key: vec![], prefix: vec![1], reverse: false, since: None, until: None, matcher: Matcher::HexKinds { odd: false, kinds: vec![7] } };
    let k = [vec![1u8; 32], u64_to_ver(7), u64_to_ver(3)].concat();
    assert_eq!(hk.check(&k, &v), Ok(MatchResult::Found(key(3, 1))));
    let k = [vec![1u8; 32], u64_to_ver(8), u64_to_ver(3)].concat();
    assert_eq!(hk.check(&k, &v), Ok(MatchResult::Continue));
    assert_eq!(hk.check(&timed(&[1], 3), &v), Err(Error::InvalidLength));
}

#[test]
fn merge_order() {
    assert!(comes_before(&key(1, 9), &key(2, 0), false));
    assert!(comes_before(&key(1, 1), &key(1, 2), false));
    assert!(!comes_before(&key(1, 1), &key(1, 1), false));
    assert!(comes_before(&key(2, 0), &key(1, 9), true));
    assert!(comes_before(&key(1, 2), &key(1, 1), true));
}

fn group_of<'a>(t: &'a Tree, prefixes: &[&[u8]], reverse: bool, and: bool, dedup: bool) -> Group<'a> {
    let mut g = Group::new(reverse, and, dedup);
    for p in prefixes {
        g.add(scanner(t, p, reverse, None, None, Matcher::Prefix)).unwrap();
    }
    g
}

fn pulled(g: &mut Group) -> Vec<(u64, u64)> {
    let mut out = vec![];
    while let Some(x) = g.next() {
        let k = x.unwrap();
        out.push((k.time, k.uid));
    }
    out
}

#[test]
fn group_merges_by_time_then_uid() {
    let t = index(&[(b"a", 1, 10), (b"a", 5, 11), (b"b", 1, 9), (b"b", 3, 12), (b"c", 4, 13)]);
    let mut g = group_of(&t, &[b"a", b"b", b"c"], false, false, false);
    assert_eq!(pulled(&mut g), vec![(1, 9), (1, 10), (3, 12), (4, 13), (5, 11)]);
    // five results, and the first entry after the prefixes `a` and `b` each
    assert_eq!(g.scan_index(), 7);
    let mut g = group_of(&t, &[b"a", b"b", b"c"], true, false, false);
    assert_eq!(pulled(&mut g), vec![(5, 11), (4, 13), (3, 12), (1, 10), (1, 9)]);
}

#[test]
fn group_lets_a_shared_result_out_once_or_twice() {
    let t = index(&[(b"a", 1, 1), (b"a", 2, 2), (b"b", 2, 2), (b"b", 3, 3)]);
    let mut g = group_of(&t, &[b"a", b"b"], false, false, true);
    assert_eq!(pulled(&mut g), vec![(1, 1), (2, 2), (3, 3)]);
    let mut g = group_of(&t, &[b"a", b"b"], false, false, false);
    assert_eq!(pulled(&mut g), vec![(1, 1), (2, 2), (2, 2), (3, 3)]);
}

#[test]
fn group_with_and_yields_what_every_scan_has() {
    let t = index(&[(b"a", 1, 1), (b"a", 2, 2), (b"a", 4, 4), (b"b", 2, 2), (b"b", 3, 3), (b"b", 4, 4), (b"c", 4, 4)]);
    let mut g = group_of(&t, &[b"a", b"b"], false, true, true);
    assert_eq!(pulled(&mut g), vec![(2, 2), (4, 4)]);
    let mut g = group_of(&t, &[b"a", b"b", b"c"], true, true, true);
    assert_eq!(pulled(&mut g), vec![(4, 4)]);
    let mut g = group_of(&t, &[b"a", b"z"], false, true, true);
    assert_eq!(pulled(&mut g), vec![]);
    let mut g = Group::new(false, true, true);
    assert_eq!(g.next(), None);
}

#[test]
fn filter_matches_records() {
    let e = EventIndex {
        id: vec![0x12; 32],
        pubkey: vec![0xab; 32],
        kind: 7,
        created_at: 100,
        delegator: Some(vec![0xcd; 32]),
        expiration: None,
        tags: vec![(b"t".to_vec(), b"x".to_vec()), (b"p".to_vec(), b"y".to_vec())],
    };
    let mut f = Filter::new();
    assert!(f.match_archived(&e));
    f.since = Some(100);
    f.until = Some(100);
    assert!(f.match_archived(&e));
    f.until = Some(99);
    assert!(!f.match_archived(&e));
    f.until = None;
    f.kinds = Some(vec![1, 7]);
    assert!(f.match_archived(&e));
    f.kinds = Some(vec![]);
    assert!(!f.match_archived(&e));
    f.kinds = None;
    f.ids = Some(vec![b"121".to_vec()]);
    assert!(f.match_archived(&e));
    f.ids = Some(vec![b"13".to_vec(), b"1212".to_vec()]);
    assert!(f.match_archived(&e));
    f.ids = Some(vec![b"zz".to_vec()]);
    assert!(!f.match_archived(&e));
    f.ids = None;
    f.authors = Some(vec![b"cd".to_vec()]);
    assert!(f.match_archived(&e));
    f.authors = Some(vec![b"AB".to_vec()]);
    assert!(f.match_archived(&e));
    f.authors = Some(vec![b"A".to_vec()]);
    assert!(!f.match_archived(&e));
    f.authors = None;
    f.tags = vec![(b"t".to_vec(), vec![b"z".to_vec(), b"x".to_vec()]), (b"p".to_vec(), vec![b"y".to_vec()])];
    assert!(f.match_archived(&e));
    f.tags = vec![(b"t".to_vec(), vec![b"x".to_vec()]), (b"p".to_vec(), vec![b"n".to_vec()])];
    assert!(!f.match_archived(&e));
    assert!(Filter::match_kind(&None, 3));
    assert!(Filter::match_id(&None, &[1]));
    assert!(Filter::match_author(&Some(vec![b"cd".to_vec()]), &[0xab], &Some(vec![0xcd])));
    let c = f.copy();
    assert_eq!(c.tags, f.tags);
}

#[test]
fn plans_for_a_filter() {
    let mut f = Filter::new();
    f.desc = true;
    f.since = Some(3);
    let p = f.plan_time();
    assert_eq!(p.len(), 1);
    assert_eq!(p[0].prefix, u64_to_ver(u64::MAX));
    assert!(p[0].reverse);
    assert_eq!(p[0].since, Some(3));
    f.desc = false;
    assert_eq!(f.plan_time()[0].prefix, u64_to_ver(0));
    f.kinds = Some(vec![1, 2]);
    let p = f.plan_kind();
    assert_eq!(p.len(), 2);
    assert_eq!(p[1].prefix, u64_to_ver(2));
    f.tags = vec![(b"t".to_vec(), vec![b"a".to_vec(), b"b".to_vec()]), (b"p".to_vec(), vec![b"c".to_vec()])];
    let p = f.plan_tag();
    assert_eq!(p.len(), 3);
    assert_eq!(p[1].prefix, b"t\0b\0".to_vec());
    assert_eq!(p[2].prefix, b"p\0c\0".to_vec());
    assert!(matches!(&p[0].matcher, Matcher::Tag { kinds: Some(k) } if k == &vec![1, 2]));
    f.words = Some(vec![b"hi".to_vec()]);
    let p = f.plan_word();
    assert_eq!(p[0].prefix, b"hi\0".to_vec());
    let p = f.plan_prefix(&vec![b"abc".to_vec(), b"abcd".to_vec()]).unwrap();
    assert_eq!(p[0].prefix, vec![0xab, 0xc0]);
    assert_eq!(p[0].key, b"abc".to_vec());
    assert!(matches!(p[0].matcher, Matcher::Hex { odd: true }));
    assert_eq!(p[1].prefix, vec![0xab, 0xcd]);
    f.desc = true;
    let p = f.plan_prefix(&vec![b"abc".to_vec()]).unwrap();
    assert_eq!(p[0].prefix, vec![0xab, 0xcf]);
    assert!(f.plan_prefix(&vec![b"g".to_vec()]).is_err());
    let whole: Vec<u8> = std::iter::repeat(b'a').take(64).collect();
    f.authors = Some(vec![whole.clone(), b"aa".to_vec()]);
    let p = f.plan_author_kind().unwrap();
    assert_eq!(p.len(), 3);
    assert_eq!(p[0].prefix, [vec![0xaa; 32], u64_to_ver(1)].concat());
    assert_eq!(p[1].prefix, [vec![0xaa; 32], u64_to_ver(2)].concat());
    assert!(matches!(&p[2].matcher, Matcher::HexKinds { odd: false, kinds } if kinds == &vec![1, 2]));
}
