use nostr_db::bytes::{concat_sep, u64_from_bytes, u64_to_ver, upper};
use nostr_db::error::Error;
use nostr_db::event::{words_from_bytes, words_to_bytes, EventIndex};
use nostr_db::hexcodec::{decode_hex, encode_hex};
use nostr_db::payload::{decode_event, encode_event};

#[test]
fn upper_raises_last_byte() {
    assert_eq!(upper(vec![1, 2, 3]), Some(vec![1, 2, 4]));
}

#[test]
fn upper_strips_trailing_ff() {
    assert_eq!(upper(vec![1, 0xff, 0xff]), Some(vec![2]));
    assert_eq!(upper(vec![0xff, 0xff]), None);
    assert_eq!(upper(vec![]), None);
}

#[test]
fn big_endian_roundtrip() {
    assert_eq!(u64_to_ver(1), vec![0, 0, 0, 0, 0, 0, 0, 1]);
    assert_eq!(u64_to_ver(0x0102030405060708), vec![1, 2, 3, 4, 5, 6, 7, 8]);
    assert_eq!(u64_from_bytes(&[1, 2, 3, 4, 5, 6, 7, 8]), Ok(0x0102030405060708));
    assert_eq!(u64_from_bytes(&u64_to_ver(u64::MAX)), Ok(u64::MAX));
    assert_eq!(u64_from_bytes(&[1, 2, 3]), Err(Error::InvalidLength));
}

#[test]
fn concat_with_and_without_separator() {
    assert_eq!(nostr_db::bytes::concat(b"ab", b"cd"), b"abcd".to_vec());
    assert_eq!(concat_sep(b"t", b"nostr"), b"t\0nostr".to_vec());
}

#[test]
fn hex_decodes_both_cases() {
    assert_eq!(decode_hex(b"00ffAb"), Ok(vec![0x00, 0xff, 0xab]));
    assert_eq!(decode_hex(b"abc"), Err(Error::Hex));
    assert_eq!(decode_hex(b"zz"), Err(Error::Hex));
    assert_eq!(decode_hex(b""), Ok(vec![]));
}

#[test]
fn hex_encodes_lower_case() {
    assert_eq!(encode_hex(&[0x00, 0xff, 0xab, 0x1c]), b"00ffab1c".to_vec());
}

#[test]
fn index_record_reads_back() {
    let e = EventIndex {
        id: vec![1; 32],
        pubkey: vec![0xaa; 32],
        kind: 30000,
        created_at: 1000,
        delegator: Some(vec![0xbb; 32]),
        expiration: Some(77),
        tags: vec![(b"d".to_vec(), b"x".to_vec()), (b"t".to_vec(), b"nostr".to_vec())],
    };
    let bytes = e.to_bytes().unwrap();
    assert_ne!(bytes, e.id);
    let back = EventIndex::from_bytes(&bytes).unwrap();
    assert_eq!(back.id, e.id);
    assert_eq!(back.pubkey, e.pubkey);
    assert_eq!(back.kind, 30000);
    assert_eq!(back.created_at, 1000);
    assert_eq!(back.delegator, e.delegator);
    assert_eq!(back.expiration, Some(77));
    assert_eq!(back.tags, e.tags);
}

#[test]
fn index_record_rejects_garbage() {
    assert!(matches!(EventIndex::from_bytes(&[1, 2, 3]), Err(Error::Serialization)));
}

#[test]
fn words_read_back() {
    let w = vec![b"hello".to_vec(), b"world".to_vec(), vec![]];
    let bytes = words_to_bytes(&w).unwrap();
    assert_eq!(words_from_bytes(&bytes), Ok(w));
    assert_eq!(words_from_bytes(&[9]), Err(Error::Serialization));
}

#[test]
fn payload_plain_is_kept_as_is() {
    assert_eq!(encode_event(b"{\"a\":1}", false), Ok(b"{\"a\":1}".to_vec()));
    assert_eq!(decode_event(b"{\"a\":1}", false), Ok(b"{\"a\":1}".to_vec()));
}

#[test]
fn payload_compressed_is_marked_and_reads_back() {
    let p = b"{\"content\":\"aaaaaaaaaaaaaaaaaaaaaaaaaaaaaaaaaaaaaaaaaaaaaaaa\"}".to_vec();
    let stored = encode_event(&p, true).unwrap();
    assert_eq!(stored.last(), Some(&1u8));
    assert_ne!(stored, p);
    assert_eq!(decode_event(&stored, true), Ok(p));
}

#[test]
fn index_record_as_a_list_of_byte_strings() {
    let e = EventIndex {
        id: vec![1; 32],
        pubkey: vec![2; 32],
        kind: 7,
        created_at: 9,
        delegator: Some(vec![3, 4]),
        expiration: None,
        tags: vec![(b"t".to_vec(), b"x".to_vec()), (b"p".to_vec(), vec![])],
    };
    let flat = e.flatten();
    assert_eq!(
        flat,
        vec![
            vec![1; 32],
            vec![2; 32],
            vec![0, 0, 0, 0, 0, 0, 0, 7],
            vec![0, 0, 0, 0, 0, 0, 0, 9],
            vec![1, 3, 4],
            vec![],
            b"t".to_vec(),
            b"x".to_vec(),
            b"p".to_vec(),
            vec![],
        ]
    );
    let back = EventIndex::unflatten(&flat).unwrap();
    assert_eq!(back.delegator, Some(vec![3, 4]));
    assert_eq!(back.expiration, None);
    assert_eq!(back.tags, e.tags);
    assert_eq!(back.kind, 7);
    let mut none = e.flatten();
    none[4] = vec![0];
    none[5] = vec![0, 0, 0, 0, 0, 0, 1, 0];
    let back = EventIndex::unflatten(&none).unwrap();
    assert_eq!(back.delegator, None);
    assert_eq!(back.expiration, Some(256));
}

#[test]
fn a_list_that_stands_for_no_record_is_refused() {
    let good = EventIndex {
        id: vec![1; 32],
        pubkey: vec![2; 32],
        kind: 7,
        created_at: 9,
        delegator: None,
        expiration: None,
        tags: vec![(b"t".to_vec(), b"x".to_vec())],
    }
    .flatten();
    assert!(EventIndex::unflatten(&good).is_some());
    let mut short = good.clone();
    short.truncate(5);
    assert!(EventIndex::unflatten(&short).is_none());
    let mut odd = good.clone();
    odd.push(vec![]);
    assert!(EventIndex::unflatten(&odd).is_none());
    for (at, bad) in [(2usize, vec![1u8]), (3, vec![]), (4, vec![]), (4, vec![0, 1]), (4, vec![2]), (5, vec![1])] {
        let mut l = good.clone();
        l[at] = bad;
        assert!(EventIndex::unflatten(&l).is_none());
    }
    // the archive of a list that stands for no record holds no record
    let bytes = words_to_bytes(&short).unwrap();
    assert!(matches!(EventIndex::from_bytes(&bytes), Err(Error::Serialization)));
}
