//! The keys of the secondary indexes, and what a scan reads back from an
//! index entry.

use vstd::prelude::*;
use crate::bytes::{be64, be64_value, bytes_equal, concat, concat_sep, sep_spec, u64_from_bytes, u64_to_ver};
use crate::error::Error;
use crate::event::TagView;

verus! {

pub open spec fn id_key(id: Seq<u8>, time: u64) -> Seq<u8> {
    id + be64(time)
}

pub open spec fn pubkey_key(pubkey: Seq<u8>, time: u64) -> Seq<u8> {
    pubkey + be64(time)
}

pub open spec fn kind_key(kind: u64, time: u64) -> Seq<u8> {
    be64(kind) + be64(time)
}

pub open spec fn pubkey_kind_key(pubkey: Seq<u8>, kind: u64, time: u64) -> Seq<u8> {
    pubkey + be64(kind) + be64(time)
}

pub open spec fn time_key(time: u64) -> Seq<u8> {
    be64(time)
}

/// Name, zero, value, zero, time. The zero after the value keeps a scan for
/// one value out of the entries of every longer value.
pub open spec fn tag_key(name: Seq<u8>, value: Seq<u8>, time: u64) -> Seq<u8> {
    sep_spec(sep_spec(name, value), be64(time))
}

pub open spec fn word_key(word: Seq<u8>, time: u64) -> Seq<u8> {
    sep_spec(word, be64(time))
}

/// What a tag entry carries as its value: the identifier, then the kind.
pub open spec fn tag_value(uid: u64, kind: u64) -> Seq<u8> {
    be64(uid) + be64(kind)
}

/// The name of the tag that tells the events of one replaceable kind and
/// author apart.
pub open spec fn d_name() -> Seq<u8> {
    seq![0x64u8]
}

/// The name of the tag by which a deletion event points at its targets.
pub open spec fn e_name() -> Seq<u8> {
    seq![0x65u8]
}

/// The value of the first tag from `i` on that is named `name`; empty where
/// there is none.
pub open spec fn first_tag_value(tags: Seq<TagView>, name: Seq<u8>, i: int) -> Seq<u8>
    decreases tags.len() - i,
{
    if i < 0 || i >= tags.len() {
        Seq::empty()
    } else if tags[i].0 == name {
        tags[i].1
    } else {
        first_tag_value(tags, name, i + 1)
    }
}

/// Kinds of which one event per author is kept.
pub open spec fn is_replaceable(kind: u64) -> bool {
    kind == 0 || kind == 3 || kind == 41 || (10000 <= kind < 20000)
}

/// Kinds of which one event per author and `d` tag is kept.
pub open spec fn is_parameterized(kind: u64) -> bool {
    30000 <= kind < 40000
}

/// The key under which at most one live event is kept, for the kinds that
/// are replaced rather than accumulated.
pub open spec fn replace_key(kind: u64, pubkey: Seq<u8>, tags: Seq<TagView>) -> Option<Seq<u8>> {
    if is_replaceable(kind) {
        Some(be64(kind) + pubkey)
    } else if is_parameterized(kind) {
        Some(be64(kind) + pubkey + first_tag_value(tags, d_name(), 0))
    } else {
        None
    }
}

/// The replace-key of an event of a kind that is replaced, and `None` for
/// every other kind.
pub fn encode_replace_key(kind: u64, pubkey: &[u8], tags: &Vec<(Vec<u8>, Vec<u8>)>) -> (r: Option<
    Vec<u8>,
>)
    ensures
        r.is_some() == replace_key(kind, pubkey@, crate::event::tags_view(tags@)).is_some(),
        r matches Some(k) ==> k@ == replace_key(
            kind,
            pubkey@,
            crate::event::tags_view(tags@),
        ).unwrap(),
{
    if kind == 0 || kind == 3 || kind == 41 || (10000 <= kind && kind < 20000) {
        let k = u64_to_ver(kind);
        Some(concat(k.as_slice(), pubkey))
    } else if 30000 <= kind && kind < 40000 {
        let ghost all = crate::event::tags_view(tags@);
        let k = u64_to_ver(kind);
        let head = concat(k.as_slice(), pubkey);
        let d: [u8; 1] = [0x64u8];
        assert(d@ =~= d_name());
        let mut i: usize = 0;
        while i < tags.len()
            invariant
                i <= tags.len(),
                all == crate::event::tags_view(tags@),
                d@ == d_name(),
                30000 <= kind < 40000,
                head@ == be64(kind) + pubkey@,
                first_tag_value(all, d_name(), 0) == first_tag_value(all, d_name(), i as int),
            decreases tags.len() - i,
        {
            if bytes_equal(tags[i].0.as_slice(), d.as_slice()) {
                return Some(concat(head.as_slice(), tags[i].1.as_slice()));
            }
            i += 1;
        }
        assert(head@ + Seq::<u8>::empty() =~= head@);
        Some(head)
    } else {
        None
    }
}

/// What an index entry says of its event: the time from the end of the
/// key, the identifier from the start of the value, and the kind where the
/// value carries one.
#[derive(Clone, Copy, PartialEq, Eq, Structural, Debug)]
pub struct IndexKey {
    pub time: u64,
    pub uid: u64,
    pub kind: Option<u64>,
}

/// What is read from an entry whose key has eight bytes or more and whose
/// value has eight bytes or more; other entries cannot be read.
pub open spec fn index_key_of(k: Seq<u8>, v: Seq<u8>) -> Option<IndexKey> {
    if k.len() < 8 || v.len() < 8 {
        None
    } else {
        Some(
            IndexKey {
                time: be64_value(k.subrange(k.len() - 8, k.len() as int)) as u64,
                uid: be64_value(v.subrange(0, 8)) as u64,
                kind: if v.len() >= 16 {
                    Some(be64_value(v.subrange(8, 16)) as u64)
                } else {
                    None
                },
            },
        )
    }
}

/// The eight-byte big-endian number that starts at `from`.
pub fn read_u64(b: &[u8], from: usize) -> (r: u64)
    requires
        from + 8 <= b@.len(),
    ensures
        r == be64_value(b@.subrange(from as int, from + 8)) as u64,
        be64(r) == b@.subrange(from as int, from + 8),
{
    let mut part: Vec<u8> = Vec::new();
    let mut i: usize = 0;
    while i < 8
        invariant
            i <= 8,
            from + 8 <= b.len(),
            part@ == b@.subrange(from as int, from + i),
        decreases 8 - i,
    {
        part.push(b[from + i]);
        i += 1;
        assert(part@ =~= b@.subrange(from as int, from + i));
    }
    match u64_from_bytes(part.as_slice()) {
        Ok(n) => n,
        Err(_) => 0,
    }
}

impl IndexKey {
/// What an index entry says of its event. It fails on a key or a value
/// of less than eight bytes.
    pub fn from(k: &[u8], v: &[u8]) -> (r: Result<IndexKey, Error>)
        ensures
            r.is_ok() == index_key_of(k@, v@).is_some(),
            r matches Ok(key) ==> key == index_key_of(k@, v@).unwrap(),
            r matches Err(e) ==> e == Error::InvalidLength,
    {
        if k.len() < 8 || v.len() < 8 {
            return Err(Error::InvalidLength);
        }
        let time = read_u64(k, k.len() - 8);
        let uid = read_u64(v, 0);
        let kind = if v.len() >= 16 {
            Some(read_u64(v, 8))
        } else {
            None
        };
        Ok(IndexKey { time, uid, kind })
    }

/// The key of the index by id.
    pub fn encode_id(id: &[u8], time: u64) -> (r: Vec<u8>)
        ensures
            r@ == id_key(id@, time),
    {
        concat(id, u64_to_ver(time).as_slice())
    }

/// The key of the index by public key.
    pub fn encode_pubkey(pubkey: &[u8], time: u64) -> (r: Vec<u8>)
        ensures
            r@ == pubkey_key(pubkey@, time),
    {
        concat(pubkey, u64_to_ver(time).as_slice())
    }

/// The key of the index by kind.
    pub fn encode_kind(kind: u64, time: u64) -> (r: Vec<u8>)
        ensures
            r@ == kind_key(kind, time),
    {
        concat(u64_to_ver(kind).as_slice(), u64_to_ver(time).as_slice())
    }

/// The key of the index by public key and kind.
    pub fn encode_pubkey_kind(pubkey: &[u8], kind: u64, time: u64) -> (r: Vec<u8>)
        ensures
            r@ == pubkey_kind_key(pubkey@, kind, time),
    {
        let head = concat(pubkey, u64_to_ver(kind).as_slice());
        concat(head.as_slice(), u64_to_ver(time).as_slice())
    }

/// The key of the indexes by time.
    pub fn encode_time(time: u64) -> (r: Vec<u8>)
        ensures
            r@ == time_key(time),
    {
        u64_to_ver(time)
    }

/// The key of the index by tag.
    pub fn encode_tag(name: &[u8], value: &[u8], time: u64) -> (r: Vec<u8>)
        ensures
            r@ == tag_key(name@, value@, time),
    {
        let head = concat_sep(name, value);
        concat_sep(head.as_slice(), u64_to_ver(time).as_slice())
    }

/// The key of the index by word.
    pub fn encode_word(word: &[u8], time: u64) -> (r: Vec<u8>)
        ensures
            r@ == word_key(word@, time),
    {
        concat_sep(word, u64_to_ver(time).as_slice())
    }
}

} // verus!
