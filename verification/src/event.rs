//! Events as the store sees them, and the compact record kept for each in
//! the `index` table.

use vstd::prelude::*;
use crate::bytes::{be64, be64_value, copy_bytes, lemma_be64_roundtrip, u64_from_bytes, u64_to_ver};
use crate::error::Error;

verus! {

/// A tag as contracts see it: name and value.
pub type TagView = (Seq<u8>, Seq<u8>);

/// All that a filter can ask of an event, without its payload.
pub struct EventIndex {
    pub id: Vec<u8>,
    pub pubkey: Vec<u8>,
    pub kind: u64,
    pub created_at: u64,
    pub delegator: Option<Vec<u8>>,
    pub expiration: Option<u64>,
    pub tags: Vec<(Vec<u8>, Vec<u8>)>,
}

pub struct EventIndexView {
    pub id: Seq<u8>,
    pub pubkey: Seq<u8>,
    pub kind: u64,
    pub created_at: u64,
    pub delegator: Option<Seq<u8>>,
    pub expiration: Option<u64>,
    pub tags: Seq<TagView>,
}

/// An event: what is indexed, the opaque payload, and the search words that
/// were taken from it, if any.
pub struct Event {
    pub index: EventIndex,
    pub payload: Vec<u8>,
    pub words: Option<Vec<Vec<u8>>>,
}

pub struct EventView {
    pub index: EventIndexView,
    pub payload: Seq<u8>,
    pub words: Option<Seq<Seq<u8>>>,
}

pub open spec fn tags_view(t: Seq<(Vec<u8>, Vec<u8>)>) -> Seq<TagView> {
    Seq::new(t.len(), |i: int| (t[i].0@, t[i].1@))
}

pub open spec fn words_view(w: Seq<Vec<u8>>) -> Seq<Seq<u8>> {
    Seq::new(w.len(), |i: int| w[i]@)
}

pub open spec fn opt_bytes_view(b: Option<Vec<u8>>) -> Option<Seq<u8>> {
    match b {
        Some(v) => Some(v@),
        None => None,
    }
}

pub open spec fn opt_words_view(w: Option<Vec<Vec<u8>>>) -> Option<Seq<Seq<u8>>> {
    match w {
        Some(v) => Some(words_view(v@)),
        None => None,
    }
}

impl View for EventIndex {
    type V = EventIndexView;

    open spec fn view(&self) -> EventIndexView {
        EventIndexView {
            id: self.id@,
            pubkey: self.pubkey@,
            kind: self.kind,
            created_at: self.created_at,
            delegator: opt_bytes_view(self.delegator),
            expiration: self.expiration,
            tags: tags_view(self.tags@),
        }
    }
}

impl View for Event {
    type V = EventView;

    open spec fn view(&self) -> EventView {
        EventView {
            index: self.index@,
            payload: self.payload@,
            words: opt_words_view(self.words),
        }
    }
}

/// The most that an archive may weigh.
pub const MAX_ARCHIVE: usize = 0x4000_0000;

/// An upper estimate of the archived size of a word list.
pub open spec fn words_weight(w: Seq<Seq<u8>>) -> int
    decreases w.len(),
{
    if w.len() == 0 {
        64
    } else {
        words_weight(w.drop_last()) + w.last().len() + 16
    }
}

/// An optional byte string as one byte string: a zero byte for none, a one
/// byte and then the bytes for some.
pub open spec fn flat_option(d: Option<Seq<u8>>) -> Seq<u8> {
    match d {
        Some(b) => seq![1u8] + b,
        None => seq![0u8],
    }
}

/// An optional time as one byte string: nothing for none, its eight bytes
/// for some.
pub open spec fn flat_time(t: Option<u64>) -> Seq<u8> {
    match t {
        Some(x) => be64(x),
        None => Seq::empty(),
    }
}

/// An index record as a list of byte strings: id, public key, kind, time of
/// creation, delegator, expiration, and then name and value of each tag.
/// This is what is archived for a record.
pub open spec fn flat(x: EventIndexView) -> Seq<Seq<u8>> {
    seq![
        x.id,
        x.pubkey,
        be64(x.kind),
        be64(x.created_at),
        flat_option(x.delegator),
        flat_time(x.expiration),
    ] + Seq::new(
        2 * x.tags.len(),
        |i: int|
            if i % 2 == 0 {
                x.tags[i / 2].0
            } else {
                x.tags[i / 2].1
            },
    )
}

/// Whether a byte string stands for an optional byte string.
pub open spec fn is_flat_option(b: Seq<u8>) -> bool {
    b.len() >= 1 && ((b[0] == 0 && b.len() == 1) || b[0] == 1)
}

/// Whether a list of byte strings stands for an index record.
pub open spec fn is_flat(l: Seq<Seq<u8>>) -> bool {
    &&& l.len() >= 6
    &&& (l.len() - 6) % 2 == 0
    &&& l[2].len() == 8
    &&& l[3].len() == 8
    &&& is_flat_option(l[4])
    &&& (l[5].len() == 0 || l[5].len() == 8)
}

/// The index record that a list of byte strings stands for, if it stands
/// for one.
pub open spec fn unflat(l: Seq<Seq<u8>>) -> Option<EventIndexView> {
    if is_flat(l) {
        Some(
            EventIndexView {
                id: l[0],
                pubkey: l[1],
                kind: be64_value(l[2]) as u64,
                created_at: be64_value(l[3]) as u64,
                delegator: if l[4][0] == 0 {
                    None
                } else {
                    Some(l[4].skip(1))
                },
                expiration: if l[5].len() == 0 {
                    None
                } else {
                    Some(be64_value(l[5]) as u64)
                },
                tags: Seq::new(((l.len() - 6) / 2) as nat, |i: int| (l[6 + 2 * i], l[6 + 2 * i + 1])),
            },
        )
    } else {
        None
    }
}

/// The list that stands for a record stands for that record and no other.
pub proof fn lemma_unflat_flat(x: EventIndexView)
    ensures
        unflat(flat(x)) == Some(x),
{
    let l = flat(x);
    lemma_be64_roundtrip(x.kind);
    lemma_be64_roundtrip(x.created_at);
    if x.expiration is Some {
        lemma_be64_roundtrip(x.expiration.unwrap());
    }
    if x.delegator is Some {
        assert(l[4].skip(1) =~= x.delegator.unwrap());
    }
    let back = unflat(l).unwrap();
    assert(back.tags =~= x.tags) by {
        assert(back.tags.len() == x.tags.len());
        assert forall|i: int| 0 <= i < x.tags.len() implies back.tags[i] == x.tags[i] by {
            assert(l[6 + 2 * i] == x.tags[(2 * i) / 2].0);
            assert(l[6 + 2 * i + 1] == x.tags[(2 * i + 1) / 2].1);
        }
    }
}

/// An upper estimate of the archived size of an index record.
pub open spec fn index_weight(e: EventIndexView) -> int {
    words_weight(flat(e))
}

pub proof fn lemma_words_weight_monotone(w: Seq<Seq<u8>>, n: int)
    requires
        0 <= n <= w.len(),
    ensures
        64 <= words_weight(w.take(n)) <= words_weight(w),
    decreases w.len(),
{
    if w.len() == 0 {
        assert(w.take(n) =~= w);
    } else if n == w.len() {
        assert(w.take(n) =~= w);
        lemma_words_weight_monotone(w.drop_last(), n - 1);
    } else {
        assert(w.take(n) =~= w.drop_last().take(n));
        lemma_words_weight_monotone(w.drop_last(), n);
    }
}

/// Whether the word list weighs no more than `MAX_ARCHIVE`.
fn words_fit(words: &Vec<Vec<u8>>) -> (r: bool)
    ensures
        r == (words_weight(words_view(words@)) <= MAX_ARCHIVE),
{
    let ghost all = words_view(words@);
    let mut acc: usize = 64;
    let mut i: usize = 0;
    assert(all.take(0).len() == 0);
    while i < words.len()
        invariant
            i <= words.len(),
            all == words_view(words@),
            acc == words_weight(all.take(i as int)),
            acc <= MAX_ARCHIVE,
        decreases words.len() - i,
    {
        let a = words[i].len();
        proof {
            assert(all.take(i + 1).drop_last() =~= all.take(i as int));
            assert(all.take(i + 1).last() == all[i as int]);
            lemma_words_weight_monotone(all, i + 1);
        }
        if a > MAX_ARCHIVE - acc || 16 > MAX_ARCHIVE - acc - a {
            return false;
        }
        acc = acc + a + 16;
        i += 1;
    }
    assert(all.take(i as int) =~= all);
    true
}

/// The archive that `rkyv` writes for a list of byte strings. `rkyv` is
/// built with its `strict` and `archive_le` features, under which it gives
/// its archived types one representation on every platform and in every
/// build: an archive stays readable for the life of a database.
pub uninterp spec fn archived_words(w: Seq<Seq<u8>>) -> Option<Seq<u8>>;

/// The list of words that `rkyv` reads from an archive, after checking it.
pub uninterp spec fn unarchived_words(bytes: Seq<u8>) -> Option<Seq<Seq<u8>>>;

/// The archive of an index record: the archive of the list of byte strings
/// that stands for it.
pub open spec fn archived_index(e: EventIndexView) -> Option<Seq<u8>> {
    archived_words(flat(e))
}

/// The index record that an archive holds: the record that the archived
/// list of byte strings stands for.
pub open spec fn unarchived_index(bytes: Seq<u8>) -> Option<EventIndexView> {
    match unarchived_words(bytes) {
        Some(l) => unflat(l),
        None => None,
    }
}

/// Reading gives back what was archived: `r`, read from `bytes`, is the one
/// list of words whose archive `bytes` is, if there is such a list.
pub open spec fn words_read_back(bytes: Seq<u8>, r: Option<Vec<Vec<u8>>>) -> bool {
    forall|x: Seq<Seq<u8>>|
        archived_words(x) == Some(bytes) ==> (r matches Some(w) && words_view(w@) == x)
}

/// `rkyv::to_bytes` on a list of words. The size bound keeps every offset
/// inside the archive within the 32 bits that the format gives it.
#[verifier::external_body]
fn rkyv_words_to_bytes(words: &Vec<Vec<u8>>) -> (r: Option<Vec<u8>>)
    requires
        words_weight(words_view(words@)) <= MAX_ARCHIVE,
    ensures
        r.is_some() == archived_words(words_view(words@)).is_some(),
        r matches Some(b) ==> b@ == archived_words(words_view(words@)).unwrap(),
{
    match rkyv::to_bytes::<_, 256>(words) {
        Ok(b) => Some(b.to_vec()),
        Err(_) => None,
    }
}

/// `rkyv::from_bytes` for a list of words, on an aligned copy of `bytes`.
/// What `rkyv::to_bytes` wrote for a list reads back as that list.
#[verifier::external_body]
fn rkyv_words_from_bytes(bytes: &[u8]) -> (r: Option<Vec<Vec<u8>>>)
    ensures
        r.is_some() == unarchived_words(bytes@).is_some(),
        r matches Some(w) ==> words_view(w@) == unarchived_words(bytes@).unwrap(),
        words_read_back(bytes@, r),
{
    let mut a = rkyv::AlignedVec::new();
    a.extend_from_slice(bytes);
    match rkyv::from_bytes::<Vec<Vec<u8>>>(&a) {
        Ok(w) => Some(w),
        Err(_) => None,
    }
}

/// The bytes of `b` after the first.
fn copy_tail(b: &Vec<u8>) -> (r: Vec<u8>)
    requires
        b@.len() >= 1,
    ensures
        r@ == b@.skip(1),
{
    let mut out: Vec<u8> = Vec::new();
    let mut i: usize = 1;
    while i < b.len()
        invariant
            1 <= i <= b.len(),
            out@ == b@.subrange(1, i as int),
        decreases b.len() - i,
    {
        out.push(b[i]);
        i += 1;
        assert(out@ =~= b@.subrange(1, i as int));
    }
    assert(b@.subrange(1, b@.len() as int) =~= b@.skip(1));
    out
}

impl EventIndex {
    /// The list of byte strings that stands for the record.
    pub fn flatten(&self) -> (r: Vec<Vec<u8>>)
        ensures
            words_view(r@) == flat(self@),
    {
        let ghost want = flat(self@);
        let mut out: Vec<Vec<u8>> = Vec::new();
        out.push(copy_bytes(self.id.as_slice()));
        out.push(copy_bytes(self.pubkey.as_slice()));
        out.push(u64_to_ver(self.kind));
        out.push(u64_to_ver(self.created_at));
        match &self.delegator {
            Some(d) => {
                let mut b: Vec<u8> = Vec::new();
                b.push(1u8);
                let mut i: usize = 0;
                while i < d.len()
                    invariant
                        i <= d.len(),
                        b@ == seq![1u8] + d@.take(i as int),
                    decreases d.len() - i,
                {
                    b.push(d[i]);
                    i += 1;
                    assert(b@ =~= seq![1u8] + d@.take(i as int));
                }
                assert(d@.take(d@.len() as int) =~= d@);
                out.push(b);
            },
            None => {
                let mut b: Vec<u8> = Vec::new();
                b.push(0u8);
                assert(b@ =~= seq![0u8]);
                out.push(b);
            },
        }
        match self.expiration {
            Some(t) => {
                out.push(u64_to_ver(t));
            },
            None => {
                let b: Vec<u8> = Vec::new();
                assert(b@ =~= Seq::<u8>::empty());
                out.push(b);
            },
        }
        let mut i: usize = 0;
        while i < self.tags.len()
            invariant
                i <= self.tags.len(),
                want == flat(self@),
                out@.len() == 6 + 2 * i,
                forall|j: int| 0 <= j < 6 + 2 * i ==> (#[trigger] out@[j])@ == want[j],
            decreases self.tags.len() - i,
        {
            let ghost prev = out@;
            out.push(copy_bytes(self.tags[i].0.as_slice()));
            out.push(copy_bytes(self.tags[i].1.as_slice()));
            proof {
                assert(want[6 + 2 * i] == self@.tags[(2 * i) / 2].0);
                assert(want[6 + 2 * i + 1] == self@.tags[(2 * i + 1) / 2].1);
                assert forall|j: int| 0 <= j < 6 + 2 * (i + 1) implies (#[trigger] out@[j])@
                    == want[j] by {
                    if j < 6 + 2 * i {
                        assert(out@[j] == prev[j]);
                    }
                }
            }
            i += 1;
        }
        assert(words_view(out@) =~= want);
        out
    }

    /// The record that a list of byte strings stands for, if it stands for
    /// one.
    pub fn unflatten(l: &Vec<Vec<u8>>) -> (r: Option<EventIndex>)
        ensures
            r.is_some() == unflat(words_view(l@)).is_some(),
            r matches Some(e) ==> e@ == unflat(words_view(l@)).unwrap(),
    {
        let ghost lv = words_view(l@);
        let n = l.len();
        if n < 6 || (n - 6) % 2 != 0 {
            return None;
        }
        proof {
            assert forall|j: int| 0 <= j < n implies lv[j] == (#[trigger] l@[j])@ by {}
        }
        if l[2].len() != 8 || l[3].len() != 8 || l[4].len() < 1 {
            return None;
        }
        let flag = l[4][0];
        if !((flag == 0 && l[4].len() == 1) || flag == 1) {
            return None;
        }
        if !(l[5].len() == 0 || l[5].len() == 8) {
            return None;
        }
        let kind = match u64_from_bytes(l[2].as_slice()) {
            Ok(k) => k,
            Err(_) => {
                return None;
            },
        };
        let created_at = match u64_from_bytes(l[3].as_slice()) {
            Ok(k) => k,
            Err(_) => {
                return None;
            },
        };
        let delegator = if flag == 0 {
            None
        } else {
            Some(copy_tail(&l[4]))
        };
        let expiration = if l[5].len() == 0 {
            None
        } else {
            match u64_from_bytes(l[5].as_slice()) {
                Ok(k) => Some(k),
                Err(_) => {
                    return None;
                },
            }
        };
        let count = (n - 6) / 2;
        let mut tags: Vec<(Vec<u8>, Vec<u8>)> = Vec::new();
        let mut i: usize = 0;
        while i < count
            invariant
                i <= count,
                n == l@.len(),
                n >= 6,
                count == (n - 6) / 2,
                (n - 6) % 2 == 0,
                lv == words_view(l@),
                tags@.len() == i,
                forall|j: int|
                    0 <= j < i ==> (#[trigger] tags@[j]).0@ == lv[6 + 2 * j] && tags@[j].1@ == lv[6
                        + 2 * j + 1],
            decreases count - i,
        {
            let name = copy_bytes(l[6 + 2 * i].as_slice());
            let value = copy_bytes(l[6 + 2 * i + 1].as_slice());
            tags.push((name, value));
            i += 1;
        }
        let e = EventIndex {
            id: copy_bytes(l[0].as_slice()),
            pubkey: copy_bytes(l[1].as_slice()),
            kind,
            created_at,
            delegator,
            expiration,
            tags,
        };
        proof {
            assert(e@.tags =~= unflat(lv).unwrap().tags);
        }
        Some(e)
    }

    /// The archive of the record. It fails where the record is too large to
    /// archive or the archiver gives up.
    pub fn to_bytes(&self) -> (r: Result<Vec<u8>, Error>)
        ensures
            r.is_ok() == (index_weight(self@) <= MAX_ARCHIVE && archived_index(self@).is_some()),
            r matches Ok(b) ==> b@ == archived_index(self@).unwrap(),
            r matches Err(e) ==> e == Error::Serialization,
    {
        let list = self.flatten();
        words_to_bytes(&list)
    }

    /// The record that an archive holds. What `to_bytes` gave for a record
    /// is read back as that record.
    pub fn from_bytes(bytes: &[u8]) -> (r: Result<EventIndex, Error>)
        ensures
            r.is_ok() == unarchived_index(bytes@).is_some(),
            r matches Ok(e) ==> e@ == unarchived_index(bytes@).unwrap(),
            r matches Err(e) ==> e == Error::Serialization,
            forall|x: EventIndexView|
                archived_index(x) == Some(bytes@) ==> (r matches Ok(e) && e@ == x),
    {
        match words_from_bytes(bytes) {
            Ok(list) => {
                proof {
                    assert forall|x: EventIndexView| archived_index(x) == Some(bytes@) implies unflat(
                        words_view(list@),
                    ) == Some(x) by {
                        lemma_unflat_flat(x);
                    }
                }
                match EventIndex::unflatten(&list) {
                    Some(e) => Ok(e),
                    None => Err(Error::Serialization),
                }
            },
            Err(e) => Err(e),
        }
    }
}

/// The archive of a list of words. It fails where the list is too large to
/// archive or the archiver gives up.
pub fn words_to_bytes(words: &Vec<Vec<u8>>) -> (r: Result<Vec<u8>, Error>)
    ensures
        r.is_ok() == (words_weight(words_view(words@)) <= MAX_ARCHIVE && archived_words(
            words_view(words@),
        ).is_some()),
        r matches Ok(b) ==> b@ == archived_words(words_view(words@)).unwrap(),
        r matches Err(e) ==> e == Error::Serialization,
{
    if !words_fit(words) {
        return Err(Error::Serialization);
    }
    match rkyv_words_to_bytes(words) {
        Some(b) => Ok(b),
        None => Err(Error::Serialization),
    }
}

/// The list of words that an archive holds.
pub fn words_from_bytes(bytes: &[u8]) -> (r: Result<Vec<Vec<u8>>, Error>)
    ensures
        r.is_ok() == unarchived_words(bytes@).is_some(),
        r matches Ok(w) ==> words_view(w@) == unarchived_words(bytes@).unwrap(),
        r matches Err(e) ==> e == Error::Serialization,
        forall|x: Seq<Seq<u8>>|
            archived_words(x) == Some(bytes@) ==> (r matches Ok(w) && words_view(w@) == x),
{
    match rkyv_words_from_bytes(bytes) {
        Some(w) => Ok(w),
        None => Err(Error::Serialization),
    }
}

/// Every byte string of a list weighs sixteen at least.
pub proof fn lemma_words_weight_floor(w: Seq<Seq<u8>>)
    ensures
        words_weight(w) >= 16 * w.len(),
    decreases w.len(),
{
    if w.len() > 0 {
        lemma_words_weight_floor(w.drop_last());
    }
}

} // verus!
