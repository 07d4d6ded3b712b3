//! The store as contracts see it: the live events by internal identifier,
//! and what each table holds for them.

use vstd::prelude::*;
use crate::bytes::{be64, lemma_be64_roundtrip};
use crate::error::Error;
use crate::event::{archived_index, archived_words, index_weight, words_weight, EventIndexView, EventView, TagView, MAX_ARCHIVE};
use crate::key::{e_name, id_key, kind_key, pubkey_key, pubkey_kind_key, replace_key, tag_key, tag_value, time_key, word_key};
use crate::payload::stored_payload;
use crate::tree::{lemma_without_key_single, single_valued, without_key, Pair};

verus! {

/// The longest tag value that is taken in.
pub const MAX_TAG_VALUE_SIZE: usize = 255;

/// The tables that follow from the live events alone.
#[derive(Clone, Copy, PartialEq, Eq, Structural, Debug)]
pub enum Table {
    Data,
    Index,
    IdUid,
    UidWord,
    Id,
    Pubkey,
    Kind,
    PubkeyKind,
    Time,
    Tag,
    Replacement,
    Expiration,
    Word,
    Deletion,
}

/// Whether a table keeps several values under one key.
pub open spec fn table_dup(t: Table) -> bool {
    match t {
        Table::Pubkey | Table::Kind | Table::PubkeyKind | Table::Time | Table::Tag
        | Table::Expiration | Table::Word | Table::Deletion => true,
        _ => false,
    }
}

pub struct State {
    /// The events that are stored, by internal identifier.
    pub live: Map<u64, EventView>,
    /// The last identifier that was given out.
    pub seq: u64,
    /// Whether payloads are compressed when they are written.
    pub compress: bool,
}

/// The id and the public key of an event are 32 bytes long each.
pub open spec fn ids_shaped(e: EventIndexView) -> bool {
    e.id.len() == 32 && e.pubkey.len() == 32
}

/// What ingestion asks of an event's shape.
pub open spec fn well_shaped(e: EventIndexView) -> bool {
    &&& e.id.len() == 32
    &&& e.pubkey.len() == 32
    &&& e.delegator matches Some(d) ==> d.len() == 32
    &&& forall|i: int| 0 <= i < e.tags.len() ==> (#[trigger] e.tags[i]).1.len() <= MAX_TAG_VALUE_SIZE
}

/// Whether all that is written for an event can be encoded.
pub open spec fn encodable(e: EventView, compress: bool) -> bool {
    &&& index_weight(e.index) <= MAX_ARCHIVE
    &&& archived_index(e.index).is_some()
    &&& stored_payload(e.payload, compress).is_some()
    &&& e.words matches Some(w) ==> words_weight(w) <= MAX_ARCHIVE && archived_words(w).is_some()
}

/// The entries that table `t` holds for the event `e` stored as `uid`.
pub open spec fn entries(t: Table, uid: u64, e: EventView, compress: bool) -> Set<Pair> {
    let x = e.index;
    let u = be64(uid);
    let at = x.created_at;
    match t {
        Table::Data => set![(u, stored_payload(e.payload, compress).unwrap())],
        Table::Index => set![(u, archived_index(x).unwrap())],
        Table::IdUid => set![(x.id, u)],
        Table::UidWord => match e.words {
            Some(w) => set![(u, archived_words(w).unwrap())],
            None => Set::empty(),
        },
        Table::Id => set![(id_key(x.id, at), u)],
        Table::Pubkey => match x.delegator {
            Some(d) => set![(pubkey_key(x.pubkey, at), u), (pubkey_key(d, at), u)],
            None => set![(pubkey_key(x.pubkey, at), u)],
        },
        Table::Kind => set![(kind_key(x.kind, at), u)],
        Table::PubkeyKind => match x.delegator {
            Some(d) => set![
                (pubkey_kind_key(x.pubkey, x.kind, at), u),
                (pubkey_kind_key(d, x.kind, at), u),
            ],
            None => set![(pubkey_kind_key(x.pubkey, x.kind, at), u)],
        },
        Table::Time => set![(time_key(at), u)],
        Table::Tag => Set::new(|p: Pair| is_tag_entry(x.tags, x.tags.len() as int, at, uid, x.kind, p)),
        Table::Replacement => match replace_key(x.kind, x.pubkey, x.tags) {
            Some(rk) => set![(rk, u)],
            None => Set::empty(),
        },
        Table::Expiration => match x.expiration {
            Some(until) => set![(time_key(until), u)],
            None => Set::empty(),
        },
        Table::Word => match e.words {
            Some(w) => Set::new(|p: Pair| is_word_entry(w, w.len() as int, at, uid, p)),
            None => Set::empty(),
        },
        Table::Deletion => if x.kind == 5 {
            Set::new(|p: Pair| is_tomb_entry(x.tags, x.tags.len() as int, x.pubkey, uid, p))
        } else {
            Set::empty()
        },
    }
}

/// `p` is the tombstone that a deletion event lays for one of its first `n`
/// tags: for an `e` tag, the target followed by the public key of the
/// event, with the identifier of the event.
pub open spec fn is_tomb_entry(tags: Seq<TagView>, n: int, pubkey: Seq<u8>, uid: u64, p: Pair) -> bool {
    exists|j: int|
        0 <= j < n && j < tags.len() && (#[trigger] tags[j]).0 == e_name() && p == (
            tombstone_key(tags[j].1, pubkey),
            be64(uid),
        )
}

/// The live deletion event `uid` lays a tombstone under `k`.
pub open spec fn lays(live: Map<u64, EventView>, k: Seq<u8>, uid: u64) -> bool {
    &&& live.contains_key(uid)
    &&& live[uid].index.kind == 5
    &&& tombstone_keys(
        live[uid].index.tags,
        live[uid].index.tags.len() as int,
        live[uid].index.pubkey,
    ).contains(k)
}

/// A tombstone lies under `k`: some live deletion event lays it. It lies as
/// long as one of the deletion events that lay it is live.
pub open spec fn tombstoned(live: Map<u64, EventView>, k: Seq<u8>) -> bool {
    exists|uid: u64| #[trigger] lays(live, k, uid)
}

/// `p` is the tag entry of one of the first `n` tags.
pub open spec fn is_tag_entry(tags: Seq<TagView>, n: int, at: u64, uid: u64, kind: u64, p: Pair) -> bool {
    exists|i: int|
        0 <= i < n && i < tags.len() && p == (
            #[trigger] tag_key(tags[i].0, tags[i].1, at),
            tag_value(uid, kind),
        )
}

/// `p` is the word entry of one of the first `n` words.
pub open spec fn is_word_entry(w: Seq<Seq<u8>>, n: int, at: u64, uid: u64, p: Pair) -> bool {
    exists|i: int| 0 <= i < n && i < w.len() && p == (#[trigger] word_key(w[i], at), be64(uid))
}

/// `p` is an entry of table `t` for the live event `uid`.
pub open spec fn has_entry(
    t: Table,
    live: Map<u64, EventView>,
    compress: bool,
    uid: u64,
    p: Pair,
) -> bool {
    live.contains_key(uid) && entries(t, uid, live[uid], compress).contains(p)
}

/// All that table `t` holds when the live events are `live`.
pub open spec fn derived(t: Table, live: Map<u64, EventView>, compress: bool) -> Set<Pair> {
    Set::new(|p: Pair| exists|uid: u64| #[trigger] has_entry(t, live, compress, uid, p))
}

/// The identifier that an entry of table `t` carries: in its key where the
/// table is keyed by identifier, else at the start of its value.
pub open spec fn carried_uid(t: Table, p: Pair) -> Seq<u8> {
    match t {
        Table::Data | Table::Index | Table::UidWord => p.0,
        Table::Tag => p.1.subrange(0, 8),
        _ => p.1,
    }
}

pub proof fn lemma_entry_carries_uid(t: Table, uid: u64, e: EventView, compress: bool, p: Pair)
    requires
        entries(t, uid, e, compress).contains(p),
    ensures
        carried_uid(t, p) == be64(uid),
{
    lemma_be64_roundtrip(uid);
    if t is Tag {
        assert(tag_value(uid, e.index.kind).subrange(0, 8) =~= be64(uid));
    }
}

/// An entry belongs to one live event only.
pub proof fn lemma_entry_owner(
    t: Table,
    live: Map<u64, EventView>,
    compress: bool,
    a: u64,
    b: u64,
    p: Pair,
)
    requires
        has_entry(t, live, compress, a, p),
        has_entry(t, live, compress, b, p),
    ensures
        a == b,
{
    lemma_entry_carries_uid(t, a, live[a], compress, p);
    lemma_entry_carries_uid(t, b, live[b], compress, p);
    lemma_be64_roundtrip(a);
    lemma_be64_roundtrip(b);
}

/// A new live event adds its entries to a table and changes no other.
pub proof fn lemma_derived_insert(
    t: Table,
    live: Map<u64, EventView>,
    compress: bool,
    uid: u64,
    e: EventView,
)
    requires
        !live.contains_key(uid),
    ensures
        derived(t, live.insert(uid, e), compress) == derived(t, live, compress).union(
            entries(t, uid, e, compress),
        ),
{
    let after = live.insert(uid, e);
    assert forall|p: Pair|
        derived(t, after, compress).contains(p) <==> derived(t, live, compress).union(
            entries(t, uid, e, compress),
        ).contains(p) by {
        if derived(t, after, compress).contains(p) {
            let u = choose|u: u64| #[trigger] has_entry(t, after, compress, u, p);
            if u != uid {
                assert(has_entry(t, live, compress, u, p));
            }
        }
        if derived(t, live, compress).contains(p) {
            let u = choose|u: u64| #[trigger] has_entry(t, live, compress, u, p);
            assert(has_entry(t, after, compress, u, p));
        }
        if entries(t, uid, e, compress).contains(p) {
            assert(has_entry(t, after, compress, uid, p));
        }
    }
    assert(derived(t, after, compress) =~= derived(t, live, compress).union(
        entries(t, uid, e, compress),
    ));
}

/// A live event that goes takes its entries out of a table and no other.
pub proof fn lemma_derived_remove(t: Table, live: Map<u64, EventView>, compress: bool, uid: u64)
    requires
        live.contains_key(uid),
    ensures
        derived(t, live.remove(uid), compress) == derived(t, live, compress).difference(
            entries(t, uid, live[uid], compress),
        ),
{
    let after = live.remove(uid);
    let gone = entries(t, uid, live[uid], compress);
    assert forall|p: Pair|
        derived(t, after, compress).contains(p) <==> derived(t, live, compress).difference(
            gone,
        ).contains(p) by {
        if derived(t, after, compress).contains(p) {
            let u = choose|u: u64| #[trigger] has_entry(t, after, compress, u, p);
            assert(has_entry(t, live, compress, u, p));
            if gone.contains(p) {
                assert(has_entry(t, live, compress, uid, p));
                lemma_entry_owner(t, live, compress, u, uid, p);
            }
        }
        if derived(t, live, compress).contains(p) && !gone.contains(p) {
            let u = choose|u: u64| #[trigger] has_entry(t, live, compress, u, p);
            assert(has_entry(t, after, compress, u, p));
        }
    }
    assert(derived(t, after, compress) =~= derived(t, live, compress).difference(gone));
}

/// The key of the tombstone that `pubkey` lays on `target`.
pub open spec fn tombstone_key(target: Seq<u8>, pubkey: Seq<u8>) -> Seq<u8> {
    target + pubkey
}

/// The live event with the given id, if there is one.
pub open spec fn holds_id(live: Map<u64, EventView>, id: Seq<u8>, uid: u64) -> bool {
    live.contains_key(uid) && live[uid].index.id == id
}

pub open spec fn id_is_live(live: Map<u64, EventView>, id: Seq<u8>) -> bool {
    exists|uid: u64| #[trigger] holds_id(live, id, uid)
}

/// The live event with the given replace-key, if there is one.
pub open spec fn holds_replace_key(live: Map<u64, EventView>, rk: Seq<u8>, uid: u64) -> bool {
    live.contains_key(uid) && replace_key(
        live[uid].index.kind,
        live[uid].index.pubkey,
        live[uid].index.tags,
    ) == Some(rk)
}

/// Whether `pubkey` may delete `target`: it signed it or it is its
/// delegator, and the target is no deletion event itself.
pub open spec fn deletable_by(target: EventIndexView, pubkey: Seq<u8>) -> bool {
    (target.pubkey == pubkey || target.delegator == Some(pubkey)) && target.kind != 5
}

/// One of the first `n` tags is an `e` tag that points at `id`.
pub open spec fn points_at(tags: Seq<TagView>, n: int, id: Seq<u8>) -> bool {
    exists|j: int| 0 <= j < n && j < tags.len() && #[trigger] tags[j] == (e_name(), id)
}

/// The live events that the first `n` tags of a deletion event by `pubkey`
/// delete.
pub open spec fn deletion_targets(
    live: Map<u64, EventView>,
    tags: Seq<TagView>,
    n: int,
    pubkey: Seq<u8>,
) -> Set<u64> {
    Set::new(
        |uid: u64|
            live.contains_key(uid) && deletable_by(live[uid].index, pubkey) && points_at(
                tags,
                n,
                live[uid].index.id,
            ),
    )
}

/// Tag `j` is the first `e` tag that points at its target, and the target is
/// a live event that `pubkey` may delete.
pub open spec fn deletes_at(live: Map<u64, EventView>, tags: Seq<TagView>, j: int, pubkey: Seq<u8>) -> bool {
    &&& 0 <= j < tags.len()
    &&& tags[j].0 == e_name()
    &&& !points_at(tags, j, tags[j].1)
    &&& exists|uid: u64| #[trigger]
        holds_id(live, tags[j].1, uid) && deletable_by(live[uid].index, pubkey)
}

/// How many events the first `n` tags of a deletion event by `pubkey` delete.
pub open spec fn deletion_count(
    live: Map<u64, EventView>,
    tags: Seq<TagView>,
    n: int,
    pubkey: Seq<u8>,
) -> int
    decreases n,
{
    if n <= 0 {
        0
    } else {
        deletion_count(live, tags, n - 1, pubkey) + if deletes_at(live, tags, n - 1, pubkey) {
            1int
        } else {
            0int
        }
    }
}

/// The keys of the tombstones that the first `n` tags of a deletion event by
/// `pubkey` lay.
pub open spec fn tombstone_keys(tags: Seq<TagView>, n: int, pubkey: Seq<u8>) -> Set<Seq<u8>> {
    Set::new(
        |k: Seq<u8>|
            exists|j: int|
                0 <= j < n && j < tags.len() && (#[trigger] tags[j]).0 == e_name() && k
                    == tombstone_key(tags[j].1, pubkey),
    )
}

/// How ingesting one event ends.
pub enum Outcome {
    Invalid,
    Duplicate,
    Deleted,
    ReplaceIgnored,
    Failed(Error),
    /// The event was stored; the number counts it and the events that it
    /// deleted or replaced.
    Stored(int),
}

/// Some live event holds the replace-key `rk`.
pub open spec fn replace_key_is_live(live: Map<u64, EventView>, rk: Seq<u8>) -> bool {
    exists|uid: u64| #[trigger] holds_replace_key(live, rk, uid)
}

/// The live event that `e` would replace, if there is one.
pub open spec fn replaced_by(live: Map<u64, EventView>, e: EventIndexView) -> Option<u64> {
    match replace_key(e.kind, e.pubkey, e.tags) {
        Some(rk) => if replace_key_is_live(live, rk) {
            Some(choose|uid: u64| #[trigger] holds_replace_key(live, rk, uid))
        } else {
            None
        },
        None => None,
    }
}

/// How ingesting `e` into `s` ends. The checks come in this order: the
/// length of id and public key, duplicate, tombstone, the length of the
/// delegator and of the tag values, an older event losing to the one it
/// would replace, encoding, and room for one more identifier.
pub open spec fn put_outcome(s: State, e: EventView) -> Outcome {
    let x = e.index;
    if !ids_shaped(x) {
        Outcome::Invalid
    } else if id_is_live(s.live, x.id) {
        Outcome::Duplicate
    } else if tombstoned(s.live, tombstone_key(x.id, x.pubkey)) {
        Outcome::Deleted
    } else if !well_shaped(x) {
        Outcome::Invalid
    } else if replaced_by(s.live, x) matches Some(u) && x.created_at
        < s.live[u].index.created_at {
        Outcome::ReplaceIgnored
    } else if !encodable(e, s.compress) {
        Outcome::Failed(Error::Serialization)
    } else if s.seq == u64::MAX {
        Outcome::Failed(Error::Substrate)
    } else {
        Outcome::Stored(
            1 + (if x.kind == 5 {
                deletion_count(s.live, x.tags, x.tags.len() as int, x.pubkey)
            } else {
                0
            }) + (if replaced_by(s.live, x).is_some() {
                1int
            } else {
                0int
            }),
        )
    }
}

/// The live events that make room for `e`.
pub open spec fn displaced(s: State, e: EventIndexView) -> Set<u64> {
    if e.kind == 5 {
        deletion_targets(s.live, e.tags, e.tags.len() as int, e.pubkey)
    } else {
        match replaced_by(s.live, e) {
            Some(u) => set![u],
            None => Set::empty(),
        }
    }
}

/// The store after ingesting `e` into `s`: unchanged unless the event is
/// stored; else without the events that it deletes or replaces, and with the
/// event under the next identifier.
pub open spec fn put_state(s: State, e: EventView) -> State {
    let x = e.index;
    match put_outcome(s, e) {
        Outcome::Stored(_) => State {
            live: s.live.remove_keys(displaced(s, x)).insert((s.seq + 1) as u64, e),
            seq: (s.seq + 1) as u64,
            compress: s.compress,
        },
        _ => s,
    }
}

/// The store after the event stored as `uid` was taken out. A tombstone
/// that the event laid goes with it unless another live deletion event lays
/// it too.
pub open spec fn del_state(s: State, uid: u64) -> State {
    State { live: s.live.remove(uid), seq: s.seq, compress: s.compress }
}

/// A table that is keyed by identifier holds nothing under the key of an
/// identifier that is not live.
pub proof fn lemma_uid_key_fresh(t: Table, live: Map<u64, EventView>, compress: bool, uid: u64)
    requires
        t is Data || t is Index || t is UidWord,
        !live.contains_key(uid),
    ensures
        forall|w: Seq<u8>| !derived(t, live, compress).contains((be64(uid), w)),
{
    assert forall|w: Seq<u8>| !derived(t, live, compress).contains((be64(uid), w)) by {
        let p: Pair = (be64(uid), w);
        if derived(t, live, compress).contains(p) {
            let u = choose|u: u64| #[trigger] has_entry(t, live, compress, u, p);
            lemma_entry_carries_uid(t, u, live[u], compress, p);
            lemma_be64_roundtrip(u);
            lemma_be64_roundtrip(uid);
        }
    }
}

/// Under the key of a live identifier a table that is keyed by identifier
/// holds the entries of that event only.
pub proof fn lemma_uid_key_own(
    t: Table,
    live: Map<u64, EventView>,
    compress: bool,
    uid: u64,
    w: Seq<u8>,
)
    requires
        t is Data || t is Index || t is UidWord,
        derived(t, live, compress).contains((be64(uid), w)),
    ensures
        live.contains_key(uid),
        entries(t, uid, live[uid], compress).contains((be64(uid), w)),
{
    let p: Pair = (be64(uid), w);
    let u = choose|u: u64| #[trigger] has_entry(t, live, compress, u, p);
    lemma_entry_carries_uid(t, u, live[u], compress, p);
    lemma_be64_roundtrip(u);
    lemma_be64_roundtrip(uid);
}

/// The table from id to identifier holds a key exactly for the live ids.
pub proof fn lemma_id_uid_keys(live: Map<u64, EventView>, compress: bool, id: Seq<u8>)
    ensures
        id_is_live(live, id) <==> exists|w: Seq<u8>|
            derived(Table::IdUid, live, compress).contains((id, w)),
        forall|w: Seq<u8>|
            derived(Table::IdUid, live, compress).contains((id, w)) ==> exists|uid: u64|
                #[trigger] holds_id(live, id, uid) && w == be64(uid),
{
    if id_is_live(live, id) {
        let uid = choose|uid: u64| #[trigger] holds_id(live, id, uid);
        assert(has_entry(Table::IdUid, live, compress, uid, (id, be64(uid))));
        assert(derived(Table::IdUid, live, compress).contains((id, be64(uid))));
    }
    assert forall|w: Seq<u8>|
        derived(Table::IdUid, live, compress).contains((id, w)) implies exists|uid: u64|
        #[trigger] holds_id(live, id, uid) && w == be64(uid) by {
        let p: Pair = (id, w);
        let u = choose|u: u64| #[trigger] has_entry(Table::IdUid, live, compress, u, p);
        assert(holds_id(live, id, u));
    }
}

/// The index by id holds nothing under the key of an id that is not live.
pub proof fn lemma_id_key_fresh(live: Map<u64, EventView>, compress: bool, id: Seq<u8>, at: u64)
    requires
        !id_is_live(live, id),
        id.len() == 32,
        forall|uid: u64| live.contains_key(uid) ==> (#[trigger] live[uid]).index.id.len() == 32,
    ensures
        forall|w: Seq<u8>| !derived(Table::Id, live, compress).contains((id_key(id, at), w)),
{
    assert forall|w: Seq<u8>| !derived(Table::Id, live, compress).contains(
        (id_key(id, at), w),
    ) by {
        let p: Pair = (id_key(id, at), w);
        if derived(Table::Id, live, compress).contains(p) {
            let u = choose|u: u64| #[trigger] has_entry(Table::Id, live, compress, u, p);
            let other = live[u].index;
            assert(id_key(other.id, other.created_at).subrange(0, 32) =~= other.id);
            assert(id_key(id, at).subrange(0, 32) =~= id);
            assert(holds_id(live, id, u));
        }
    }
}

/// The replacement table holds a key exactly for the live replace-keys.
pub proof fn lemma_replacement_keys(live: Map<u64, EventView>, compress: bool, rk: Seq<u8>)
    ensures
        replace_key_is_live(live, rk) <==> exists|w: Seq<u8>|
            derived(Table::Replacement, live, compress).contains((rk, w)),
        forall|w: Seq<u8>|
            derived(Table::Replacement, live, compress).contains((rk, w)) ==> exists|uid: u64|
                #[trigger] holds_replace_key(live, rk, uid) && w == be64(uid),
{
    if replace_key_is_live(live, rk) {
        let uid = choose|uid: u64| #[trigger] holds_replace_key(live, rk, uid);
        assert(has_entry(Table::Replacement, live, compress, uid, (rk, be64(uid))));
        assert(derived(Table::Replacement, live, compress).contains((rk, be64(uid))));
    }
    assert forall|w: Seq<u8>|
        derived(Table::Replacement, live, compress).contains((rk, w)) implies exists|uid: u64|
        #[trigger] holds_replace_key(live, rk, uid) && w == be64(uid) by {
        let p: Pair = (rk, w);
        let u = choose|u: u64| #[trigger] has_entry(Table::Replacement, live, compress, u, p);
        assert(holds_replace_key(live, rk, u));
    }
}

/// What table `t` holds after the entries of a new event were written into
/// a table that held `was`: a table with one value per key takes the new
/// value in place of any old one, a table with several gains the entry.
pub open spec fn written(t: Table, was: Set<Pair>, uid: u64, e: EventView, compress: bool) -> Set<
    Pair,
> {
    let x = e.index;
    let u = be64(uid);
    let at = x.created_at;
    match t {
        Table::Data => without_key(was, u).insert((u, stored_payload(e.payload, compress).unwrap())),
        Table::Index => without_key(was, u).insert((u, archived_index(x).unwrap())),
        Table::IdUid => without_key(was, x.id).insert((x.id, u)),
        Table::UidWord => match e.words {
            Some(w) => without_key(was, u).insert((u, archived_words(w).unwrap())),
            None => was,
        },
        Table::Id => without_key(was, id_key(x.id, at)).insert((id_key(x.id, at), u)),
        Table::Pubkey => match x.delegator {
            Some(d) => was.insert((pubkey_key(x.pubkey, at), u)).insert((pubkey_key(d, at), u)),
            None => was.insert((pubkey_key(x.pubkey, at), u)),
        },
        Table::Kind => was.insert((kind_key(x.kind, at), u)),
        Table::PubkeyKind => match x.delegator {
            Some(d) => was.insert((pubkey_kind_key(x.pubkey, x.kind, at), u)).insert(
                (pubkey_kind_key(d, x.kind, at), u),
            ),
            None => was.insert((pubkey_kind_key(x.pubkey, x.kind, at), u)),
        },
        Table::Time => was.insert((time_key(at), u)),
        Table::Tag => was.union(
            Set::new(|p: Pair| is_tag_entry(x.tags, x.tags.len() as int, at, uid, x.kind, p)),
        ),
        Table::Replacement => match replace_key(x.kind, x.pubkey, x.tags) {
            Some(rk) => without_key(was, rk).insert((rk, u)),
            None => was,
        },
        Table::Expiration => match x.expiration {
            Some(until) => was.insert((time_key(until), u)),
            None => was,
        },
        Table::Word => match e.words {
            Some(w) => was.union(Set::new(|p: Pair| is_word_entry(w, w.len() as int, at, uid, p))),
            None => was,
        },
        Table::Deletion => if x.kind == 5 {
            was.union(
                Set::new(|p: Pair| is_tomb_entry(x.tags, x.tags.len() as int, x.pubkey, uid, p)),
            )
        } else {
            was
        },
    }
}

/// What table `t` holds after the entries of an event were taken out of a
/// table that held `was`.
pub open spec fn erased(t: Table, was: Set<Pair>, uid: u64, e: EventView, compress: bool) -> Set<
    Pair,
> {
    let x = e.index;
    let u = be64(uid);
    let at = x.created_at;
    match t {
        Table::Data => without_key(was, u),
        Table::Index => without_key(was, u),
        Table::IdUid => without_key(was, x.id),
        Table::UidWord => without_key(was, u),
        Table::Id => without_key(was, id_key(x.id, at)),
        Table::Pubkey => match x.delegator {
            Some(d) => was.remove((pubkey_key(x.pubkey, at), u)).remove((pubkey_key(d, at), u)),
            None => was.remove((pubkey_key(x.pubkey, at), u)),
        },
        Table::Kind => was.remove((kind_key(x.kind, at), u)),
        Table::PubkeyKind => match x.delegator {
            Some(d) => was.remove((pubkey_kind_key(x.pubkey, x.kind, at), u)).remove(
                (pubkey_kind_key(d, x.kind, at), u),
            ),
            None => was.remove((pubkey_kind_key(x.pubkey, x.kind, at), u)),
        },
        Table::Time => was.remove((time_key(at), u)),
        Table::Tag => was.difference(
            Set::new(|p: Pair| is_tag_entry(x.tags, x.tags.len() as int, at, uid, x.kind, p)),
        ),
        Table::Replacement => match replace_key(x.kind, x.pubkey, x.tags) {
            Some(rk) => without_key(was, rk),
            None => was,
        },
        Table::Expiration => match x.expiration {
            Some(until) => was.remove((time_key(until), u)),
            None => was,
        },
        Table::Word => match e.words {
            Some(w) => was.difference(
                Set::new(|p: Pair| is_word_entry(w, w.len() as int, at, uid, p)),
            ),
            None => was,
        },
        Table::Deletion => if x.kind == 5 {
            was.difference(
                Set::new(|p: Pair| is_tomb_entry(x.tags, x.tags.len() as int, x.pubkey, uid, p)),
            )
        } else {
            was
        },
    }
}

/// Writing the entries of a new event into the tables of `live` gives the
/// tables of `live` with the event: its id, and its replace-key if it has
/// one, are not held by a live event, so nothing is overwritten.
pub proof fn lemma_written(t: Table, live: Map<u64, EventView>, compress: bool, uid: u64, e: EventView)
    requires
        !live.contains_key(uid),
        !id_is_live(live, e.index.id),
        e.index.id.len() == 32,
        forall|x: u64| live.contains_key(x) ==> (#[trigger] live[x]).index.id.len() == 32,
        replace_key(e.index.kind, e.index.pubkey, e.index.tags) matches Some(rk)
            ==> !replace_key_is_live(live, rk),
    ensures
        written(t, derived(t, live, compress), uid, e, compress) == derived(
            t,
            live.insert(uid, e),
            compress,
        ),
{
    let was = derived(t, live, compress);
    let more = entries(t, uid, e, compress);
    lemma_derived_insert(t, live, compress, uid, e);
    match t {
        Table::Data | Table::Index | Table::UidWord => {
            lemma_uid_key_fresh(t, live, compress, uid);
        },
        Table::IdUid => {
            lemma_id_uid_keys(live, compress, e.index.id);
        },
        Table::Id => {
            lemma_id_key_fresh(live, compress, e.index.id, e.index.created_at);
        },
        Table::Replacement => {
            match replace_key(e.index.kind, e.index.pubkey, e.index.tags) {
                Some(rk) => {
                    lemma_replacement_keys(live, compress, rk);
                },
                None => {},
            }
        },
        _ => {},
    }
    assert(written(t, was, uid, e, compress) =~= was.union(more));
}

/// Taking the entries of a live event out of the tables of `live` gives the
/// tables of `live` without the event, where no key of a table with one
/// value per key is held twice.
pub proof fn lemma_erased(t: Table, live: Map<u64, EventView>, compress: bool, uid: u64)
    requires
        live.contains_key(uid),
        !table_dup(t) ==> single_valued(derived(t, live, compress)),
    ensures
        erased(t, derived(t, live, compress), uid, live[uid], compress) == derived(
            t,
            live.remove(uid),
            compress,
        ),
{
    let e = live[uid];
    let x = e.index;
    let u = be64(uid);
    let was = derived(t, live, compress);
    let gone = entries(t, uid, e, compress);
    lemma_derived_remove(t, live, compress, uid);
    assert forall|p: Pair| gone.contains(p) implies was.contains(p) by {
        assert(has_entry(t, live, compress, uid, p));
    }
    match t {
        Table::Data => {
            let p: Pair = (u, stored_payload(e.payload, compress).unwrap());
            assert(gone.contains(p));
            lemma_without_key_single(was, p.0, p.1);
            assert(was.remove(p) =~= was.difference(gone));
        },
        Table::Index => {
            let p: Pair = (u, archived_index(x).unwrap());
            assert(gone.contains(p));
            lemma_without_key_single(was, p.0, p.1);
            assert(was.remove(p) =~= was.difference(gone));
        },
        Table::IdUid => {
            let p: Pair = (x.id, u);
            assert(gone.contains(p));
            lemma_without_key_single(was, p.0, p.1);
            assert(was.remove(p) =~= was.difference(gone));
        },
        Table::Id => {
            let p: Pair = (id_key(x.id, x.created_at), u);
            assert(gone.contains(p));
            lemma_without_key_single(was, p.0, p.1);
            assert(was.remove(p) =~= was.difference(gone));
        },
        Table::UidWord => {
            match e.words {
                Some(w) => {
                    let p: Pair = (u, archived_words(w).unwrap());
                    assert(gone.contains(p));
                    lemma_without_key_single(was, p.0, p.1);
                    assert(was.remove(p) =~= was.difference(gone));
                },
                None => {
                    assert forall|w: Seq<u8>| !was.contains((u, w)) by {
                        if was.contains((u, w)) {
                            lemma_uid_key_own(t, live, compress, uid, w);
                        }
                    }
                    assert(without_key(was, u) =~= was.difference(gone));
                },
            }
        },
        Table::Replacement => {
            match replace_key(x.kind, x.pubkey, x.tags) {
                Some(rk) => {
                    let p: Pair = (rk, u);
                    assert(gone.contains(p));
                    lemma_without_key_single(was, p.0, p.1);
                    assert(was.remove(p) =~= was.difference(gone));
                },
                None => {
                    assert(was =~= was.difference(gone));
                },
            }
        },
        Table::Pubkey => {
            assert(erased(t, was, uid, e, compress) =~= was.difference(gone));
        },
        Table::PubkeyKind => {
            assert(erased(t, was, uid, e, compress) =~= was.difference(gone));
        },
        Table::Kind => {
            assert(erased(t, was, uid, e, compress) =~= was.difference(gone));
        },
        Table::Time => {
            assert(erased(t, was, uid, e, compress) =~= was.difference(gone));
        },
        Table::Expiration => {
            assert(erased(t, was, uid, e, compress) =~= was.difference(gone));
        },
        Table::Tag => {
            assert(erased(t, was, uid, e, compress) =~= was.difference(gone));
        },
        Table::Word => {
            assert(erased(t, was, uid, e, compress) =~= was.difference(gone));
        },
        Table::Deletion => {
            assert(erased(t, was, uid, e, compress) =~= was.difference(gone));
        },
    }
}

/// The tables that queries scan.
pub open spec fn scannable(t: Table) -> bool {
    t is Id || t is Pubkey || t is Kind || t is PubkeyKind || t is Time || t is Tag
        || t is Expiration || t is Word
}

/// In a table that queries scan, a key ends in eight bytes of time and a
/// value starts with eight bytes of identifier; a tag entry carries the kind
/// after the identifier, and a key of the index by public key and kind
/// carries the kind after the 32 bytes of the public key.
pub open spec fn entry_shaped(t: Table, p: Pair) -> bool {
    &&& p.0.len() >= 8
    &&& p.1.len() >= 8
    &&& t is Tag ==> p.1.len() >= 16
    &&& t is PubkeyKind ==> p.0.len() >= 40
}

pub proof fn lemma_entry_shaped(t: Table, uid: u64, e: EventView, compress: bool, p: Pair)
    requires
        scannable(t),
        well_shaped(e.index),
        entries(t, uid, e, compress).contains(p),
    ensures
        entry_shaped(t, p),
{
    lemma_be64_roundtrip(uid);
    lemma_be64_roundtrip(e.index.kind);
    lemma_be64_roundtrip(e.index.created_at);
    if e.index.expiration is Some {
        lemma_be64_roundtrip(e.index.expiration.unwrap());
    }
}

/// The identifier of the live event with the given id.
pub open spec fn uid_of(live: Map<u64, EventView>, id: Seq<u8>) -> u64 {
    choose|uid: u64| #[trigger] holds_id(live, id, uid)
}

/// The store after the event with the given id was deleted, if it is stored.
pub open spec fn del_id_state(s: State, id: Seq<u8>) -> State {
    if id_is_live(s.live, id) {
        del_state(s, uid_of(s.live, id))
    } else {
        s
    }
}

/// The stored payload of the event with the given id, if it is stored.
pub open spec fn payload_of(s: State, id: Seq<u8>) -> Option<Seq<u8>> {
    if id_is_live(s.live, id) {
        Some(stored_payload(s.live[uid_of(s.live, id)].payload, s.compress).unwrap())
    } else {
        None
    }
}

/// The time at the end of the keys that a table holds for an event.
pub open spec fn entry_time(t: Table, e: EventView) -> u64 {
    if t is Expiration {
        e.index.expiration.unwrap()
    } else {
        e.index.created_at
    }
}

/// The length of the keys of a table whose keys are all of one length.
pub open spec fn key_len(t: Table) -> Option<int> {
    match t {
        Table::Time | Table::Expiration => Some(8),
        Table::Kind => Some(16),
        Table::Id | Table::Pubkey => Some(40),
        Table::PubkeyKind => Some(48),
        _ => None,
    }
}

/// The form of an entry in a table that queries scan: the key ends in the
/// time, the value is the identifier, followed by the kind in a tag entry.
pub proof fn lemma_entry_form(t: Table, uid: u64, e: EventView, compress: bool, p: Pair)
    requires
        scannable(t),
        well_shaped(e.index),
        entries(t, uid, e, compress).contains(p),
    ensures
        p.0.len() >= 8,
        p.0.subrange(p.0.len() - 8, p.0.len() as int) == be64(entry_time(t, e)),
        p.1 == if t is Tag {
            be64(uid) + be64(e.index.kind)
        } else {
            be64(uid)
        },
        key_len(t) matches Some(n) ==> p.0.len() == n,
{
    lemma_be64_roundtrip(uid);
    lemma_be64_roundtrip(e.index.kind);
    lemma_be64_roundtrip(e.index.created_at);
    let at = be64(entry_time(t, e));
    if t is Expiration {
        lemma_be64_roundtrip(e.index.expiration.unwrap());
    }
    assert(p.0.subrange(p.0.len() - 8, p.0.len() as int) =~= at);
}

/// The table of tombstones holds a key exactly while a tombstone lies under
/// it: while some live deletion event lays it.
pub proof fn lemma_deletion_keys(live: Map<u64, EventView>, compress: bool, k: Seq<u8>)
    ensures
        tombstoned(live, k) <==> exists|w: Seq<u8>|
            derived(Table::Deletion, live, compress).contains((k, w)),
{
    let t = Table::Deletion;
    if tombstoned(live, k) {
        let uid = choose|uid: u64| #[trigger] lays(live, k, uid);
        let x = live[uid].index;
        let j = choose|j: int|
            0 <= j < x.tags.len() && j < x.tags.len() && (#[trigger] x.tags[j]).0 == e_name() && k
                == tombstone_key(x.tags[j].1, x.pubkey);
        let p: Pair = (k, be64(uid));
        assert(is_tomb_entry(x.tags, x.tags.len() as int, x.pubkey, uid, p));
        assert(has_entry(t, live, compress, uid, p));
        assert(derived(t, live, compress).contains((k, be64(uid))));
    }
    if exists|w: Seq<u8>| derived(t, live, compress).contains((k, w)) {
        let w = choose|w: Seq<u8>| derived(t, live, compress).contains((k, w));
        let p: Pair = (k, w);
        let uid = choose|uid: u64| #[trigger] has_entry(t, live, compress, uid, p);
        let x = live[uid].index;
        let j = choose|j: int|
            0 <= j < x.tags.len() && j < x.tags.len() && (#[trigger] x.tags[j]).0 == e_name() && p
                == (tombstone_key(x.tags[j].1, x.pubkey), be64(uid));
        assert(tombstone_keys(x.tags, x.tags.len() as int, x.pubkey).contains(k));
        assert(lays(live, k, uid));
    }
}

} // verus!
