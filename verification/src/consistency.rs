//! What holds of the store whatever was ingested and deleted.

use vstd::prelude::*;
use crate::bytes::{be64, lemma_be64_injective};
use crate::event::{archived_index, EventView};
use crate::key::{pubkey_key, pubkey_kind_key, replace_key};
use crate::model::{carried_uid, deletable_by, deletion_targets, displaced, entries, has_entry, holds_id, holds_replace_key, id_is_live, lemma_entry_carries_uid, points_at, put_outcome, put_state, lays, tombstoned, replace_key_is_live, replaced_by, tombstone_key, tombstone_keys, well_shaped, State, Table};
use crate::key::e_name;
use crate::store::Store;
use crate::tree::Pair;

verus! {

/// What holds of the live events of every store: each has an identifier
/// that was given out, no two share an id, and no two share a replace-key.
pub open spec fn consistent(s: State) -> bool {
    &&& forall|uid: u64| #[trigger] s.live.contains_key(uid) ==> uid <= s.seq
    &&& forall|a: u64, b: u64, id: Seq<u8>|
        #[trigger] holds_id(s.live, id, a) && #[trigger] holds_id(s.live, id, b) ==> a == b
    &&& forall|a: u64, b: u64, rk: Seq<u8>|
        #[trigger] holds_replace_key(s.live, rk, a) && #[trigger] holds_replace_key(
            s.live,
            rk,
            b,
        ) ==> a == b
}

/// A store in order is consistent.
pub proof fn lemma_store_consistent(store: &Store)
    requires
        store.wf(),
    ensures
        consistent(store@),
{
    store.lemma_wf();
    assert forall|a: u64, b: u64, id: Seq<u8>|
        #[trigger] holds_id(store@.live, id, a) && #[trigger] holds_id(
            store@.live,
            id,
            b,
        ) implies a == b by {
        store.lemma_ids_distinct(a, b);
    }
    assert forall|a: u64, b: u64, rk: Seq<u8>|
        #[trigger] holds_replace_key(store@.live, rk, a) && #[trigger] holds_replace_key(
            store@.live,
            rk,
            b,
        ) implies a == b by {
        store.lemma_replace_keys_distinct(rk, a, b);
    }
}

/// The primary key is a bijection: the table from id to identifier maps
/// `id` to `uid` exactly if `uid` is the identifier of a live event with
/// that id; the data table holds a payload under `uid` exactly if `uid` is
/// the identifier of a live event; and what the index table holds under
/// `uid` is the archive of the index record of that event, which
/// `Store::get_index` reads back.
pub proof fn lemma_primary_key_bijection(store: &Store, id: Seq<u8>, uid: u64, bytes: Seq<u8>)
    requires
        store.wf(),
    ensures
        store.table(Table::IdUid).pairs().contains((id, be64(uid))) <==> holds_id(
            store@.live,
            id,
            uid,
        ),
        store.table(Table::Data).has_key(be64(uid)) <==> store@.live.contains_key(uid),
        store.table(Table::Index).pairs().contains((be64(uid), bytes)) <==> (
        store@.live.contains_key(uid) && bytes == archived_index(store@.live[uid].index).unwrap()),
        store.table(Table::IdUid).pairs().contains((id, be64(uid))) <==> (store.table(
            Table::Data,
        ).has_key(be64(uid)) && store@.live[uid].index.id == id),
{
    let live = store@.live;
    let c = store@.compress;
    store.lemma_wf();
    store.lemma_table_wf(Table::IdUid);
    store.lemma_table_wf(Table::Data);
    store.lemma_table_wf(Table::Index);
    store.table(Table::Data).lemma_has_key(be64(uid));
    let id_uid = store.table(Table::IdUid).pairs();
    let data = store.table(Table::Data).pairs();
    let index = store.table(Table::Index).pairs();
    if id_uid.contains((id, be64(uid))) {
        let p: Pair = (id, be64(uid));
        let u = choose|u: u64| #[trigger] has_entry(Table::IdUid, live, c, u, p);
        lemma_be64_injective(u, uid);
    }
    if holds_id(live, id, uid) {
        assert(has_entry(Table::IdUid, live, c, uid, (id, be64(uid))));
    }
    if live.contains_key(uid) {
        let p: Pair = (be64(uid), crate::payload::stored_payload(live[uid].payload, c).unwrap());
        assert(has_entry(Table::Data, live, c, uid, p));
        assert(data.contains(p));
        let q: Pair = (be64(uid), archived_index(live[uid].index).unwrap());
        assert(has_entry(Table::Index, live, c, uid, q));
        assert(index.contains(q));
    }
    if exists|v: Seq<u8>| data.contains((be64(uid), v)) {
        let v = choose|v: Seq<u8>| data.contains((be64(uid), v));
        crate::model::lemma_uid_key_own(Table::Data, live, c, uid, v);
    }
    if index.contains((be64(uid), bytes)) {
        crate::model::lemma_uid_key_own(Table::Index, live, c, uid, bytes);
    }
}

/// The indexes are complete and hold nothing else: the entries of a table
/// that carry the identifier of a live event are the entries of that event,
/// and every entry of a table carries the identifier of a live event.
pub proof fn lemma_index_complete(store: &Store, t: Table, uid: u64, p: Pair)
    requires
        store.wf(),
    ensures
        store@.live.contains_key(uid) ==> (entries(
            t,
            uid,
            store@.live[uid],
            store@.compress,
        ).contains(p) <==> (store.table(t).pairs().contains(p) && carried_uid(t, p) == be64(uid))),
        !store@.live.contains_key(uid) ==> !(store.table(t).pairs().contains(p) && carried_uid(
            t,
            p,
        ) == be64(uid)),
{
    let live = store@.live;
    let c = store@.compress;
    store.lemma_table_wf(t);
    if store.table(t).pairs().contains(p) && carried_uid(t, p) == be64(uid) {
        let u = choose|u: u64| #[trigger] has_entry(t, live, c, u, p);
        lemma_entry_carries_uid(t, u, live[u], c, p);
        lemma_be64_injective(u, uid);
    }
    if live.contains_key(uid) && entries(t, uid, live[uid], c).contains(p) {
        assert(has_entry(t, live, c, uid, p));
        lemma_entry_carries_uid(t, uid, live[uid], c, p);
    }
}

/// How many entries an event has in the indexes by id, by kind and by time:
/// one. In the indexes by public key and by public key and kind it has one,
/// and a second one where its delegator is not its signer.
pub proof fn lemma_entry_counts(uid: u64, e: EventView, compress: bool)
    requires
        well_shaped(e.index),
    ensures
        entries(Table::Id, uid, e, compress).len() == 1,
        entries(Table::Kind, uid, e, compress).len() == 1,
        entries(Table::Time, uid, e, compress).len() == 1,
        entries(Table::IdUid, uid, e, compress).len() == 1,
        entries(Table::Pubkey, uid, e, compress).len() == if e.index.delegator is Some
            && e.index.delegator != Some(e.index.pubkey) {
            2nat
        } else {
            1nat
        },
        entries(Table::PubkeyKind, uid, e, compress).len() == if e.index.delegator is Some
            && e.index.delegator != Some(e.index.pubkey) {
            2nat
        } else {
            1nat
        },
{
    let x = e.index;
    let u = be64(uid);
    let at = x.created_at;
    match x.delegator {
        Some(d) => {
            let a: Pair = (pubkey_key(x.pubkey, at), u);
            let b: Pair = (pubkey_key(d, at), u);
            let ak: Pair = (pubkey_kind_key(x.pubkey, x.kind, at), u);
            let bk: Pair = (pubkey_kind_key(d, x.kind, at), u);
            if d == x.pubkey {
                assert(set![a, b] =~= set![a]);
                assert(set![ak, bk] =~= set![ak]);
            } else {
                assert(pubkey_key(x.pubkey, at).subrange(0, 32) =~= x.pubkey);
                assert(pubkey_key(d, at).subrange(0, 32) =~= d);
                assert(pubkey_kind_key(x.pubkey, x.kind, at).subrange(0, 32) =~= x.pubkey);
                assert(pubkey_kind_key(d, x.kind, at).subrange(0, 32) =~= d);
                assert(a != b);
                assert(ak != bk);
                assert(set![a, b] =~= set![a].insert(b));
                assert(set![ak, bk] =~= set![ak].insert(bk));
            }
        },
        None => {},
    }
}

/// A second put of an event that was stored is a duplicate and changes
/// nothing.
pub proof fn lemma_duplicate_rejected(s: State, e: EventView)
    requires
        put_outcome(s, e) is Stored,
    ensures
        put_outcome(put_state(s, e), e) is Duplicate,
        put_state(put_state(s, e), e) == put_state(s, e),
{
    let s1 = put_state(s, e);
    assert(holds_id(s1.live, e.index.id, (s.seq + 1) as u64));
}

/// After an event was stored and then deleted by a deletion event of the
/// same author, the event is not stored, the deletion event is, and a new
/// put of the event is answered with `Deleted`.
pub proof fn lemma_deletion_enforced(s: State, e: EventView, k: EventView)
    requires
        consistent(s),
        put_outcome(s, e) is Stored,
        e.index.kind != 5,
        k.index.kind == 5,
        k.index.pubkey == e.index.pubkey,
        exists|j: int| 0 <= j < k.index.tags.len() && #[trigger] k.index.tags[j] == (
            e_name(),
            e.index.id,
        ),
        put_outcome(put_state(s, e), k) is Stored,
    ensures
        !id_is_live(put_state(put_state(s, e), k).live, e.index.id),
        id_is_live(put_state(put_state(s, e), k).live, k.index.id),
        put_outcome(put_state(put_state(s, e), k), e) is Deleted,
{
    let s1 = put_state(s, e);
    let s2 = put_state(s1, k);
    let ue = (s.seq + 1) as u64;
    let uk = (s1.seq + 1) as u64;
    let tags = k.index.tags;
    let n = tags.len() as int;
    assert(holds_id(s1.live, e.index.id, ue));
    assert(k.index.id != e.index.id);
    assert(points_at(tags, n, e.index.id));
    assert(deletable_by(e.index, k.index.pubkey));
    assert(deletion_targets(s1.live, tags, n, k.index.pubkey).contains(ue));
    assert(holds_id(s2.live, k.index.id, uk));
    assert forall|x: u64| !holds_id(s2.live, e.index.id, x) by {
        if holds_id(s2.live, e.index.id, x) {
            assert(x != uk);
            assert(holds_id(s1.live, e.index.id, x));
            if x != ue {
                assert(s.live.contains_key(x));
                assert(holds_id(s.live, e.index.id, x));
            }
        }
    }
    let j = choose|j: int| 0 <= j < tags.len() && #[trigger] tags[j] == (e_name(), e.index.id);
    assert(tombstone_keys(tags, n, k.index.pubkey).contains(
        tombstone_key(e.index.id, e.index.pubkey),
    ));
    assert(lays(s2.live, tombstone_key(e.index.id, e.index.pubkey), uk));
}

/// A deletion event leaves an event untouched that its author neither
/// signed nor delegated.
pub proof fn lemma_cross_author_deletion_ignored(s: State, k: EventView, uid: u64)
    requires
        consistent(s),
        k.index.kind == 5,
        s.live.contains_key(uid),
        s.live[uid].index.pubkey != k.index.pubkey,
        s.live[uid].index.delegator != Some(k.index.pubkey),
    ensures
        put_state(s, k).live.contains_key(uid),
        put_state(s, k).live[uid] == s.live[uid],
{
}

/// Of two events with one replace-key the older one loses: put after the
/// newer one it is ignored and the store stays as it is.
pub proof fn lemma_older_replacement_ignored(s: State, e1: EventView, e2: EventView)
    requires
        consistent(s),
        replace_key(e1.index.kind, e1.index.pubkey, e1.index.tags) is Some,
        replace_key(e1.index.kind, e1.index.pubkey, e1.index.tags) == replace_key(
            e2.index.kind,
            e2.index.pubkey,
            e2.index.tags,
        ),
        e1.index.created_at < e2.index.created_at,
        e1.index.id != e2.index.id,
        put_outcome(s, e2) is Stored,
        well_shaped(e1.index),
        !id_is_live(s.live, e1.index.id),
        !tombstoned(s.live, tombstone_key(e1.index.id, e1.index.pubkey)),
    ensures
        put_outcome(put_state(s, e2), e1) is ReplaceIgnored,
        put_state(put_state(s, e2), e1) == put_state(s, e2),
{
    let s2 = put_state(s, e2);
    let u2 = (s.seq + 1) as u64;
    let rk = replace_key(e1.index.kind, e1.index.pubkey, e1.index.tags).unwrap();
    assert(e2.index.kind != 5);
    assert(holds_replace_key(s2.live, rk, u2));
    assert(replace_key_is_live(s2.live, rk));
    let u = replaced_by(s2.live, e1.index).unwrap();
    assert(holds_replace_key(s2.live, rk, u));
    if u != u2 {
        assert(s.live.contains_key(u));
        assert(holds_replace_key(s.live, rk, u));
        assert(replace_key_is_live(s.live, rk));
        let old = replaced_by(s.live, e2.index).unwrap();
        assert(holds_replace_key(s.live, rk, old));
        assert(u == old);
        assert(displaced(s, e2.index).contains(u));
    }
    assert forall|x: u64| !holds_id(s2.live, e1.index.id, x) by {
        if holds_id(s2.live, e1.index.id, x) {
            if x != u2 {
                assert(holds_id(s.live, e1.index.id, x));
            }
        }
    }
    let key = tombstone_key(e1.index.id, e1.index.pubkey);
    assert forall|x: u64| !lays(s2.live, key, x) by {
        if lays(s2.live, key, x) {
            assert(x != u2);
            assert(lays(s.live, key, x));
        }
    }
}

/// Of two events with one replace-key the newer one wins: put after the
/// older one it is stored, and the older one is gone.
pub proof fn lemma_newer_replacement_wins(s: State, e1: EventView, e2: EventView)
    requires
        consistent(s),
        replace_key(e1.index.kind, e1.index.pubkey, e1.index.tags) is Some,
        replace_key(e1.index.kind, e1.index.pubkey, e1.index.tags) == replace_key(
            e2.index.kind,
            e2.index.pubkey,
            e2.index.tags,
        ),
        e1.index.created_at < e2.index.created_at,
        e1.index.id != e2.index.id,
        put_outcome(s, e1) is Stored,
        well_shaped(e2.index),
        crate::model::encodable(e2, s.compress),
        !id_is_live(s.live, e2.index.id),
        !tombstoned(s.live, tombstone_key(e2.index.id, e2.index.pubkey)),
        s.seq + 2 <= u64::MAX,
    ensures
        put_outcome(put_state(s, e1), e2) is Stored,
        !id_is_live(put_state(put_state(s, e1), e2).live, e1.index.id),
        id_is_live(put_state(put_state(s, e1), e2).live, e2.index.id),
{
    let s1 = put_state(s, e1);
    let s2 = put_state(s1, e2);
    let u1 = (s.seq + 1) as u64;
    let u2 = (s.seq + 2) as u64;
    let rk = replace_key(e1.index.kind, e1.index.pubkey, e1.index.tags).unwrap();
    assert(e1.index.kind != 5 && e2.index.kind != 5);
    assert(holds_replace_key(s1.live, rk, u1));
    assert(replace_key_is_live(s1.live, rk));
    assert forall|x: u64| !holds_id(s1.live, e2.index.id, x) by {
        if holds_id(s1.live, e2.index.id, x) {
            if x != u1 {
                assert(holds_id(s.live, e2.index.id, x));
            }
        }
    }
    let key = tombstone_key(e2.index.id, e2.index.pubkey);
    assert forall|x: u64| !lays(s1.live, key, x) by {
        if lays(s1.live, key, x) {
            assert(x != u1);
            assert(lays(s.live, key, x));
        }
    }
    let u = replaced_by(s1.live, e2.index).unwrap();
    assert(holds_replace_key(s1.live, rk, u));
    if u != u1 {
        assert(holds_replace_key(s.live, rk, u));
        assert(replace_key_is_live(s.live, rk));
        let old = replaced_by(s.live, e1.index).unwrap();
        assert(holds_replace_key(s.live, rk, old));
        assert(displaced(s, e1.index).contains(u));
    }
    assert(u == u1);
    assert(holds_id(s2.live, e2.index.id, u2));
    assert forall|x: u64| !holds_id(s2.live, e1.index.id, x) by {
        if holds_id(s2.live, e1.index.id, x) {
            assert(x != u2);
            assert(x != u1);
            assert(holds_id(s1.live, e1.index.id, x));
            assert(holds_id(s.live, e1.index.id, x));
        }
    }
}

/// The identifier that an event is stored under is above the identifier of
/// every event that is stored.
pub proof fn lemma_uid_above_all(s: State, e: EventView, uid: u64)
    requires
        consistent(s),
        put_outcome(s, e) is Stored,
        s.live.contains_key(uid),
    ensures
        put_state(s, e).seq == s.seq + 1,
        uid < put_state(s, e).seq,
        put_state(s, e).live.contains_key(put_state(s, e).seq),
        put_state(s, e).live[put_state(s, e).seq] == e,
{
}

/// Ingestion keeps the live events consistent.
pub proof fn lemma_put_consistent(s: State, e: EventView)
    requires
        consistent(s),
    ensures
        consistent(put_state(s, e)),
{
    let s1 = put_state(s, e);
    if put_outcome(s, e) is Stored {
        let u = (s.seq + 1) as u64;
        let x = e.index;
        assert forall|a: u64, b: u64, id: Seq<u8>|
            #[trigger] holds_id(s1.live, id, a) && #[trigger] holds_id(
                s1.live,
                id,
                b,
            ) implies a == b by {
            if a != u {
                assert(holds_id(s.live, id, a));
            }
            if b != u {
                assert(holds_id(s.live, id, b));
            }
        }
        assert forall|a: u64, b: u64, rk: Seq<u8>|
            #[trigger] holds_replace_key(s1.live, rk, a) && #[trigger] holds_replace_key(
                s1.live,
                rk,
                b,
            ) implies a == b by {
            if a != u {
                assert(holds_replace_key(s.live, rk, a));
            }
            if b != u {
                assert(holds_replace_key(s.live, rk, b));
            }
            if a != b && (a == u || b == u) {
                let other = if a == u {
                    b
                } else {
                    a
                };
                assert(holds_replace_key(s.live, rk, other));
                assert(replace_key_is_live(s.live, rk));
                let old = replaced_by(s.live, x).unwrap();
                assert(holds_replace_key(s.live, rk, old));
                assert(x.kind != 5);
                assert(displaced(s, x).contains(other));
            }
        }
    }
}

/// A store that was built again from the events that a store held goes on
/// numbering after them: the last identifier given out is that of the last
/// event of the list, every event of the list is live under its identifier,
/// and no live event has an identifier above it.
pub proof fn lemma_restored_seq(
    compress: bool,
    recs: Seq<(u64, EventView)>,
    n: int,
    i: int,
    uid: u64,
)
    requires
        0 <= n <= recs.len(),
        crate::store::restored(compress, recs, n) is Ok,
    ensures
        n > 0 ==> crate::store::restored(compress, recs, n)->Ok_0.seq == recs[n - 1].0,
        0 <= i < n ==> crate::store::restored(compress, recs, n)->Ok_0.live.contains_key(recs[i].0)
            && crate::store::restored(compress, recs, n)->Ok_0.live[recs[i].0] == recs[i].1,
        crate::store::restored(compress, recs, n)->Ok_0.live.contains_key(uid) ==> uid
            <= crate::store::restored(compress, recs, n)->Ok_0.seq,
        0 <= i < n ==> recs[i].0 <= crate::store::restored(compress, recs, n)->Ok_0.seq,
    decreases n,
{
    if n > 0 {
        lemma_restored_seq(compress, recs, n - 1, i, uid);
        lemma_restored_seq(compress, recs, n - 1, i, recs[i].0);
        if n > 1 {
            lemma_restored_seq(compress, recs, n - 1, n - 2, uid);
        }
    }
}

/// A tombstone lies as long as a deletion event that lays it is live, and no
/// longer: the table of tombstones holds a key exactly if some live deletion
/// event lays it, and it holds one entry for each of them.
pub proof fn lemma_tombstones_persist(store: &Store, k: Seq<u8>, uid: u64)
    requires
        store.wf(),
    ensures
        store.table(Table::Deletion).has_key(k) <==> tombstoned(store@.live, k),
        lays(store@.live, k, uid) ==> store.table(Table::Deletion).pairs().contains(
            (k, be64(uid)),
        ),
{
    let live = store@.live;
    let c = store@.compress;
    store.lemma_table_wf(Table::Deletion);
    store.table(Table::Deletion).lemma_has_key(k);
    crate::model::lemma_deletion_keys(live, c, k);
    if lays(live, k, uid) {
        let x = live[uid].index;
        let j = choose|j: int|
            0 <= j < x.tags.len() && j < x.tags.len() && (#[trigger] x.tags[j]).0 == e_name() && k
                == tombstone_key(x.tags[j].1, x.pubkey);
        let p: Pair = (k, be64(uid));
        assert(crate::model::is_tomb_entry(x.tags, x.tags.len() as int, x.pubkey, uid, p));
        assert(has_entry(Table::Deletion, live, c, uid, p));
    }
}

/// Taking a deletion event out leaves the tombstones that another live
/// deletion event lays.
pub proof fn lemma_tombstone_outlives(s: State, gone: u64, other: u64, k: Seq<u8>)
    requires
        lays(s.live, k, other),
        other != gone,
    ensures
        tombstoned(crate::model::del_state(s, gone).live, k),
{
    assert(lays(crate::model::del_state(s, gone).live, k, other));
}

} // verus!
