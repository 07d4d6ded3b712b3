//! The tables of the store and what ingestion writes into them.

use vstd::prelude::*;
use crate::bytes::{be64, bytes_equal, concat, u64_from_bytes, u64_to_ver, lemma_be64_roundtrip, lemma_be64_injective};
use crate::error::Error;
use crate::event::{archived_index, archived_words, tags_view, words_view, words_from_bytes, words_to_bytes, opt_bytes_view, Event, EventIndex, EventIndexView, EventView};
use crate::key::{e_name, encode_replace_key, replace_key, tag_key, tag_value, word_key, IndexKey};
use crate::model::{deletable_by, deletes_at, deletion_count, deletion_targets, displaced, points_at, replaced_by, derived, entries, has_entry, id_is_live, holds_id, holds_replace_key, replace_key_is_live, is_tag_entry, is_word_entry, table_dup, tombstone_key, tombstoned, is_tomb_entry, lemma_deletion_keys, well_shaped, encodable, del_state, put_outcome, put_state, Outcome, State, Table, MAX_TAG_VALUE_SIZE, lemma_written, lemma_erased, written, erased, lemma_uid_key_own, lemma_id_uid_keys, lemma_replacement_keys};
use crate::payload::{encode_event, stored_payload};
use crate::tree::{without_key, Pair, Tree};

verus! {

/// The name of the tag by which a deletion event points at its targets.
pub fn is_e_name(name: &[u8]) -> (r: bool)
    ensures
        r == (name@ == e_name()),
{
    let e: [u8; 1] = [0x65u8];
    assert(e@ =~= e_name());
    bytes_equal(name, e.as_slice())
}

/// Adds the tag entries of an event to the tag index.
fn put_tag_entries(
    tree: &mut Tree,
    tags: &Vec<(Vec<u8>, Vec<u8>)>,
    time: u64,
    uid: u64,
    kind: u64,
)
    requires
        old(tree).wf(),
        old(tree).dup(),
    ensures
        final(tree).wf(),
        final(tree).dup(),
        final(tree).pairs() == old(tree).pairs().union(
            Set::new(
                |p: Pair| is_tag_entry(tags_view(tags@), tags@.len() as int, time, uid, kind, p),
            ),
        ),
{
    let ghost tv = tags_view(tags@);
    let ghost start = tree.pairs();
    let tagval = concat(u64_to_ver(uid).as_slice(), u64_to_ver(kind).as_slice());
    let mut i: usize = 0;
    assert(tree.pairs() =~= start.union(Set::new(|p: Pair| is_tag_entry(tv, 0, time, uid, kind, p))));
    while i < tags.len()
        invariant
            i <= tags.len(),
            tv == tags_view(tags@),
            tagval@ == tag_value(uid, kind),
            tree.wf(),
            tree.dup(),
            tree.pairs() == start.union(
                Set::new(|p: Pair| is_tag_entry(tv, i as int, time, uid, kind, p)),
            ),
        decreases tags.len() - i,
    {
        let key = IndexKey::encode_tag(tags[i].0.as_slice(), tags[i].1.as_slice(), time);
        tree.put(key.as_slice(), tagval.as_slice());
        proof {
            let added: Pair = (tag_key(tv[i as int].0, tv[i as int].1, time), tag_value(uid, kind));
            assert(key@ == added.0);
            assert forall|p: Pair| is_tag_entry(tv, i + 1, time, uid, kind, p) <==> (is_tag_entry(
                tv,
                i as int,
                time,
                uid,
                kind,
                p,
            ) || p == added) by {
                if is_tag_entry(tv, i + 1, time, uid, kind, p) {
                    let j = choose|j: int|
                        0 <= j < i + 1 && j < tv.len() && p == (
                            #[trigger] tag_key(tv[j].0, tv[j].1, time),
                            tag_value(uid, kind),
                        );
                    if j < i {
                        assert(is_tag_entry(tv, i as int, time, uid, kind, p));
                    }
                }
                if p == added {
                    assert(p == (tag_key(tv[i as int].0, tv[i as int].1, time), tag_value(uid, kind)));
                }
            }
            assert(tree.pairs() =~= start.union(
                Set::new(|p: Pair| is_tag_entry(tv, i + 1, time, uid, kind, p)),
            ));
        }
        i += 1;
    }
}

/// Takes the tag entries of an event out of the tag index.
fn del_tag_entries(
    tree: &mut Tree,
    tags: &Vec<(Vec<u8>, Vec<u8>)>,
    time: u64,
    uid: u64,
    kind: u64,
)
    requires
        old(tree).wf(),
        old(tree).dup(),
    ensures
        final(tree).wf(),
        final(tree).dup(),
        final(tree).pairs() == old(tree).pairs().difference(
            Set::new(
                |p: Pair| is_tag_entry(tags_view(tags@), tags@.len() as int, time, uid, kind, p),
            ),
        ),
{
    let ghost tv = tags_view(tags@);
    let ghost start = tree.pairs();
    let tagval = concat(u64_to_ver(uid).as_slice(), u64_to_ver(kind).as_slice());
    let mut i: usize = 0;
    assert(tree.pairs() =~= start.difference(
        Set::new(|p: Pair| is_tag_entry(tv, 0, time, uid, kind, p)),
    ));
    while i < tags.len()
        invariant
            i <= tags.len(),
            tv == tags_view(tags@),
            tagval@ == tag_value(uid, kind),
            tree.wf(),
            tree.dup(),
            tree.pairs() == start.difference(
                Set::new(|p: Pair| is_tag_entry(tv, i as int, time, uid, kind, p)),
            ),
        decreases tags.len() - i,
    {
        let key = IndexKey::encode_tag(tags[i].0.as_slice(), tags[i].1.as_slice(), time);
        tree.del(key.as_slice(), Some(tagval.as_slice()));
        proof {
            let gone: Pair = (tag_key(tv[i as int].0, tv[i as int].1, time), tag_value(uid, kind));
            assert(key@ == gone.0);
            assert forall|p: Pair| is_tag_entry(tv, i + 1, time, uid, kind, p) <==> (is_tag_entry(
                tv,
                i as int,
                time,
                uid,
                kind,
                p,
            ) || p == gone) by {
                if is_tag_entry(tv, i + 1, time, uid, kind, p) {
                    let j = choose|j: int|
                        0 <= j < i + 1 && j < tv.len() && p == (
                            #[trigger] tag_key(tv[j].0, tv[j].1, time),
                            tag_value(uid, kind),
                        );
                    if j < i {
                        assert(is_tag_entry(tv, i as int, time, uid, kind, p));
                    }
                }
                if p == gone {
                    assert(p == (tag_key(tv[i as int].0, tv[i as int].1, time), tag_value(uid, kind)));
                }
            }
            assert(tree.pairs() =~= start.difference(
                Set::new(|p: Pair| is_tag_entry(tv, i + 1, time, uid, kind, p)),
            ));
        }
        i += 1;
    }
}

/// Adds the word entries of an event to the word index.
fn put_word_entries(tree: &mut Tree, words: &Vec<Vec<u8>>, time: u64, uid: u64)
    requires
        old(tree).wf(),
        old(tree).dup(),
    ensures
        final(tree).wf(),
        final(tree).dup(),
        final(tree).pairs() == old(tree).pairs().union(
            Set::new(|p: Pair| is_word_entry(words_view(words@), words@.len() as int, time, uid, p)),
        ),
{
    let ghost wv = words_view(words@);
    let ghost start = tree.pairs();
    let value = u64_to_ver(uid);
    let mut i: usize = 0;
    assert(tree.pairs() =~= start.union(Set::new(|p: Pair| is_word_entry(wv, 0, time, uid, p))));
    while i < words.len()
        invariant
            i <= words.len(),
            wv == words_view(words@),
            value@ == be64(uid),
            tree.wf(),
            tree.dup(),
            tree.pairs() == start.union(Set::new(|p: Pair| is_word_entry(wv, i as int, time, uid, p))),
        decreases words.len() - i,
    {
        let key = IndexKey::encode_word(words[i].as_slice(), time);
        tree.put(key.as_slice(), value.as_slice());
        proof {
            let added: Pair = (word_key(wv[i as int], time), be64(uid));
            assert(key@ == added.0);
            assert forall|p: Pair| is_word_entry(wv, i + 1, time, uid, p) <==> (is_word_entry(
                wv,
                i as int,
                time,
                uid,
                p,
            ) || p == added) by {
                if is_word_entry(wv, i + 1, time, uid, p) {
                    let j = choose|j: int|
                        0 <= j < i + 1 && j < wv.len() && p == (
                            #[trigger] word_key(wv[j], time),
                            be64(uid),
                        );
                    if j < i {
                        assert(is_word_entry(wv, i as int, time, uid, p));
                    }
                }
                if p == added {
                    assert(p == (word_key(wv[i as int], time), be64(uid)));
                }
            }
            assert(tree.pairs() =~= start.union(
                Set::new(|p: Pair| is_word_entry(wv, i + 1, time, uid, p)),
            ));
        }
        i += 1;
    }
}

/// Takes the word entries of an event out of the word index.
fn del_word_entries(tree: &mut Tree, words: &Vec<Vec<u8>>, time: u64, uid: u64)
    requires
        old(tree).wf(),
        old(tree).dup(),
    ensures
        final(tree).wf(),
        final(tree).dup(),
        final(tree).pairs() == old(tree).pairs().difference(
            Set::new(|p: Pair| is_word_entry(words_view(words@), words@.len() as int, time, uid, p)),
        ),
{
    let ghost wv = words_view(words@);
    let ghost start = tree.pairs();
    let value = u64_to_ver(uid);
    let mut i: usize = 0;
    assert(tree.pairs() =~= start.difference(
        Set::new(|p: Pair| is_word_entry(wv, 0, time, uid, p)),
    ));
    while i < words.len()
        invariant
            i <= words.len(),
            wv == words_view(words@),
            value@ == be64(uid),
            tree.wf(),
            tree.dup(),
            tree.pairs() == start.difference(
                Set::new(|p: Pair| is_word_entry(wv, i as int, time, uid, p)),
            ),
        decreases words.len() - i,
    {
        let key = IndexKey::encode_word(words[i].as_slice(), time);
        tree.del(key.as_slice(), Some(value.as_slice()));
        proof {
            let gone: Pair = (word_key(wv[i as int], time), be64(uid));
            assert(key@ == gone.0);
            assert forall|p: Pair| is_word_entry(wv, i + 1, time, uid, p) <==> (is_word_entry(
                wv,
                i as int,
                time,
                uid,
                p,
            ) || p == gone) by {
                if is_word_entry(wv, i + 1, time, uid, p) {
                    let j = choose|j: int|
                        0 <= j < i + 1 && j < wv.len() && p == (
                            #[trigger] word_key(wv[j], time),
                            be64(uid),
                        );
                    if j < i {
                        assert(is_word_entry(wv, i as int, time, uid, p));
                    }
                }
                if p == gone {
                    assert(p == (word_key(wv[i as int], time), be64(uid)));
                }
            }
            assert(tree.pairs() =~= start.difference(
                Set::new(|p: Pair| is_word_entry(wv, i + 1, time, uid, p)),
            ));
        }
        i += 1;
    }
}

/// Lays the tombstones of a deletion event: one for each `e` tag, whether
/// or not its target is stored.
fn put_tombstones(tree: &mut Tree, tags: &Vec<(Vec<u8>, Vec<u8>)>, pubkey: &[u8], uid: u64)
    requires
        old(tree).wf(),
        old(tree).dup(),
    ensures
        final(tree).wf(),
        final(tree).dup(),
        final(tree).pairs() == old(tree).pairs().union(
            Set::new(
                |p: Pair| is_tomb_entry(tags_view(tags@), tags@.len() as int, pubkey@, uid, p),
            ),
        ),
{
    let ghost tv = tags_view(tags@);
    let ghost start = tree.pairs();
    let value = u64_to_ver(uid);
    let mut i: usize = 0;
    assert(tree.pairs() =~= start.union(Set::new(|p: Pair| is_tomb_entry(tv, 0, pubkey@, uid, p))));
    while i < tags.len()
        invariant
            i <= tags.len(),
            tv == tags_view(tags@),
            value@ == be64(uid),
            tree.wf(),
            tree.dup(),
            tree.pairs() == start.union(
                Set::new(|p: Pair| is_tomb_entry(tv, i as int, pubkey@, uid, p)),
            ),
        decreases tags.len() - i,
    {
        let ghost added: Pair = (tombstone_key(tv[i as int].1, pubkey@), be64(uid));
        let ghost is_e = tv[i as int].0 == e_name();
        if is_e_name(tags[i].0.as_slice()) {
            let key = concat(tags[i].1.as_slice(), pubkey);
            tree.put(key.as_slice(), value.as_slice());
        }
        proof {
            assert forall|p: Pair| is_tomb_entry(tv, i + 1, pubkey@, uid, p) <==> (is_tomb_entry(
                tv,
                i as int,
                pubkey@,
                uid,
                p,
            ) || (is_e && p == added)) by {
                if is_tomb_entry(tv, i + 1, pubkey@, uid, p) {
                    let j = choose|j: int|
                        0 <= j < i + 1 && j < tv.len() && (#[trigger] tv[j]).0 == e_name() && p == (
                            tombstone_key(tv[j].1, pubkey@),
                            be64(uid),
                        );
                    if j < i {
                        assert(is_tomb_entry(tv, i as int, pubkey@, uid, p));
                    }
                }
                if is_e && p == added {
                    assert(tv[i as int].0 == e_name());
                }
            }
            assert(tree.pairs() =~= start.union(
                Set::new(|p: Pair| is_tomb_entry(tv, i + 1, pubkey@, uid, p)),
            ));
        }
        i += 1;
    }
}

/// Takes the tombstones that a deletion event laid out of the table. A
/// tombstone that another deletion event laid under the same key stays.
fn del_tombstones(tree: &mut Tree, tags: &Vec<(Vec<u8>, Vec<u8>)>, pubkey: &[u8], uid: u64)
    requires
        old(tree).wf(),
        old(tree).dup(),
    ensures
        final(tree).wf(),
        final(tree).dup(),
        final(tree).pairs() == old(tree).pairs().difference(
            Set::new(
                |p: Pair| is_tomb_entry(tags_view(tags@), tags@.len() as int, pubkey@, uid, p),
            ),
        ),
{
    let ghost tv = tags_view(tags@);
    let ghost start = tree.pairs();
    let value = u64_to_ver(uid);
    let mut i: usize = 0;
    assert(tree.pairs() =~= start.difference(
        Set::new(|p: Pair| is_tomb_entry(tv, 0, pubkey@, uid, p)),
    ));
    while i < tags.len()
        invariant
            i <= tags.len(),
            tv == tags_view(tags@),
            value@ == be64(uid),
            tree.wf(),
            tree.dup(),
            tree.pairs() == start.difference(
                Set::new(|p: Pair| is_tomb_entry(tv, i as int, pubkey@, uid, p)),
            ),
        decreases tags.len() - i,
    {
        let ghost gone: Pair = (tombstone_key(tv[i as int].1, pubkey@), be64(uid));
        let ghost is_e = tv[i as int].0 == e_name();
        if is_e_name(tags[i].0.as_slice()) {
            let key = concat(tags[i].1.as_slice(), pubkey);
            tree.del(key.as_slice(), Some(value.as_slice()));
        }
        proof {
            assert forall|p: Pair| is_tomb_entry(tv, i + 1, pubkey@, uid, p) <==> (is_tomb_entry(
                tv,
                i as int,
                pubkey@,
                uid,
                p,
            ) || (is_e && p == gone)) by {
                if is_tomb_entry(tv, i + 1, pubkey@, uid, p) {
                    let j = choose|j: int|
                        0 <= j < i + 1 && j < tv.len() && (#[trigger] tv[j]).0 == e_name() && p == (
                            tombstone_key(tv[j].1, pubkey@),
                            be64(uid),
                        );
                    if j < i {
                        assert(is_tomb_entry(tv, i as int, pubkey@, uid, p));
                    }
                }
                if is_e && p == gone {
                    assert(tv[i as int].0 == e_name());
                }
            }
            assert(tree.pairs() =~= start.difference(
                Set::new(|p: Pair| is_tomb_entry(tv, i + 1, pubkey@, uid, p)),
            ));
        }
        i += 1;
    }
}

/// The tables and the counter of internal identifiers.
pub struct Store {
    t_data: Tree,
    t_index: Tree,
    t_id_uid: Tree,
    t_uid_word: Tree,
    t_id: Tree,
    t_pubkey: Tree,
    t_kind: Tree,
    t_pubkey_kind: Tree,
    t_created_at: Tree,
    t_tag: Tree,
    t_deletion: Tree,
    t_replacement: Tree,
    t_expiration: Tree,
    t_word: Tree,
    seq: u64,
    compress: bool,
    state: Ghost<State>,
}

impl View for Store {
    type V = State;

    closed spec fn view(&self) -> State {
        self.state@
    }
}

impl Store {
    /// One of the tables that follow from the live events.
    pub closed spec fn table(&self, t: Table) -> Tree {
        match t {
            Table::Data => self.t_data,
            Table::Index => self.t_index,
            Table::IdUid => self.t_id_uid,
            Table::UidWord => self.t_uid_word,
            Table::Id => self.t_id,
            Table::Pubkey => self.t_pubkey,
            Table::Kind => self.t_kind,
            Table::PubkeyKind => self.t_pubkey_kind,
            Table::Time => self.t_created_at,
            Table::Tag => self.t_tag,
            Table::Replacement => self.t_replacement,
            Table::Expiration => self.t_expiration,
            Table::Word => self.t_word,
            Table::Deletion => self.t_deletion,
        }
    }

    /// Table `t` is in order and holds exactly `pairs`.
    pub open spec fn table_holds(&self, t: Table, pairs: Set<Pair>) -> bool {
        &&& self.table(t).wf()
        &&& self.table(t).dup() == table_dup(t)
        &&& self.table(t).pairs() == pairs
    }

    /// Every table holds what follows from the live events.
    pub open spec fn tables_ok(&self) -> bool {
        forall|t: Table| #[trigger] self.table_holds(t, derived(t, self@.live, self@.compress))
    }

    /// Every live event has the shape that ingestion asks for, can be
    /// encoded, and has an identifier that was given out.
    pub open spec fn events_ok(&self) -> bool {
        forall|uid: u64| #[trigger]
            self@.live.contains_key(uid) ==> uid <= self@.seq && well_shaped(self@.live[uid].index)
                && encodable(self@.live[uid], self@.compress)
    }

    pub closed spec fn wf(&self) -> bool {
        &&& self.tables_ok()
        &&& self.events_ok()
        &&& self@.seq == self.seq
        &&& self@.compress == self.compress
    }

    /// What holds of a store that is in order.
    pub proof fn lemma_wf(&self)
        requires
            self.wf(),
        ensures
            self.tables_ok(),
            self.events_ok(),
    {
    }

    /// Each table by its name.
    proof fn lemma_tables(&self)
        requires
            self.tables_ok(),
        ensures
            self.table_holds(Table::Data, derived(Table::Data, self@.live, self@.compress)),
            self.table_holds(Table::Index, derived(Table::Index, self@.live, self@.compress)),
            self.table_holds(Table::IdUid, derived(Table::IdUid, self@.live, self@.compress)),
            self.table_holds(Table::UidWord, derived(Table::UidWord, self@.live, self@.compress)),
            self.table_holds(Table::Id, derived(Table::Id, self@.live, self@.compress)),
            self.table_holds(Table::Pubkey, derived(Table::Pubkey, self@.live, self@.compress)),
            self.table_holds(Table::Kind, derived(Table::Kind, self@.live, self@.compress)),
            self.table_holds(
                Table::PubkeyKind,
                derived(Table::PubkeyKind, self@.live, self@.compress),
            ),
            self.table_holds(Table::Time, derived(Table::Time, self@.live, self@.compress)),
            self.table_holds(Table::Tag, derived(Table::Tag, self@.live, self@.compress)),
            self.table_holds(
                Table::Replacement,
                derived(Table::Replacement, self@.live, self@.compress),
            ),
            self.table_holds(
                Table::Expiration,
                derived(Table::Expiration, self@.live, self@.compress),
            ),
            self.table_holds(Table::Word, derived(Table::Word, self@.live, self@.compress)),
            self.table_holds(
                Table::Deletion,
                derived(Table::Deletion, self@.live, self@.compress),
            ),
    {
    }

    /// An empty store.
    pub fn new(compress: bool) -> (s: Store)
        ensures
            s.wf(),
            s@ == (State { live: Map::empty(), seq: 0, compress }),
    {
        let s = Store {
            t_data: Tree::new(false),
            t_index: Tree::new(false),
            t_id_uid: Tree::new(false),
            t_uid_word: Tree::new(false),
            t_id: Tree::new(false),
            t_pubkey: Tree::new(true),
            t_kind: Tree::new(true),
            t_pubkey_kind: Tree::new(true),
            t_created_at: Tree::new(true),
            t_tag: Tree::new(true),
            t_deletion: Tree::new(true),
            t_replacement: Tree::new(false),
            t_expiration: Tree::new(true),
            t_word: Tree::new(true),
            seq: 0,
            compress,
            state: Ghost(State { live: Map::empty(), seq: 0, compress }),
        };
        proof {
            assert forall|t: Table| #[trigger]
                s.table_holds(t, derived(t, s@.live, s@.compress)) by {
                assert(s.table(t)@ =~= Seq::<Pair>::empty());
                assert(s.table(t).pairs() =~= derived(t, s@.live, s@.compress));
            }
        }
        s
    }

    /// Writes every entry of a new event under an identifier above the last
    /// one given out.
    fn put_event(
        &mut self,
        event: &Event,
        uid: u64,
        data: &Vec<u8>,
        index_bytes: &Vec<u8>,
        words_bytes: &Option<Vec<u8>>,
        replace_key: &Option<Vec<u8>>,
    )
        requires
            old(self).wf(),
            old(self)@.seq < uid,
            well_shaped(event@.index),
            encodable(event@, old(self)@.compress),
            data@ == stored_payload(event@.payload, old(self)@.compress).unwrap(),
            index_bytes@ == archived_index(event@.index).unwrap(),
            event@.words matches Some(w) ==> (words_bytes matches Some(b) && b@ == archived_words(
                w,
            ).unwrap()),
            opt_bytes_view(*replace_key) == crate::key::replace_key(
                event@.index.kind,
                event@.index.pubkey,
                event@.index.tags,
            ),
            !id_is_live(old(self)@.live, event@.index.id),
            replace_key matches Some(rk) ==> !replace_key_is_live(old(self)@.live, rk@),
        ensures
            final(self).wf(),
            final(self)@ == (State {
                live: old(self)@.live.insert(uid, event@),
                seq: uid,
                compress: old(self)@.compress,
            }),
    {
        let ghost pre = *self;
        let ghost live = self@.live;
        let ghost c = self@.compress;
        let ghost e = event@;
        proof {
            self.lemma_tables();
        }
        let index_event = &event.index;
        let time = index_event.created_at;
        let kind = index_event.kind;
        let pubkey = index_event.pubkey.as_slice();
        let id = index_event.id.as_slice();
        let uidb = u64_to_ver(uid);
        let u = uidb.as_slice();

        self.t_data.put(u, data.as_slice());
        self.t_index.put(u, index_bytes.as_slice());
        self.t_id_uid.put(id, u);
        self.t_id.put(IndexKey::encode_id(id, time).as_slice(), u);
        self.t_kind.put(IndexKey::encode_kind(kind, time).as_slice(), u);
        self.t_pubkey.put(IndexKey::encode_pubkey(pubkey, time).as_slice(), u);
        self.t_pubkey_kind.put(IndexKey::encode_pubkey_kind(pubkey, kind, time).as_slice(), u);
        match &index_event.delegator {
            Some(delegator) => {
                self.t_pubkey.put(IndexKey::encode_pubkey(delegator.as_slice(), time).as_slice(), u);
                self.t_pubkey_kind.put(
                    IndexKey::encode_pubkey_kind(delegator.as_slice(), kind, time).as_slice(),
                    u,
                );
            },
            None => {},
        }
        self.t_created_at.put(IndexKey::encode_time(time).as_slice(), u);
        put_tag_entries(&mut self.t_tag, &index_event.tags, time, uid, kind);
        if kind == 5 {
            put_tombstones(&mut self.t_deletion, &index_event.tags, pubkey, uid);
        }
        match replace_key {
            Some(k) => {
                self.t_replacement.put(k.as_slice(), u);
            },
            None => {},
        }
        match index_event.expiration {
            Some(t) => {
                self.t_expiration.put(IndexKey::encode_time(t).as_slice(), u);
            },
            None => {},
        }
        match &event.words {
            Some(words) => {
                match words_bytes {
                    Some(b) => {
                        self.t_uid_word.put(u, b.as_slice());
                    },
                    None => {},
                }
                put_word_entries(&mut self.t_word, words, time, uid);
            },
            None => {},
        }
        self.seq = uid;
        self.state = Ghost(
            State { live: live.insert(uid, e), seq: uid, compress: c },
        );
        proof {
            assert forall|x: u64| live.contains_key(x) implies (#[trigger] live[x]).index.id.len()
                == 32 by {
                assert(pre@.live.contains_key(x));
            }
            assert forall|t: Table| #[trigger]
                self.table_holds(t, derived(t, self@.live, self@.compress)) by {
                assert(pre.table_holds(t, derived(t, live, c)));
                lemma_written(t, live, c, uid, e);
                assert(self.table(t).pairs() == written(t, pre.table(t).pairs(), uid, e, c));
            }
            assert forall|x: u64| #[trigger] self@.live.contains_key(x) implies x <= self@.seq
                && well_shaped(self@.live[x].index) && encodable(self@.live[x], self@.compress) by {
                if x != uid {
                    assert(pre@.live.contains_key(x));
                }
            }
        }
    }

    /// Takes every entry of a stored event out of the tables: the inverse of
    /// `put_event`, entry by entry.
    fn del_event(&mut self, rec: &EventIndex, uid: u64)
        requires
            old(self).wf(),
            old(self)@.live.contains_key(uid),
            rec@ == old(self)@.live[uid].index,
        ensures
            final(self).wf(),
            final(self)@ == del_state(old(self)@, uid),
    {
        let ghost pre = *self;
        let ghost live = self@.live;
        let ghost c = self@.compress;
        let ghost e = live[uid];
        proof {
            self.lemma_tables();
            assert(well_shaped(e.index) && encodable(e, c));
        }
        let time = rec.created_at;
        let kind = rec.kind;
        let pubkey = rec.pubkey.as_slice();
        let id = rec.id.as_slice();
        let uidb = u64_to_ver(uid);
        let u = uidb.as_slice();

        match self.t_uid_word.get(u) {
            Some(bytes) => {
                proof {
                    assert(self.t_uid_word.pairs().contains((u@, bytes@)));
                    lemma_uid_key_own(Table::UidWord, live, c, uid, bytes@);
                }
                self.t_uid_word.del(u, None);
                match words_from_bytes(bytes.as_slice()) {
                    Ok(words) => {
                        del_word_entries(&mut self.t_word, &words, time, uid);
                    },
                    Err(_) => {},
                }
            },
            None => {
                proof {
                    pre.t_uid_word.lemma_has_key(u@);
                    if e.words is Some {
                        let p: Pair = (u@, archived_words(e.words.unwrap()).unwrap());
                        assert(has_entry(Table::UidWord, live, c, uid, p));
                        assert(pre.t_uid_word.pairs().contains(p));
                    }
                    assert(without_key(pre.t_uid_word.pairs(), u@) =~= pre.t_uid_word.pairs());
                }
            },
        }
        self.t_data.del(u, None);
        self.t_index.del(u, None);
        self.t_id_uid.del(id, None);
        self.t_id.del(IndexKey::encode_id(id, time).as_slice(), Some(u));
        self.t_kind.del(IndexKey::encode_kind(kind, time).as_slice(), Some(u));
        self.t_pubkey.del(IndexKey::encode_pubkey(pubkey, time).as_slice(), Some(u));
        self.t_pubkey_kind.del(
            IndexKey::encode_pubkey_kind(pubkey, kind, time).as_slice(),
            Some(u),
        );
        match &rec.delegator {
            Some(delegator) => {
                self.t_pubkey.del(
                    IndexKey::encode_pubkey(delegator.as_slice(), time).as_slice(),
                    Some(u),
                );
                self.t_pubkey_kind.del(
                    IndexKey::encode_pubkey_kind(delegator.as_slice(), kind, time).as_slice(),
                    Some(u),
                );
            },
            None => {},
        }
        self.t_created_at.del(IndexKey::encode_time(time).as_slice(), Some(u));
        del_tag_entries(&mut self.t_tag, &rec.tags, time, uid, kind);
        match encode_replace_key(kind, pubkey, &rec.tags) {
            Some(k) => {
                self.t_replacement.del(k.as_slice(), None);
            },
            None => {},
        }
        match rec.expiration {
            Some(t) => {
                self.t_expiration.del(IndexKey::encode_time(t).as_slice(), Some(u));
            },
            None => {},
        }
        if kind == 5 {
            del_tombstones(&mut self.t_deletion, &rec.tags, pubkey, uid);
        }
        self.state = Ghost(del_state(pre@, uid));
        proof {
            assert forall|t: Table| #[trigger]
                self.table_holds(t, derived(t, self@.live, self@.compress)) by {
                assert(pre.table_holds(t, derived(t, live, c)));
                if !table_dup(t) {
                    pre.table(t).lemma_single_valued();
                }
                lemma_erased(t, live, c, uid);
                assert(self.table(t).pairs() == erased(t, pre.table(t).pairs(), uid, e, c));
            }
            assert forall|x: u64| #[trigger] self@.live.contains_key(x) implies x <= self@.seq
                && well_shaped(self@.live[x].index) && encodable(self@.live[x], self@.compress) by {
                assert(pre@.live.contains_key(x));
            }
        }
    }

    /// No two live events share an id.
    pub proof fn lemma_ids_distinct(&self, a: u64, b: u64)
        requires
            self.wf(),
            self@.live.contains_key(a),
            self@.live.contains_key(b),
            self@.live[a].index.id == self@.live[b].index.id,
        ensures
            a == b,
    {
        self.lemma_tables();
        let id = self@.live[a].index.id;
        let c = self@.compress;
        assert(has_entry(Table::IdUid, self@.live, c, a, (id, be64(a))));
        assert(has_entry(Table::IdUid, self@.live, c, b, (id, be64(b))));
        self.t_id_uid.lemma_single_value(id, be64(a), be64(b));
        lemma_be64_injective(a, b);
    }

    /// No two live events share a replace-key.
    pub proof fn lemma_replace_keys_distinct(&self, rk: Seq<u8>, a: u64, b: u64)
        requires
            self.wf(),
            holds_replace_key(self@.live, rk, a),
            holds_replace_key(self@.live, rk, b),
        ensures
            a == b,
    {
        self.lemma_tables();
        let c = self@.compress;
        assert(has_entry(Table::Replacement, self@.live, c, a, (rk, be64(a))));
        assert(has_entry(Table::Replacement, self@.live, c, b, (rk, be64(b))));
        self.t_replacement.lemma_single_value(rk, be64(a), be64(b));
        lemma_be64_injective(a, b);
    }

    /// The internal identifier of the live event with the given id.
    pub fn get_uid(&self, id: &[u8]) -> (r: Option<u64>)
        requires
            self.wf(),
        ensures
            r.is_some() == id_is_live(self@.live, id@),
            r matches Some(uid) ==> holds_id(self@.live, id@, uid),
    {
        proof {
            self.lemma_tables();
            lemma_id_uid_keys(self@.live, self@.compress, id@);
            self.t_id_uid.lemma_has_key(id@);
        }
        match self.t_id_uid.get(id) {
            Some(v) => {
                proof {
                    assert(self.t_id_uid.pairs().contains((id@, v@)));
                    let uid = choose|uid: u64| #[trigger]
                        holds_id(self@.live, id@, uid) && v@ == be64(uid);
                    lemma_be64_roundtrip(uid);
                    lemma_be64_injective(uid, crate::bytes::be64_value(v@) as u64);
                }
                match u64_from_bytes(v.as_slice()) {
                    Ok(uid) => Some(uid),
                    Err(_) => None,
                }
            },
            None => None,
        }
    }

    /// The index record of the live event with the given identifier.
    pub fn get_index(&self, uid: u64) -> (r: Option<EventIndex>)
        requires
            self.wf(),
        ensures
            r.is_some() == self@.live.contains_key(uid),
            r matches Some(rec) ==> rec@ == self@.live[uid].index,
    {
        let key = u64_to_ver(uid);
        proof {
            self.lemma_tables();
            self.t_index.lemma_has_key(key@);
            if self@.live.contains_key(uid) {
                let p: Pair = (key@, archived_index(self@.live[uid].index).unwrap());
                assert(has_entry(Table::Index, self@.live, self@.compress, uid, p));
                assert(self.t_index.pairs().contains(p));
            }
        }
        match self.t_index.get(key.as_slice()) {
            Some(bytes) => {
                proof {
                    assert(self.t_index.pairs().contains((key@, bytes@)));
                    lemma_uid_key_own(Table::Index, self@.live, self@.compress, uid, bytes@);
                    assert(encodable(self@.live[uid], self@.compress));
                }
                match EventIndex::from_bytes(bytes.as_slice()) {
                    Ok(rec) => Some(rec),
                    Err(_) => None,
                }
            },
            None => None,
        }
    }

    /// The stored payload of the live event with the given identifier.
    pub fn get_data(&self, uid: u64) -> (r: Option<Vec<u8>>)
        requires
            self.wf(),
        ensures
            r.is_some() == self@.live.contains_key(uid),
            r matches Some(b) ==> b@ == stored_payload(
                self@.live[uid].payload,
                self@.compress,
            ).unwrap(),
    {
        let key = u64_to_ver(uid);
        proof {
            self.lemma_tables();
            self.t_data.lemma_has_key(key@);
            if self@.live.contains_key(uid) {
                let p: Pair = (
                    key@,
                    stored_payload(self@.live[uid].payload, self@.compress).unwrap(),
                );
                assert(has_entry(Table::Data, self@.live, self@.compress, uid, p));
                assert(self.t_data.pairs().contains(p));
            }
        }
        match self.t_data.get(key.as_slice()) {
            Some(bytes) => {
                proof {
                    assert(self.t_data.pairs().contains((key@, bytes@)));
                    lemma_uid_key_own(Table::Data, self@.live, self@.compress, uid, bytes@);
                }
                Some(bytes)
            },
            None => None,
        }
    }

    /// The live event that holds the replace-key `rk`, if there is one.
    fn get_replaced(&self, rk: &[u8]) -> (r: Option<(u64, EventIndex)>)
        requires
            self.wf(),
        ensures
            r.is_some() == replace_key_is_live(self@.live, rk@),
            r matches Some(found) ==> holds_replace_key(self@.live, rk@, found.0) && found.1@
                == self@.live[found.0].index,
    {
        proof {
            self.lemma_tables();
            lemma_replacement_keys(self@.live, self@.compress, rk@);
            self.t_replacement.lemma_has_key(rk@);
        }
        match self.t_replacement.get(rk) {
            Some(v) => {
                proof {
                    assert(self.t_replacement.pairs().contains((rk@, v@)));
                    let uid = choose|uid: u64| #[trigger]
                        holds_replace_key(self@.live, rk@, uid) && v@ == be64(uid);
                    lemma_be64_roundtrip(uid);
                    lemma_be64_injective(uid, crate::bytes::be64_value(v@) as u64);
                }
                match u64_from_bytes(v.as_slice()) {
                    Ok(uid) => match self.get_index(uid) {
                        Some(rec) => Some((uid, rec)),
                        None => None,
                    },
                    Err(_) => None,
                }
            },
            None => None,
        }
    }

    /// Whether a tombstone lies on `id` for `pubkey`.
    fn is_tombstoned(&self, id: &[u8], pubkey: &[u8]) -> (r: bool)
        requires
            self.wf(),
        ensures
            r == tombstoned(self@.live, tombstone_key(id@, pubkey@)),
    {
        let key = concat(id, pubkey);
        proof {
            self.lemma_tables();
            self.t_deletion.lemma_has_key(key@);
            lemma_deletion_keys(self@.live, self@.compress, key@);
        }
        self.t_deletion.get(key.as_slice()).is_some()
    }
}

/// How ingesting one event ended.
#[derive(Debug, Clone)]
pub enum CheckEventResult {
    /// The event was not taken: the reason says why.
    Invalid(String),
    Duplicate,
    Deleted,
    ReplaceIgnored,
    /// The event was stored; the number counts it and the events that it
    /// deleted or replaced.
    Stored(usize),
}

/// Whether `r` is what ingestion returns for `outcome`.
pub open spec fn reports(r: Result<CheckEventResult, Error>, outcome: Outcome) -> bool {
    match outcome {
        Outcome::Invalid => r matches Ok(CheckEventResult::Invalid(_)),
        Outcome::Duplicate => r matches Ok(CheckEventResult::Duplicate),
        Outcome::Deleted => r matches Ok(CheckEventResult::Deleted),
        Outcome::ReplaceIgnored => r matches Ok(CheckEventResult::ReplaceIgnored),
        Outcome::Failed(e) => r matches Err(f) && f == e,
        Outcome::Stored(n) => r matches Ok(CheckEventResult::Stored(k)) && k == n,
    }
}

/// The reason given for an event of the wrong shape.
pub open spec fn invalid_reason(e: EventIndexView) -> Seq<char> {
    if e.id.len() != 32 || e.pubkey.len() != 32 {
        "invalid event id or pubkey"@
    } else if e.delegator matches Some(d) && d.len() != 32 {
        "invalid delegator"@
    } else {
        "invalid tag value"@
    }
}

/// Whether every tag value is short enough to be taken in.
fn tag_values_fit(tags: &Vec<(Vec<u8>, Vec<u8>)>) -> (r: bool)
    ensures
        r == forall|i: int|
            0 <= i < tags_view(tags@).len() ==> (#[trigger] tags_view(tags@)[i]).1.len()
                <= MAX_TAG_VALUE_SIZE,
{
    let ghost tv = tags_view(tags@);
    let mut i: usize = 0;
    while i < tags.len()
        invariant
            i <= tags.len(),
            tv == tags_view(tags@),
            forall|j: int| 0 <= j < i ==> (#[trigger] tv[j]).1.len() <= MAX_TAG_VALUE_SIZE,
        decreases tags.len() - i,
    {
        if tags[i].1.len() > MAX_TAG_VALUE_SIZE {
            assert(tv[i as int].1.len() > MAX_TAG_VALUE_SIZE);
            return false;
        }
        i += 1;
    }
    true
}

/// Whether `pubkey` may delete the event of `rec`.
fn may_delete(rec: &EventIndex, pubkey: &[u8]) -> (r: bool)
    ensures
        r == deletable_by(rec@, pubkey@),
{
    let delegated = match &rec.delegator {
        Some(d) => bytes_equal(d.as_slice(), pubkey),
        None => false,
    };
    (bytes_equal(rec.pubkey.as_slice(), pubkey) || delegated) && rec.kind != 5
}

/// All that is written for an event in encoded form.
pub struct Encoded {
    /// The archive of the index record.
    pub index: Vec<u8>,
    /// The payload as it is stored.
    pub data: Vec<u8>,
    /// The archive of the words, where the event has words.
    pub words: Option<Vec<u8>>,
}

/// Encodes all that is written for an event.
pub fn encode_all(event: &Event, compress: bool) -> (r: Result<Encoded, Error>)
    ensures
        r.is_ok() == encodable(event@, compress),
        r matches Err(e) ==> e == Error::Serialization,
        r matches Ok(enc) ==> {
            &&& enc.index@ == archived_index(event@.index).unwrap()
            &&& enc.data@ == stored_payload(event@.payload, compress).unwrap()
            &&& event@.words matches Some(w) ==> (enc.words matches Some(b) && b@
                == archived_words(w).unwrap())
        },
{
    let index = match event.index.to_bytes() {
        Ok(b) => b,
        Err(err) => {
            return Err(err);
        },
    };
    let data = match encode_event(event.payload.as_slice(), compress) {
        Ok(b) => b,
        Err(err) => {
            return Err(err);
        },
    };
    let words: Option<Vec<u8>> = match &event.words {
        Some(w) => match words_to_bytes(w) {
            Ok(b) => Some(b),
            Err(err) => {
                return Err(err);
            },
        },
        None => None,
    };
    Ok(Encoded { index, data, words })
}

/// Whether an index record has the shape that ingestion asks for.
pub fn shape_ok(e: &EventIndex) -> (r: bool)
    ensures
        r == well_shaped(e@),
{
    let delegator_ok = match &e.delegator {
        Some(d) => d.len() == 32,
        None => true,
    };
    if e.id.len() != 32 || e.pubkey.len() != 32 || !delegator_ok {
        return false;
    }
    let fit = tag_values_fit(&e.tags);
    assert(e@.tags == tags_view(e.tags@));
    fit
}

/// The views of a list of events with their identifiers.
pub open spec fn records_view(r: Seq<(u64, Event)>) -> Seq<(u64, EventView)> {
    Seq::new(r.len(), |i: int| (r[i].0, r[i].1@))
}

/// The store that holds the first `n` of a list of events under the
/// identifiers that come with them.
///
/// The identifiers must grow, each event must have the shape that ingestion
/// asks for, and no id and no replace-key may come twice; else the list is
/// not what a store held. The last identifier given out is the last of the
/// list.
pub open spec fn restored(compress: bool, recs: Seq<(u64, EventView)>, n: int) -> Result<
    State,
    Error,
>
    decreases n,
{
    if n <= 0 {
        Ok(State { live: Map::empty(), seq: 0, compress })
    } else {
        match restored(compress, recs, n - 1) {
            Err(e) => Err(e),
            Ok(s) => {
                let uid = recs[n - 1].0;
                let e = recs[n - 1].1;
                let x = e.index;
                if uid <= s.seq || !well_shaped(x) || id_is_live(s.live, x.id) || (replace_key(
                    x.kind,
                    x.pubkey,
                    x.tags,
                ) matches Some(rk) && replace_key_is_live(s.live, rk)) {
                    Err(Error::Substrate)
                } else if !encodable(e, compress) {
                    Err(Error::Serialization)
                } else {
                    Ok(State { live: s.live.insert(uid, e), seq: uid, compress })
                }
            },
        }
    }
}

impl Store {
    /// Builds the store again from the events that a store held, each with
    /// its identifier, in the order of their identifiers. Every table is
    /// written anew, and the counter of identifiers goes on after the last
    /// identifier of the list.
    pub fn restore(compress: bool, records: &Vec<(u64, Event)>) -> (r: Result<Store, Error>)
        ensures
            match restored(compress, records_view(records@), records@.len() as int) {
                Ok(s) => r matches Ok(store) && store.wf() && store@ == s,
                Err(e) => r matches Err(f) && f == e,
            },
    {
        let ghost recs = records_view(records@);
        let mut store = Store::new(compress);
        let mut i: usize = 0;
        while i < records.len()
            invariant
                i <= records.len(),
                recs == records_view(records@),
                store.wf(),
                store@.compress == compress,
                restored(compress, recs, i as int) == Ok::<State, Error>(store@),
                store.counted(),
            decreases records.len() - i,
        {
            let uid = records[i].0;
            let event = &records[i].1;
            let x = &event.index;
            let replace_key = encode_replace_key(x.kind, x.pubkey.as_slice(), &x.tags);
            let clash = match &replace_key {
                Some(k) => store.get_replaced(k.as_slice()).is_some(),
                None => false,
            };
            if uid <= store.seq || !shape_ok(x) || store.get_uid(x.id.as_slice()).is_some()
                || clash {
                proof {
                    lemma_restore_failed(compress, recs, i + 1, records@.len() as int);
                }
                return Err(Error::Substrate);
            }
            match encode_all(event, compress) {
                Ok(enc) => {
                    store.put_event(event, uid, &enc.data, &enc.index, &enc.words, &replace_key);
                },
                Err(err) => {
                    proof {
                        lemma_restore_failed(compress, recs, i + 1, records@.len() as int);
                    }
                    return Err(err);
                },
            }
            i += 1;
        }
        // the counter goes on after the largest key of the data table
        match store.counter_from_data() {
            Ok(last) => {
                store.seq = last;
                Ok(store)
            },
            Err(e) => Err(e),
        }
    }

    /// The last identifier that was given out, read from the data table: its
    /// largest key.
    fn counter_from_data(&self) -> (r: Result<u64, Error>)
        requires
            self.wf(),
            self.counted(),
        ensures
            r == Ok::<u64, Error>(self@.seq),
    {
        proof {
            self.lemma_tables();
            self.lemma_counter_is_latest();
            lemma_be64_roundtrip(self@.seq);
        }
        latest_seq(&self.t_data)
    }

    /// The last identifier that was given out is that of a live event, or
    /// nought in a store without events.
    pub open spec fn counted(&self) -> bool {
        self@.live.contains_key(self@.seq) || (self@.seq == 0 && self@.live == Map::<
            u64,
            EventView,
        >::empty())
    }

    /// Where the last identifier that was given out is that of a live event,
    /// it is the largest key of the data table; an empty store has an empty
    /// data table.
    pub proof fn lemma_counter_is_latest(&self)
        requires
            self.wf(),
            self.counted(),
        ensures
            self.table(Table::Data)@.len() == 0 ==> self@.seq == 0,
            self.table(Table::Data)@.len() > 0 ==> self.table(Table::Data)@.last().0 == be64(
                self@.seq,
            ),
    {
        let t = Table::Data;
        let tree = self.table(t)@;
        let live = self@.live;
        let c = self@.compress;
        let seq = self@.seq;
        self.lemma_tables();
        lemma_be64_roundtrip(seq);
        if live.contains_key(seq) {
            let p: Pair = (be64(seq), stored_payload(live[seq].payload, c).unwrap());
            assert(has_entry(t, live, c, seq, p));
            assert(self.table(t).pairs().contains(p));
            let i = choose|i: int| 0 <= i < tree.len() && tree[i] == p;
            let last = tree.last();
            assert(tree.contains(last));
            assert(self.table(t).pairs().contains(last));
            let u = choose|u: u64| #[trigger] has_entry(t, live, c, u, last);
            crate::model::lemma_entry_carries_uid(t, u, live[u], c, last);
            assert(live.contains_key(u));
            crate::bytes::lemma_be64_order(seq, u);
            if i < tree.len() - 1 {
                assert(crate::tree::pair_lt(tree[i], tree[tree.len() - 1]));
            }
        } else {
            if tree.len() > 0 {
                assert(tree.contains(tree[0]));
                assert(self.table(t).pairs().contains(tree[0]));
                let u = choose|u: u64| #[trigger] has_entry(t, live, c, u, tree[0]);
                assert(live.contains_key(u));
            }
        }
    }
}

/// A list that fails at some event fails as a whole, and alike.
pub proof fn lemma_restore_failed(compress: bool, recs: Seq<(u64, EventView)>, n: int, m: int)
    requires
        0 < n <= m,
        restored(compress, recs, n) is Err,
    ensures
        restored(compress, recs, m) == restored(compress, recs, n),
    decreases m - n,
{
    if n < m {
        lemma_restore_failed(compress, recs, n, m - 1);
    }
}

impl Store {
    /// Deletes the targets of a deletion event by `pubkey`: for each `e` tag
    /// the live event with that id, where `pubkey` signed it or is its
    /// delegator and it is no deletion event itself. Returns how many went.
    fn delete_targets(&mut self, tags: &Vec<(Vec<u8>, Vec<u8>)>, pubkey: &[u8]) -> (count: usize)
        requires
            old(self).wf(),
        ensures
            final(self).wf(),
            final(self)@ == (State {
                live: old(self)@.live.remove_keys(
                    deletion_targets(
                        old(self)@.live,
                        tags_view(tags@),
                        tags@.len() as int,
                        pubkey@,
                    ),
                ),
                ..old(self)@
            }),
            count == deletion_count(old(self)@.live, tags_view(tags@), tags@.len() as int, pubkey@),
            count <= tags@.len(),
    {
        let ghost pre = *self;
        let ghost live0 = self@.live;
        let ghost tv = tags_view(tags@);
        let ghost pk = pubkey@;
        let mut count: usize = 0;
        let mut i: usize = 0;
        proof {
            assert(deletion_targets(live0, tv, 0, pk) =~= Set::empty());
            assert(live0.remove_keys(deletion_targets(live0, tv, 0, pk)) =~= live0);
        }
        while i < tags.len()
            invariant
                i <= tags.len(),
                tv == tags_view(tags@),
                pk == pubkey@,
                pre.wf(),
                live0 == pre@.live,
                self.wf(),
                self@ == (State {
                    live: live0.remove_keys(deletion_targets(live0, tv, i as int, pk)),
                    ..pre@
                }),
                count == deletion_count(live0, tv, i as int, pk),
                count <= i,
            decreases tags.len() - i,
        {
            let ghost before = deletion_targets(live0, tv, i as int, pk);
            let ghost after = deletion_targets(live0, tv, i + 1, pk);
            let ghost cur = self@.live;
            let ghost target = tv[i as int].1;
            let e_tag = is_e_name(tags[i].0.as_slice());
            let found: Option<(u64, EventIndex)> = if e_tag {
                match self.get_uid(tags[i].1.as_slice()) {
                    Some(uid) => match self.get_index(uid) {
                        Some(rec) => Some((uid, rec)),
                        None => None,
                    },
                    None => None,
                }
            } else {
                None
            };
            let doomed = match &found {
                Some(f) => may_delete(&f.1, pubkey),
                None => false,
            };
            proof {
                assert forall|x: u64| before.contains(x) implies after.contains(x) by {
                    let j = choose|j: int|
                        0 <= j < i && j < tv.len() && #[trigger] tv[j] == (
                            e_name(),
                            live0[x].index.id,
                        );
                    assert(points_at(tv, i + 1, live0[x].index.id));
                }
            }
            if doomed {
                let f = found.unwrap();
                let uid = f.0;
                proof {
                    assert(holds_id(live0, target, uid));
                    assert(!before.contains(uid));
                    assert(!points_at(tv, i as int, target));
                    assert(deletes_at(live0, tv, i as int, pk));
                    assert(tv[i as int] == (e_name(), target));
                    assert(points_at(tv, i + 1, live0[uid].index.id));
                    assert forall|x: u64| after.contains(x) implies (before.contains(x) || x
                        == uid) by {
                        if !before.contains(x) {
                            let j = choose|j: int|
                                0 <= j < i + 1 && j < tv.len() && #[trigger] tv[j] == (
                                    e_name(),
                                    live0[x].index.id,
                                );
                            if j < i {
                                assert(points_at(tv, i as int, live0[x].index.id));
                            }
                            pre.lemma_ids_distinct(x, uid);
                        }
                    }
                    assert(after =~= before.insert(uid));
                }
                count += 1;
                self.del_event(&f.1, uid);
                proof {
                    assert(self@.live =~= live0.remove_keys(after));
                }
            } else {
                proof {
                    assert forall|x: u64| after.contains(x) implies before.contains(x) by {
                        let j = choose|j: int|
                            0 <= j < i + 1 && j < tv.len() && #[trigger] tv[j] == (
                                e_name(),
                                live0[x].index.id,
                            );
                        if j < i {
                            assert(points_at(tv, i as int, live0[x].index.id));
                        } else if cur.contains_key(x) {
                            assert(holds_id(cur, target, x));
                            pre.lemma_ids_distinct(x, found.unwrap().0);
                        }
                    }
                    assert(after =~= before);
                    if deletes_at(live0, tv, i as int, pk) {
                        let x = choose|x: u64| #[trigger]
                            holds_id(live0, tv[i as int].1, x) && deletable_by(live0[x].index, pk);
                        assert(tv[i as int] == (e_name(), live0[x].index.id));
                        assert(points_at(tv, i + 1, live0[x].index.id));
                        assert(after.contains(x));
                        assert(points_at(tv, i as int, live0[x].index.id));
                    }
                }
            }
            i += 1;
        }
        count
    }

    /// Ingests one event.
    ///
    /// An event whose id or public key is not 32 bytes long is invalid. An
    /// event whose id is stored is a duplicate. An event on whose id its own
    /// public key has laid a tombstone is deleted. An event whose delegator is
    /// not 32 bytes long, or with a tag value of more than 255 bytes, is
    /// invalid. An event of a replaceable kind that is older than the stored
    /// event with its replace-key is ignored. In all these cases, and where
    /// the event cannot be encoded or no identifier is left, the store is
    /// unchanged. Else a deletion event first deletes its targets, any other
    /// event the event that it replaces; then the event is stored under the
    /// next identifier.
    pub fn put(&mut self, event: &Event) -> (r: Result<CheckEventResult, Error>)
        requires
            old(self).wf(),
        ensures
            final(self).wf(),
            reports(r, put_outcome(old(self)@, event@)),
            r matches Ok(CheckEventResult::Invalid(m)) ==> m@ == invalid_reason(event@.index),
            final(self)@ == put_state(old(self)@, event@),
    {
        let ghost s0 = self@;
        let ghost e = event@;
        let ghost x = event@.index;
        let index_event = &event.index;
        let id = index_event.id.as_slice();
        let pubkey = index_event.pubkey.as_slice();
        let kind = index_event.kind;

        if id.len() != 32 || pubkey.len() != 32 {
            return Ok(CheckEventResult::Invalid("invalid event id or pubkey".to_owned()));
        }
        if self.get_uid(id).is_some() {
            return Ok(CheckEventResult::Duplicate);
        }
        if self.is_tombstoned(id, pubkey) {
            return Ok(CheckEventResult::Deleted);
        }
        let delegator_ok = match &index_event.delegator {
            Some(d) => d.len() == 32,
            None => true,
        };
        if !delegator_ok {
            return Ok(CheckEventResult::Invalid("invalid delegator".to_owned()));
        }
        if !tag_values_fit(&index_event.tags) {
            return Ok(CheckEventResult::Invalid("invalid tag value".to_owned()));
        }
        let replace_key = encode_replace_key(kind, pubkey, &index_event.tags);
        let replaced: Option<(u64, EventIndex)> = match &replace_key {
            Some(k) => self.get_replaced(k.as_slice()),
            None => None,
        };
        let ghost rk = opt_bytes_view(replace_key);
        proof {
            match rk {
                Some(k) => {
                    if replace_key_is_live(s0.live, k) {
                        let u = replaced_by(s0.live, x).unwrap();
                        self.lemma_replace_keys_distinct(k, u, replaced.unwrap().0);
                    }
                },
                None => {},
            }
            assert(replaced.is_some() == replaced_by(s0.live, x).is_some());
            assert(replaced matches Some(found) ==> replaced_by(s0.live, x) == Some(found.0));
        }
        match &replaced {
            Some(found) => {
                if index_event.created_at < found.1.created_at {
                    return Ok(CheckEventResult::ReplaceIgnored);
                }
            },
            None => {},
        }
        let encoded = match encode_all(event, self.compress) {
            Ok(b) => b,
            Err(err) => {
                return Err(err);
            },
        };
        let index_bytes = encoded.index;
        let data = encoded.data;
        let words_bytes = encoded.words;
        if self.seq == u64::MAX {
            return Err(Error::Substrate);
        }
        let uid = self.seq + 1;
        let mut count: usize = 0;
        let ghost pre = *self;
        proof {
            crate::event::lemma_words_weight_floor(crate::event::flat(x));
        }
        if kind == 5 {
            count = self.delete_targets(&index_event.tags, pubkey);
        } else {
            match &replaced {
                Some(found) => {
                    self.del_event(&found.1, found.0);
                    count = 1;
                    proof {
                        assert(self@.live =~= s0.live.remove_keys(displaced(s0, x)));
                    }
                },
                None => {
                    proof {
                        assert(self@.live =~= s0.live.remove_keys(displaced(s0, x)));
                    }
                },
            }
        }
        proof {
            let cur = self@.live;
            assert(cur == s0.live.remove_keys(displaced(s0, x)));
            if id_is_live(cur, x.id) {
                let u = choose|u: u64| #[trigger] holds_id(cur, x.id, u);
                assert(holds_id(s0.live, x.id, u));
            }
            match rk {
                Some(k) => {
                    if replace_key_is_live(cur, k) {
                        let u = choose|u: u64| #[trigger] holds_replace_key(cur, k, u);
                        assert(holds_replace_key(s0.live, k, u));
                        assert(replace_key_is_live(s0.live, k));
                        pre.lemma_replace_keys_distinct(k, u, replaced.unwrap().0);
                    }
                },
                None => {},
            }
        }
        self.put_event(event, uid, &data, &index_bytes, &words_bytes, &replace_key);
        Ok(CheckEventResult::Stored(count + 1))
    }
}

impl Store {
    /// A store with the same tables and the same counter.
    pub fn copy(&self) -> (r: Store)
        requires
            self.wf(),
        ensures
            r.wf(),
            r@ == self@,
    {
        let r = Store {
            t_data: self.t_data.copy(),
            t_index: self.t_index.copy(),
            t_id_uid: self.t_id_uid.copy(),
            t_uid_word: self.t_uid_word.copy(),
            t_id: self.t_id.copy(),
            t_pubkey: self.t_pubkey.copy(),
            t_kind: self.t_kind.copy(),
            t_pubkey_kind: self.t_pubkey_kind.copy(),
            t_created_at: self.t_created_at.copy(),
            t_tag: self.t_tag.copy(),
            t_deletion: self.t_deletion.copy(),
            t_replacement: self.t_replacement.copy(),
            t_expiration: self.t_expiration.copy(),
            t_word: self.t_word.copy(),
            seq: self.seq,
            compress: self.compress,
            state: Ghost(self.state@),
        };
        proof {
            assert forall|t: Table| #[trigger]
                r.table_holds(t, derived(t, r@.live, r@.compress)) by {
                assert(self.table_holds(t, derived(t, self@.live, self@.compress)));
                assert(r.table(t)@ == self.table(t)@);
                assert(r.table(t).pairs() =~= self.table(t).pairs());
            }
        }
        r
    }

    /// The stored payload of the event with the given id, if it is stored.
    pub fn get(&self, id: &[u8]) -> (r: Option<Vec<u8>>)
        requires
            self.wf(),
        ensures
            r.is_some() == id_is_live(self@.live, id@),
            crate::event::opt_bytes_view(r) == crate::model::payload_of(self@, id@),
    {
        match self.get_uid(id) {
            Some(uid) => {
                proof {
                    self.lemma_ids_distinct(uid, crate::model::uid_of(self@.live, id@));
                }
                self.get_data(uid)
            },
            None => None,
        }
    }

    /// Deletes the event with the given id with all its entries. Returns
    /// whether there was one.
    pub fn del(&mut self, id: &[u8]) -> (r: bool)
        requires
            old(self).wf(),
        ensures
            final(self).wf(),
            r == id_is_live(old(self)@.live, id@),
            final(self)@ == crate::model::del_id_state(old(self)@, id@),
    {
        match self.get_uid(id) {
            Some(uid) => {
                proof {
                    self.lemma_ids_distinct(uid, crate::model::uid_of(self@.live, id@));
                }
                match self.get_index(uid) {
                    Some(rec) => {
                        self.del_event(&rec, uid);
                        true
                    },
                    None => false,
                }
            },
            None => false,
        }
    }

    /// The last identifier that was given out.
    pub fn seq(&self) -> (r: u64)
        requires
            self.wf(),
        ensures
            r == self@.seq,
    {
        self.seq
    }
}

impl Store {
    /// One of the tables that follow from the live events.
    pub fn tree(&self, t: Table) -> (r: &Tree)
        ensures
            *r == self.table(t),
    {
        match t {
            Table::Data => &self.t_data,
            Table::Index => &self.t_index,
            Table::IdUid => &self.t_id_uid,
            Table::UidWord => &self.t_uid_word,
            Table::Id => &self.t_id,
            Table::Pubkey => &self.t_pubkey,
            Table::Kind => &self.t_kind,
            Table::PubkeyKind => &self.t_pubkey_kind,
            Table::Time => &self.t_created_at,
            Table::Tag => &self.t_tag,
            Table::Replacement => &self.t_replacement,
            Table::Expiration => &self.t_expiration,
            Table::Word => &self.t_word,
            Table::Deletion => &self.t_deletion,
        }
    }

    /// The table of tombstones.
    pub fn deletion_tree(&self) -> (r: &Tree)
        ensures
            *r == self.table(Table::Deletion),
    {
        &self.t_deletion
    }
}

impl Store {
    /// Every entry of a table that queries scan has the shape that scans
    /// read.
    pub proof fn lemma_table_shaped(&self, t: Table, i: int)
        requires
            self.wf(),
            crate::model::scannable(t),
            0 <= i < self.table(t)@.len(),
        ensures
            crate::model::entry_shaped(t, self.table(t)@[i]),
    {
        let p = self.table(t)@[i];
        assert(self.table_holds(t, derived(t, self@.live, self@.compress)));
        assert(self.table(t)@.contains(p));
        assert(self.table(t).pairs().contains(p));
        let uid = choose|uid: u64| #[trigger] has_entry(t, self@.live, self@.compress, uid, p);
        assert(self@.live.contains_key(uid));
        crate::model::lemma_entry_shaped(t, uid, self@.live[uid], self@.compress, p);
    }

    /// The tables of a store in order are in order.
    pub proof fn lemma_table_wf(&self, t: Table)
        requires
            self.wf(),
        ensures
            self.table(t).wf(),
            self.table(t).dup() == table_dup(t),
            self.table(t).pairs() == derived(t, self@.live, self@.compress),
    {
        assert(self.table_holds(t, derived(t, self@.live, self@.compress)));
    }
}

/// The last identifier that a data table holds: its largest key, read as a
/// number, or nought for an empty table.
pub fn latest_seq(tree: &Tree) -> (r: Result<u64, Error>)
    requires
        tree.wf(),
    ensures
        tree@.len() == 0 ==> r == Ok::<u64, Error>(0),
        tree@.len() > 0 && tree@.last().0.len() == 8 ==> r == Ok::<u64, Error>(
            crate::bytes::be64_value(tree@.last().0) as u64,
        ),
        tree@.len() > 0 && tree@.last().0.len() != 8 ==> r == Err::<u64, Error>(
            Error::InvalidLength,
        ),
{
    let mut iter = crate::cursor::Iter::new(tree, crate::cursor::Bound::Unbounded, true);
    proof {
        if iter.edge() < tree@.len() {
            assert(crate::cursor::admits(
                crate::cursor::Bound::Unbounded,
                true,
                tree@[iter.edge()].0,
            ));
        }
        if tree@.len() > 0 {
            assert(tree@.take(tree@.len() as int).reverse()[0] == tree@.last());
        }
    }
    match iter.next() {
        Some(kv) => u64_from_bytes(kv.0.as_slice()),
        None => Ok(0),
    }
}

impl Store {
    /// In a store that was built again from a list of events, the last
    /// identifier given out is the largest key of the data table.
    pub proof fn lemma_seq_is_latest(&self, uid: u64)
        requires
            self.wf(),
            self@.live.contains_key(uid),
        ensures
            uid <= self@.seq,
            self.table(Table::Data).has_key(be64(uid)),
    {
        self.lemma_wf();
        self.lemma_table_wf(Table::Data);
        let p: Pair = (be64(uid), stored_payload(self@.live[uid].payload, self@.compress).unwrap());
        assert(has_entry(Table::Data, self@.live, self@.compress, uid, p));
        assert(self.table(Table::Data).pairs().contains(p));
        self.table(Table::Data).lemma_has_key(be64(uid));
    }
}

} // verus!
