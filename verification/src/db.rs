//! The database: a committed store, and the transactions that read it or
//! that work on a copy of it until they are committed.

use vstd::prelude::*;
use crate::bytes::{bytes_equal, bytes_less, lex_lt, lemma_lex_transitive, lemma_lex_trichotomy};
use crate::error::Error;
use crate::event::{opt_bytes_view, words_view, Event, EventView};
use crate::filter::Filter;
use crate::model::{del_id_state, id_is_live, payload_of, put_outcome, put_state, Outcome, State, Table};
use crate::plan::{chosen, plan_fails, time_plan, MatchIndex};
use crate::query::Iter;
use crate::store::{invalid_reason, records_view, reports, restored, CheckEventResult, Store};

verus! {

/// The views of a list of events.
pub open spec fn events_view(e: Seq<Event>) -> Seq<EventView> {
    Seq::new(e.len(), |i: int| e[i]@)
}

/// The ids of a list of events.
pub open spec fn ids_of(evs: Seq<EventView>) -> Seq<Seq<u8>> {
    Seq::new(evs.len(), |i: int| evs[i].index.id)
}

/// The positions of `order` are below `j`.
pub open spec fn order_below(order: Seq<usize>, j: int) -> bool {
    forall|k: int| 0 <= k < order.len() ==> (#[trigger] order[k]) < j
}

/// The ids at the positions of `order` grow strictly.
pub open spec fn order_sorted(ids: Seq<Seq<u8>>, order: Seq<usize>) -> bool {
    forall|a: int, b: int|
        0 <= a < b < order.len() ==> lex_lt(
            ids[(#[trigger] order[a]) as int],
            ids[(#[trigger] order[b]) as int],
        )
}

/// Each position of `order` is the first of the list with its id.
pub open spec fn order_firsts(ids: Seq<Seq<u8>>, order: Seq<usize>) -> bool {
    forall|k: int, x: int|
        0 <= k < order.len() && 0 <= x < order[k] ==> (#[trigger] ids[x]) != ids[(
        #[trigger] order[k]) as int]
}

/// The id at position `x` of the list is at some position of `order`.
pub open spec fn order_has(ids: Seq<Seq<u8>>, order: Seq<usize>, x: int) -> bool {
    exists|k: int| 0 <= k < order.len() && ids[(#[trigger] order[k]) as int] == ids[x]
}

/// Every id among the first `j` of the list is at some position of `order`.
pub open spec fn order_covers(ids: Seq<Seq<u8>>, order: Seq<usize>, j: int) -> bool {
    forall|x: int| 0 <= x < j ==> #[trigger] order_has(ids, order, x)
}

/// The order in which a batch is ingested: by id, and of several events
/// with one id the first of the list only.
pub open spec fn is_batch_order(evs: Seq<EventView>, order: Seq<usize>) -> bool {
    &&& order_below(order, evs.len() as int)
    &&& order_sorted(ids_of(evs), order)
    &&& order_firsts(ids_of(evs), order)
    &&& order_covers(ids_of(evs), order, evs.len() as int)
}

/// Putting position `j` into an order of the positions below `j`, at its
/// place by id, gives an order of the positions up to `j`.
proof fn lemma_order_insert(ids: Seq<Seq<u8>>, order: Seq<usize>, pos: int, j: usize)
    requires
        j < ids.len(),
        0 <= pos <= order.len(),
        order_below(order, j as int),
        order_sorted(ids, order),
        order_firsts(ids, order),
        order_covers(ids, order, j as int),
        forall|k: int| 0 <= k < pos ==> lex_lt(ids[(#[trigger] order[k]) as int], ids[j as int]),
        pos < order.len() ==> lex_lt(ids[j as int], ids[order[pos] as int]),
    ensures
        order_below(order.insert(pos, j), j + 1),
        order_sorted(ids, order.insert(pos, j)),
        order_firsts(ids, order.insert(pos, j)),
        order_covers(ids, order.insert(pos, j), j + 1),
{
    let after = order.insert(pos, j);
    let id = ids[j as int];
    assert forall|k: int| pos <= k < order.len() implies lex_lt(
        id,
        ids[(#[trigger] order[k]) as int],
    ) by {
        if k > pos {
            lemma_lex_transitive(id, ids[order[pos] as int], ids[order[k] as int]);
        }
    }
    assert forall|k: int| 0 <= k < after.len() implies (#[trigger] after[k]) < j + 1 by {
        if k < pos {
            assert(after[k] == order[k]);
        } else if k > pos {
            assert(after[k] == order[k - 1]);
        }
    }
    assert forall|a: int, b: int| 0 <= a < b < after.len() implies lex_lt(
        ids[(#[trigger] after[a]) as int],
        ids[(#[trigger] after[b]) as int],
    ) by {
        let oa = if a < pos {
            a
        } else {
            a - 1
        };
        let ob = if b < pos {
            b
        } else {
            b - 1
        };
        if a != pos && b != pos {
            assert(after[a] == order[oa] && after[b] == order[ob]);
        } else if a == pos {
            assert(after[b] == order[ob]);
        } else {
            assert(after[a] == order[oa]);
        }
    }
    assert forall|k: int, x: int| 0 <= k < after.len() && 0 <= x < after[k] implies (
    #[trigger] ids[x]) != ids[(#[trigger] after[k]) as int] by {
        if k == pos {
            if ids[x] == id {
                assert(order_has(ids, order, x));
                let w = choose|w: int|
                    0 <= w < order.len() && ids[(#[trigger] order[w]) as int] == ids[x];
                lemma_lex_trichotomy(ids[order[w] as int], id);
            }
        } else {
            let ok = if k < pos {
                k
            } else {
                k - 1
            };
            assert(after[k] == order[ok]);
        }
    }
    assert forall|x: int| 0 <= x < j + 1 implies #[trigger] order_has(ids, after, x) by {
        if x == j {
            assert(after[pos] == j);
        } else {
            assert(order_has(ids, order, x));
            let w = choose|w: int|
                0 <= w < order.len() && ids[(#[trigger] order[w]) as int] == ids[x];
            let nw = if w < pos {
                w
            } else {
                w + 1
            };
            assert(after[nw] == order[w]);
        }
    }
}

/// An order of the positions below `j` that holds the id of position `j`
/// is an order of the positions up to `j`.
proof fn lemma_order_skip(ids: Seq<Seq<u8>>, order: Seq<usize>, pos: int, j: usize)
    requires
        j < ids.len(),
        0 <= pos < order.len(),
        order_below(order, j as int),
        order_covers(ids, order, j as int),
        ids[order[pos] as int] == ids[j as int],
    ensures
        order_below(order, j + 1),
        order_covers(ids, order, j + 1),
{
    assert forall|x: int| 0 <= x < j + 1 implies #[trigger] order_has(ids, order, x) by {
        if x == j {
            assert(ids[order[pos] as int] == ids[x]);
        }
    }
}

/// What ingesting the first `n` events of a batch, in its order, ends in:
/// the store, how many events were stored, deleted or replaced, and the
/// first failure if there was one, after which nothing more is done.
pub struct BatchEnd {
    pub state: State,
    pub count: int,
    pub failed: Option<Error>,
}

pub open spec fn batch_end(s: State, evs: Seq<EventView>, order: Seq<usize>, n: int) -> BatchEnd
    decreases n,
{
    if n <= 0 {
        BatchEnd { state: s, count: 0, failed: None }
    } else {
        let before = batch_end(s, evs, order, n - 1);
        if before.failed is Some {
            before
        } else {
            let e = evs[order[n - 1] as int];
            match put_outcome(before.state, e) {
                Outcome::Failed(err) => BatchEnd { failed: Some(err), ..before },
                Outcome::Stored(c) => BatchEnd {
                    state: put_state(before.state, e),
                    count: before.count + c,
                    failed: None,
                },
                _ => before,
            }
        }
    }
}

/// The store after the first `n` ids of a list were deleted, one by one.
pub open spec fn batch_del_state(s: State, ids: Seq<Seq<u8>>, n: int) -> State
    decreases n,
{
    if n <= 0 {
        s
    } else {
        del_id_state(batch_del_state(s, ids, n - 1), ids[n - 1])
    }
}

/// The stored payloads of those of the first `n` ids that are stored, in
/// the order of the list.
pub open spec fn batch_payloads(s: State, ids: Seq<Seq<u8>>, n: int) -> Seq<Seq<u8>>
    decreases n,
{
    if n <= 0 {
        Seq::empty()
    } else {
        match payload_of(s, ids[n - 1]) {
            Some(b) => batch_payloads(s, ids, n - 1).push(b),
            None => batch_payloads(s, ids, n - 1),
        }
    }
}

/// `a + b`, or the largest number where that is too large.
pub open spec fn capped_count(a: int) -> usize {
    if a > usize::MAX {
        usize::MAX
    } else {
        a as usize
    }
}

/// The order in which a batch is ingested.
fn batch_order(events: &Vec<Event>) -> (order: Vec<usize>)
    ensures
        is_batch_order(events_view(events@), order@),
{
    let ghost ids = ids_of(events_view(events@));
    let mut order: Vec<usize> = Vec::new();
    let mut j: usize = 0;
    while j < events.len()
        invariant
            j <= events.len(),
            ids == ids_of(events_view(events@)),
            order_below(order@, j as int),
            order_sorted(ids, order@),
            order_firsts(ids, order@),
            order_covers(ids, order@, j as int),
        decreases events.len() - j,
    {
        let id = events[j].index.id.as_slice();
        let mut pos: usize = 0;
        while pos < order.len() && bytes_less(events[order[pos]].index.id.as_slice(), id)
            invariant
                pos <= order@.len(),
                j < events.len(),
                ids == ids_of(events_view(events@)),
                id@ == ids[j as int],
                order_below(order@, j as int),
                forall|k: int|
                    0 <= k < pos ==> lex_lt(ids[(#[trigger] order@[k]) as int], ids[j as int]),
            decreases order@.len() - pos,
        {
            pos += 1;
        }
        let same = pos < order.len() && bytes_equal(events[order[pos]].index.id.as_slice(), id);
        if !same {
            proof {
                if pos < order@.len() {
                    lemma_lex_trichotomy(ids[order@[pos as int] as int], ids[j as int]);
                }
                lemma_order_insert(ids, order@, pos as int, j);
            }
            order.insert(pos, j);
        } else {
            proof {
                lemma_order_skip(ids, order@, pos as int, j);
            }
        }
        j += 1;
    }
    order
}

/// A transaction that reads: a view of a store that does not change.
pub struct Reader<'a> {
    store: &'a Store,
}

/// A transaction that writes: it works on a copy of the store, which takes
/// the place of the committed one when the transaction is committed, and is
/// dropped with it otherwise.
pub struct Writer {
    store: Store,
}

pub struct Db {
    store: Store,
}

impl<'a> Reader<'a> {
    pub closed spec fn store(&self) -> Store {
        *self.store
    }

    pub open spec fn wf(&self) -> bool {
        self.store().wf()
    }

    /// The store that the transaction reads.
    pub fn tables(&self) -> (r: &'a Store)
        ensures
            *r == self.store(),
    {
        self.store
    }
}

impl Writer {
    pub closed spec fn store(&self) -> Store {
        self.store
    }

    pub open spec fn wf(&self) -> bool {
        self.store().wf()
    }

    /// A reading view of what the transaction has written so far.
    pub fn reader(&self) -> (r: Reader<'_>)
        ensures
            r.store() == self.store(),
    {
        Reader { store: &self.store }
    }
}

impl View for Db {
    type V = State;

    closed spec fn view(&self) -> State {
        self.store@
    }
}

impl Db {
    pub closed spec fn store(&self) -> Store {
        self.store
    }

    pub open spec fn wf(&self) -> bool {
        self.store().wf()
    }

    /// Opens a database on the events that it held when it was closed, each
    /// with its identifier, in the order of their identifiers; on no events a
    /// new database. With `compress`, payloads are compressed when they are
    /// written. The counter of identifiers goes on after the last identifier
    /// of the list. It fails where the list is not what a database held.
    pub fn open(compress: bool, records: &Vec<(u64, Event)>) -> (r: Result<Db, Error>)
        ensures
            match restored(compress, records_view(records@), records@.len() as int) {
                Ok(s) => r matches Ok(db) && db.wf() && db.store()@ == s,
                Err(e) => r matches Err(f) && f == e,
            },
    {
        match Store::restore(compress, records) {
            Ok(store) => Ok(Db { store }),
            Err(e) => Err(e),
        }
    }

    /// A transaction that writes, starting from the committed store.
    pub fn writer(&self) -> (w: Writer)
        requires
            self.wf(),
        ensures
            w.wf(),
            w.store()@ == self.store()@,
    {
        Writer { store: self.store.copy() }
    }

    /// A transaction that reads the committed store.
    pub fn reader(&self) -> (r: Reader<'_>)
        ensures
            r.store() == self.store(),
    {
        Reader { store: &self.store }
    }

    /// Makes what a transaction has written the committed store.
    pub fn commit(&mut self, txn: Writer)
        requires
            txn.wf(),
        ensures
            final(self).wf(),
            final(self).store() == txn.store(),
    {
        self.store = txn.store;
    }

    /// Ingests one event inside a transaction.
    pub fn put(&self, writer: &mut Writer, event: &Event) -> (r: Result<CheckEventResult, Error>)
        requires
            old(writer).wf(),
        ensures
            final(writer).wf(),
            reports(r, put_outcome(old(writer).store()@, event@)),
            r matches Ok(CheckEventResult::Invalid(m)) ==> m@ == invalid_reason(event@.index),
            final(writer).store()@ == put_state(old(writer).store()@, event@),
    {
        writer.store.put(event)
    }

    /// The stored payload of the event with the given id, if it is stored.
    pub fn get(&self, txn: &Reader, id: &[u8]) -> (r: Option<Vec<u8>>)
        requires
            txn.wf(),
        ensures
            opt_bytes_view(r) == payload_of(txn.store()@, id@),
    {
        txn.store.get(id)
    }

    /// Deletes the event with the given id inside a transaction. Returns
    /// whether it was stored.
    pub fn del(&self, writer: &mut Writer, id: &[u8]) -> (r: bool)
        requires
            old(writer).wf(),
        ensures
            final(writer).wf(),
            r == id_is_live(old(writer).store()@.live, id@),
            final(writer).store()@ == del_id_state(old(writer).store()@, id@),
    {
        writer.store.del(id)
    }

    /// Ingests a batch in one transaction: the events by id, and of several
    /// events with one id the first only. Returns how many events were
    /// stored, deleted or replaced. A failure leaves the database as it was.
    pub fn batch_put(&mut self, events: &Vec<Event>) -> (r: Result<usize, Error>)
        requires
            old(self).wf(),
        ensures
            final(self).wf(),
            exists|order: Seq<usize>|
                {
                    let end = #[trigger] batch_end(
                        old(self).store()@,
                        events_view(events@),
                        order,
                        order.len() as int,
                    );
                    &&& is_batch_order(events_view(events@), order)
                    &&& match end.failed {
                        Some(e) => r == Err::<usize, Error>(e) && final(self).store()@ == old(self).store()@,
                        None => r == Ok::<usize, Error>(capped_count(end.count)) && final(self).store()@ == end.state,
                    }
                },
    {
        let ghost s0 = self.store@;
        let ghost evs = events_view(events@);
        let order = batch_order(events);
        let mut writer = self.writer();
        let mut count: usize = 0;
        let mut k: usize = 0;
        while k < order.len()
            invariant
                k <= order@.len(),
                is_batch_order(evs, order@),
                evs == events_view(events@),
                writer.wf(),
                self.wf(),
                self.store@ == s0,
                batch_end(s0, evs, order@, k as int).failed is None,
                batch_end(s0, evs, order@, k as int).state == writer.store()@,
                batch_end(s0, evs, order@, k as int).count >= 0,
                count == capped_count(batch_end(s0, evs, order@, k as int).count),
            decreases order@.len() - k,
        {
            let event = &events[order[k]];
            match writer.store.put(event) {
                Ok(CheckEventResult::Stored(c)) => {
                    if c > usize::MAX - count {
                        count = usize::MAX;
                    } else {
                        count = count + c;
                    }
                },
                Ok(_) => {},
                Err(e) => {
                    proof {
                        lemma_batch_failed(s0, evs, order@, k + 1, order@.len() as int);
                    }
                    return Err(e);
                },
            }
            k += 1;
        }
        self.commit(writer);
        Ok(count)
    }

    /// The stored payloads of those of the ids that are stored, in the order
    /// of the list.
    pub fn batch_get(&self, ids: &Vec<Vec<u8>>) -> (r: Vec<Vec<u8>>)
        requires
            self.wf(),
        ensures
            words_view(r@) == batch_payloads(self.store()@, words_view(ids@), ids@.len() as int),
    {
        let ghost iv = words_view(ids@);
        let reader = self.reader();
        let mut events: Vec<Vec<u8>> = Vec::new();
        let mut i: usize = 0;
        assert(words_view(events@) =~= batch_payloads(self.store()@, iv, 0));
        while i < ids.len()
            invariant
                i <= ids.len(),
                iv == words_view(ids@),
                reader.store() == self.store(),
                self.wf(),
                words_view(events@) == batch_payloads(self.store()@, iv, i as int),
            decreases ids.len() - i,
        {
            let ghost was = words_view(events@);
            match self.get(&reader, ids[i].as_slice()) {
                Some(e) => {
                    events.push(e);
                    assert(words_view(events@) =~= was.push(e@));
                },
                None => {},
            }
            i += 1;
        }
        events
    }

    /// Deletes the events with the given ids in one transaction.
    pub fn batch_del(&mut self, ids: &Vec<Vec<u8>>)
        requires
            old(self).wf(),
        ensures
            final(self).wf(),
            final(self).store()@ == batch_del_state(
                old(self).store()@,
                words_view(ids@),
                ids@.len() as int,
            ),
    {
        let ghost s0 = self.store@;
        let ghost iv = words_view(ids@);
        let mut writer = self.writer();
        let mut i: usize = 0;
        while i < ids.len()
            invariant
                i <= ids.len(),
                iv == words_view(ids@),
                writer.wf(),
                writer.store()@ == batch_del_state(s0, iv, i as int),
            decreases ids.len() - i,
        {
            let _gone = writer.store.del(ids[i].as_slice());
            i += 1;
        }
        self.commit(writer);
    }

    /// The query for a filter over what a transaction reads. It fails where
    /// a prefix that the plan decodes is not hexadecimal.
    pub fn iter<'a>(&self, txn: &Reader<'a>, filter: &Filter) -> (r: Result<Iter<'a>, Error>)
        requires
            txn.wf(),
        ensures
            r.is_err() == plan_fails(filter@),
            r matches Err(e) ==> e == Error::Hex,
            r matches Ok(it) ==> it.answers(
                &txn.store(),
                filter@,
                chosen(filter@).table,
                chosen(filter@).plan,
                chosen(filter@).and,
                chosen(filter@).dedup,
                chosen(filter@).match_index,
            ),
    {
        Iter::open(txn.store, filter)
    }

    /// The sweep for expired events over what a transaction reads: the
    /// events whose expiration is `until` or before it, the first to expire
    /// first.
    pub fn iter_expiration<'a>(&self, txn: &Reader<'a>, until: Option<u64>) -> (r: Result<
        Iter<'a>,
        Error,
    >)
        requires
            txn.wf(),
        ensures
            r matches Ok(it) && it.answers(
                &txn.store(),
                Iter::expiration_filter(until),
                Table::Expiration,
                time_plan(Iter::expiration_filter(until)),
                false,
                false,
                MatchIndex::Off,
            ),
    {
        Iter::open_expiration(txn.store, until)
    }
}

/// After a failure a batch does nothing more.
pub proof fn lemma_batch_failed(s: State, evs: Seq<EventView>, order: Seq<usize>, n: int, m: int)
    requires
        0 < n <= m,
        batch_end(s, evs, order, n).failed is Some,
    ensures
        batch_end(s, evs, order, m) == batch_end(s, evs, order, n),
    decreases m - n,
{
    if n < m {
        lemma_batch_failed(s, evs, order, n, m - 1);
    }
}

} // verus!
