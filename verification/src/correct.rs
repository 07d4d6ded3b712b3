//! A query answers with the events that match its filter: in the order of
//! the filter, and no more of them than its limit allows.

use vstd::prelude::*;
use crate::answers::{among, keys_strict, lemma_picked, lemma_results_picked, limit_hit, passes, payloads, picked};
use crate::query::results;
use crate::bytes::{be64, lex_lt, lemma_be64_roundtrip};
use crate::error::Error;
use crate::event::EventView;
use crate::filter::{record_matches, FilterView};
use crate::group::{before, same_key};
use crate::key::IndexKey;
use crate::lanes::{candidate, emitted, key_of, lemma_key_uid_live, lemma_merged_candidates, lemma_merged_sound_strict, lemma_plan_lanes_live, lemma_plan_lanes_strict, sound_plan, takes};
use crate::model::{entries, entry_time, has_entry, scannable, Table};
use crate::order::{has, merged};
use crate::plan::{chosen};
use crate::query::{accepts, plan_lanes, Merge};
use crate::scanner::ScanView;
use crate::store::Store;
use crate::tree::Pair;

verus! {

/// The event carries every word that the filter asks for.
pub open spec fn words_match(want: Option<Seq<Seq<u8>>>, e: EventView) -> bool {
    want matches Some(ws) ==> forall|i: int|
        0 <= i < ws.len() ==> (e.words matches Some(have) && have.contains(#[trigger] ws[i]))
}

/// The event matches the filter.
pub open spec fn matches(f: FilterView, e: EventView) -> bool {
    record_matches(f, e.index) && words_match(f.words, e)
}

/// The scan takes one of the entries that table `t` holds for an event.
pub open spec fn lane_takes(sc: ScanView, t: Table, uid: u64, e: EventView, compress: bool) -> bool {
    exists|p: Pair| #[trigger] entries(t, uid, e, compress).contains(p) && emitted(sc, p)
}

/// The scans of a plan make an event a candidate.
pub open spec fn event_candidate(
    plan: Seq<ScanView>,
    and: bool,
    t: Table,
    uid: u64,
    e: EventView,
    compress: bool,
) -> bool {
    if and {
        forall|l: int| 0 <= l < plan.len() ==> lane_takes(#[trigger] plan[l], t, uid, e, compress)
    } else {
        exists|l: int| 0 <= l < plan.len() && lane_takes(#[trigger] plan[l], t, uid, e, compress)
    }
}

/// A scan takes an entry of a table for an event and a time exactly if the
/// event is live, the time is the time of its entries in that table, and
/// the scan takes one of those entries.
pub proof fn lemma_takes(store: &Store, t: Table, sc: ScanView, k: IndexKey)
    requires
        store.wf(),
        scannable(t),
    ensures
        takes(store.table(t)@, sc, k) <==> (store@.live.contains_key(k.uid) && k.time == entry_time(
            t,
            store@.live[k.uid],
        ) && lane_takes(sc, t, k.uid, store@.live[k.uid], store@.compress)),
{
    let tree = store.table(t)@;
    let live = store@.live;
    let c = store@.compress;
    store.lemma_wf();
    store.lemma_table_wf(t);
    if takes(tree, sc, k) {
        let i = choose|i: int|
            0 <= i < tree.len() && emitted(sc, #[trigger] tree[i]) && same_key(key_of(tree[i]), k);
        lemma_key_uid_live(store, t, i);
        assert(entries(t, k.uid, live[k.uid], c).contains(tree[i]));
    }
    if live.contains_key(k.uid) && k.time == entry_time(t, live[k.uid]) && lane_takes(
        sc,
        t,
        k.uid,
        live[k.uid],
        c,
    ) {
        let p = choose|p: Pair| #[trigger]
            entries(t, k.uid, live[k.uid], c).contains(p) && emitted(sc, p);
        assert(has_entry(t, live, c, k.uid, p));
        assert(store.table(t).pairs().contains(p));
        let i = choose|i: int| 0 <= i < tree.len() && tree[i] == p;
        lemma_key_uid_live(store, t, i);
        crate::model::lemma_entry_form(t, k.uid, live[k.uid], c, p);
        lemma_be64_roundtrip(k.uid);
        assert(p.1.subrange(0, 8) =~= be64(k.uid));
        assert(key_of(p).uid == k.uid);
        assert(emitted(sc, tree[i]) && same_key(key_of(tree[i]), k));
    }
}

/// The scans of a plan take entries for an event and a time exactly if the
/// event is live, the time is the time of its entries, and the plan makes
/// the event a candidate.
pub proof fn lemma_candidate(store: &Store, t: Table, plan: Seq<ScanView>, and: bool, k: IndexKey)
    requires
        store.wf(),
        scannable(t),
        and ==> plan.len() > 0,
    ensures
        candidate(store.table(t)@, plan, and, k) <==> (store@.live.contains_key(k.uid) && k.time
            == entry_time(t, store@.live[k.uid]) && event_candidate(
            plan,
            and,
            t,
            k.uid,
            store@.live[k.uid],
            store@.compress,
        )),
{
    let tree = store.table(t)@;
    let live = store@.live;
    let c = store@.compress;
    assert forall|l: int| 0 <= l < plan.len() implies (takes(tree, #[trigger] plan[l], k) <==> (
    live.contains_key(k.uid) && k.time == entry_time(t, live[k.uid]) && lane_takes(
        plan[l],
        t,
        k.uid,
        live[k.uid],
        c,
    ))) by {
        lemma_takes(store, t, plan[l], k);
    }
    if and {
        if candidate(tree, plan, and, k) {
            assert(takes(tree, plan[0], k));
            assert forall|l: int| 0 <= l < plan.len() implies lane_takes(
                #[trigger] plan[l],
                t,
                k.uid,
                live[k.uid],
                c,
            ) by {
                assert(takes(tree, plan[l], k));
            }
        }
    } else {
        if candidate(tree, plan, and, k) {
            let l = choose|l: int| 0 <= l < plan.len() && takes(tree, #[trigger] plan[l], k);
            assert(lane_takes(plan[l], t, k.uid, live[k.uid], c));
        }
        if event_candidate(plan, and, t, k.uid, live[k.uid], c) && live.contains_key(k.uid)
            && k.time == entry_time(t, live[k.uid]) {
            let l = choose|l: int|
                0 <= l < plan.len() && lane_takes(#[trigger] plan[l], t, k.uid, live[k.uid], c);
            assert(takes(tree, plan[l], k));
        }
    }
}

/// What the plan for a filter makes a candidate and lets pass is what
/// matches the filter.
pub open spec fn agrees(store: &Store, f: FilterView) -> bool {
    forall|uid: u64| #[trigger]
        store@.live.contains_key(uid) ==> ((event_candidate(
            chosen(f).plan,
            chosen(f).and,
            chosen(f).table,
            uid,
            store@.live[uid],
            store@.compress,
        ) && accepts(chosen(f).match_index, f, store@.live[uid].index)) <==> matches(
            f,
            store@.live[uid],
        ))
}

/// How the scans for a filter are merged.
pub open spec fn merge_of(f: FilterView) -> Merge {
    Merge { reverse: f.desc, and: chosen(f).and, dedup: chosen(f).dedup }
}

/// The lanes that a query for a filter starts with.
pub open spec fn lanes_of(store: &Store, f: FilterView) -> Seq<Seq<crate::group::Item>> {
    plan_lanes(store.table(chosen(f).table)@, chosen(f).plan)
}

/// The candidates that a query for a filter picks, in the order in which it
/// yields their payloads.
pub open spec fn answer(store: &Store, f: FilterView) -> Seq<IndexKey> {
    picked(
        merged(lanes_of(store, f), f.desc, chosen(f).and, chosen(f).dedup),
        store@.live,
        f,
        chosen(f).match_index,
        0,
    )
}

/// A query that was opened for a filter yields, pull after pull, what
/// `results` says of the lanes that the plan for the filter starts with.
pub proof fn lemma_opened(store: &Store, f: FilterView, it: &crate::query::Iter)
    requires
        it.answers(
            store,
            f,
            chosen(f).table,
            chosen(f).plan,
            chosen(f).and,
            chosen(f).dedup,
            chosen(f).match_index,
        ),
    ensures
        it.pending() == results(
            lanes_of(store, f),
            merge_of(f),
            store@.live,
            store@.compress,
            f,
            chosen(f).match_index,
            0,
        ),
{
}

/// The key under which an event comes in a merged stream.
pub open spec fn event_key(uid: u64, e: EventView) -> IndexKey {
    IndexKey { time: e.index.created_at, uid, kind: None }
}

/// A query answers with the events that match its filter, ordered by
/// creation time and identifier in the direction of the filter, and cut at
/// its limit.
///
/// What the query yields, pull after pull, is the stored payloads of
/// `answer`. The events of `answer` come strictly in order; each is live,
/// stands with its creation time and matches the filter; they are no more
/// than the limit; and a live event that matches the filter is among them
/// unless the limit was met by events that all come before it.
///
/// This holds where the plan for the filter is sound and agrees with the
/// filter, which the lemmas on the single plans establish.
pub proof fn lemma_query_answers(store: &Store, f: FilterView, uid: u64)
    requires
        store.wf(),
        !(chosen(f).table is Expiration),
        sound_plan(store, chosen(f).table, chosen(f).plan, merge_of(f)),
        agrees(store, f),
    ensures
        results(
            lanes_of(store, f),
            merge_of(f),
            store@.live,
            store@.compress,
            f,
            chosen(f).match_index,
            0,
        ) == payloads(answer(store, f), store@.live, store@.compress),
        keys_strict(answer(store, f), f.desc),
        f.limit matches Some(l) ==> answer(store, f).len() <= l,
        forall|i: int|
            0 <= i < answer(store, f).len() ==> {
                let k = #[trigger] answer(store, f)[i];
                &&& store@.live.contains_key(k.uid)
                &&& k.time == store@.live[k.uid].index.created_at
                &&& matches(f, store@.live[k.uid])
            },
        store@.live.contains_key(uid) && matches(f, store@.live[uid]) ==> (exists|i: int|
            0 <= i < answer(store, f).len() && (#[trigger] answer(store, f)[i]).uid == uid) || (
        limit_hit(f.limit, answer(store, f).len() as int) && forall|i: int|
            0 <= i < answer(store, f).len() ==> before(
                #[trigger] answer(store, f)[i],
                event_key(uid, store@.live[uid]),
                f.desc,
            )),
{
    let ch = chosen(f);
    let t = ch.table;
    let g = merge_of(f);
    let tree = store.table(t)@;
    let live = store@.live;
    let c = store@.compress;
    let lanes = lanes_of(store, f);
    let cands = merged(lanes, g.reverse, g.and, g.dedup);
    let keys = answer(store, f);
    lemma_plan_lanes_strict(store, t, ch.plan, g.reverse);
    crate::order::lemma_strict_is_ordered(lanes, g.reverse);
    lemma_plan_lanes_live(store, t, ch.plan);
    lemma_results_picked(lanes, g, live, c, f, ch.match_index, 0);
    lemma_merged_sound_strict(store, t, ch.plan, g);
    lemma_picked(cands, live, f, ch.match_index, 0, g.reverse);
    assert forall|i: int| 0 <= i < keys.len() implies {
        let k = #[trigger] keys[i];
        &&& live.contains_key(k.uid)
        &&& k.time == live[k.uid].index.created_at
        &&& matches(f, live[k.uid])
    } by {
        let k = keys[i];
        let j = choose|j: int| 0 <= j < cands.len() && #[trigger] cands[j] == Ok::<IndexKey, Error>(k);
        assert(cands[j] is Ok);
        assert(has(cands, k));
        lemma_merged_candidates(store, t, ch.plan, g, k);
        lemma_candidate(store, t, ch.plan, g.and, k);
    }
    if live.contains_key(uid) && matches(f, live[uid]) {
        let k = event_key(uid, live[uid]);
        lemma_candidate(store, t, ch.plan, g.and, k);
        lemma_merged_candidates(store, t, ch.plan, g, k);
        assert(has(cands, k));
        let j = choose|j: int|
            0 <= j < cands.len() && (#[trigger] cands[j]) is Ok && same_key(cands[j]->Ok_0, k);
        let kj = cands[j]->Ok_0;
        assert(passes(live, f, ch.match_index, kj));
        if among(keys, kj) {
            let i = choose|i: int| 0 <= i < keys.len() && #[trigger] keys[i] == kj;
            assert(keys[i].uid == uid);
        } else {
            assert forall|i: int| 0 <= i < keys.len() implies before(
                #[trigger] keys[i],
                k,
                f.desc,
            ) by {
                assert(before(keys[i], kj, g.reverse));
            }
        }
    }
}

/// The filter asks for a window of time and nothing else.
pub open spec fn by_time(f: FilterView) -> bool {
    f.words is None && f.ids is None && f.tags.len() == 0 && f.authors is None && f.kinds is None
}

/// The plan by time is sound and agrees with its filter.
pub proof fn lemma_time_plan(store: &Store, f: FilterView)
    requires
        store.wf(),
        by_time(f),
    ensures
        chosen(f).table is Time,
        sound_plan(store, chosen(f).table, chosen(f).plan, merge_of(f)),
        agrees(store, f),
{
    let ch = chosen(f);
    let t = Table::Time;
    let sc = ch.plan[0];
    let tree = store.table(t)@;
    let live = store@.live;
    let c = store@.compress;
    let lanes = plan_lanes(tree, ch.plan);
    store.lemma_wf();
    store.lemma_table_wf(t);
    crate::lanes::lemma_tight_fixed(store, t, sc);
    // the walk passes every entry
    let edge = crate::scanner::start_edge(tree, sc.prefix, sc.reverse);
    crate::tree::lemma_ranks(tree, sc.prefix);
    crate::bytes::lemma_upper_form(sc.prefix);
    lemma_be64_roundtrip(u64::MAX);
    lemma_be64_roundtrip(0);
    if f.desc {
        assert(forall|i: int| 0 <= i < 8 ==> be64(u64::MAX)[i] == 255u8);
        assert(crate::bytes::upper_spec(sc.prefix) is None);
    }
    assert forall|i: int| 0 <= i < tree.len() && emitted(sc, #[trigger] tree[i]) implies if sc.reverse {
        i < edge
    } else {
        i >= edge
    } by {
        lemma_key_uid_live(store, t, i);
        let u = key_of(tree[i]).uid;
        crate::model::lemma_entry_form(t, u, live[u], c, tree[i]);
        let at = live[u].index.created_at;
        assert(tree[i].0 =~= be64(at));
        crate::bytes::lemma_be64_order(at, 0);
        if sc.reverse {
        } else {
            if i < edge {
                assert(lex_lt(tree[i].0, sc.prefix));
            }
        }
    }
    assert(crate::order::lanes_apart(lanes));
    // the scan takes the entry of an event exactly if its time is in the window
    assert forall|uid: u64| #[trigger] live.contains_key(uid) implies ((event_candidate(
        ch.plan,
        ch.and,
        t,
        uid,
        live[uid],
        c,
    ) && accepts(ch.match_index, f, live[uid].index)) <==> matches(f, live[uid])) by {
        let e = live[uid];
        let p: Pair = (crate::key::time_key(e.index.created_at), be64(uid));
        lemma_be64_roundtrip(uid);
        lemma_be64_roundtrip(e.index.created_at);
        assert(entries(t, uid, e, c).contains(p));
        assert(p.0.subrange(p.0.len() - 8, p.0.len() as int) =~= be64(e.index.created_at));
        if matches(f, e) {
            assert(emitted(sc, p));
            assert(lane_takes(ch.plan[0], t, uid, e, c));
        }
        if event_candidate(ch.plan, ch.and, t, uid, e, c) {
            let l = choose|l: int| 0 <= l < ch.plan.len() && lane_takes(#[trigger] ch.plan[l], t, uid, e, c);
            let q = choose|q: Pair| #[trigger] entries(t, uid, e, c).contains(q) && emitted(sc, q);
            assert(q == p);
            assert(crate::filter::tags_match(f.tags, e.index.tags));
        }
    }
}

/// No number comes twice in the list.
pub open spec fn distinct(l: Seq<u64>) -> bool {
    forall|a: int, b: int| 0 <= a < b < l.len() ==> #[trigger] l[a] != #[trigger] l[b]
}

/// The filter asks for kinds and a window of time and nothing else.
pub open spec fn by_kind(f: FilterView) -> bool {
    f.words is None && f.ids is None && f.tags.len() == 0 && f.authors is None && f.kinds is Some
}

/// The scan for one kind takes the entry of an event exactly if the event
/// is of that kind and its time is in the window.
proof fn lemma_kind_scan(f: FilterView, kind: u64, uid: u64, e: EventView, compress: bool)
    ensures
        lane_takes(
            crate::plan::base(
                f,
                Seq::empty(),
                be64(kind),
                crate::scanner::MatcherView::Prefix,
            ),
            Table::Kind,
            uid,
            e,
            compress,
        ) <==> (e.index.kind == kind && crate::filter::time_matches(
            f.since,
            f.until,
            e.index.created_at,
        )),
{
    let sc = crate::plan::base(f, Seq::empty(), be64(kind), crate::scanner::MatcherView::Prefix);
    let at = e.index.created_at;
    let p: Pair = (crate::key::kind_key(e.index.kind, at), be64(uid));
    lemma_be64_roundtrip(uid);
    lemma_be64_roundtrip(at);
    lemma_be64_roundtrip(kind);
    lemma_be64_roundtrip(e.index.kind);
    crate::bytes::lemma_be64_injective(kind, e.index.kind);
    assert(entries(Table::Kind, uid, e, compress).contains(p));
    assert(p.0.subrange(p.0.len() - 8, p.0.len() as int) =~= be64(at));
    assert(p.0.subrange(0, 8) =~= be64(e.index.kind));
    if lane_takes(sc, Table::Kind, uid, e, compress) {
        let q = choose|q: Pair| #[trigger]
            entries(Table::Kind, uid, e, compress).contains(q) && emitted(sc, q);
        assert(q == p);
    }
    if e.index.kind == kind && crate::filter::time_matches(f.since, f.until, at) {
        assert(emitted(sc, p));
    }
}

/// The plan by kind is sound and agrees with its filter, where the filter
/// names no kind twice.
pub proof fn lemma_kind_plan(store: &Store, f: FilterView)
    requires
        store.wf(),
        by_kind(f),
        distinct(f.kinds.unwrap()),
    ensures
        chosen(f).table is Kind,
        sound_plan(store, chosen(f).table, chosen(f).plan, merge_of(f)),
        agrees(store, f),
{
    let ch = chosen(f);
    let t = Table::Kind;
    let kinds = f.kinds.unwrap();
    let tree = store.table(t)@;
    let live = store@.live;
    let c = store@.compress;
    let lanes = plan_lanes(tree, ch.plan);
    store.lemma_wf();
    store.lemma_table_wf(t);
    crate::lanes::lemma_chosen_pinned(f);
    assert forall|i: int| 0 <= i < ch.plan.len() implies crate::lanes::tight(
        tree,
        #[trigger] ch.plan[i],
    ) && crate::lanes::reachable(tree, ch.plan[i]) by {
        crate::lanes::lemma_tight_fixed(store, t, ch.plan[i]);
        crate::lanes::lemma_reachable_prefix(tree, ch.plan[i]);
    }
    // no event is of two kinds
    assert forall|a: int, b: int, k: IndexKey|
        0 <= a < lanes.len() && 0 <= b < lanes.len() && a != b && #[trigger] has(
            lanes[a],
            k,
        ) implies !#[trigger] has(lanes[b], k) by {
        crate::lanes::lemma_lane_takes(store, t, ch.plan[a], k);
        crate::lanes::lemma_lane_takes(store, t, ch.plan[b], k);
        lemma_takes(store, t, ch.plan[a], k);
        lemma_takes(store, t, ch.plan[b], k);
        if has(lanes[b], k) {
            lemma_kind_scan(f, kinds[a], k.uid, live[k.uid], c);
            lemma_kind_scan(f, kinds[b], k.uid, live[k.uid], c);
            if a < b {
                assert(kinds[a] != kinds[b]);
            } else {
                assert(kinds[b] != kinds[a]);
            }
        }
    }
    assert forall|uid: u64| #[trigger] live.contains_key(uid) implies ((event_candidate(
        ch.plan,
        ch.and,
        t,
        uid,
        live[uid],
        c,
    ) && accepts(ch.match_index, f, live[uid].index)) <==> matches(f, live[uid])) by {
        let e = live[uid];
        assert forall|l: int| 0 <= l < ch.plan.len() implies (lane_takes(
            #[trigger] ch.plan[l],
            t,
            uid,
            e,
            c,
        ) <==> (e.index.kind == kinds[l] && crate::filter::time_matches(
            f.since,
            f.until,
            e.index.created_at,
        ))) by {
            lemma_kind_scan(f, kinds[l], uid, e, c);
        }
        if matches(f, e) {
            let l = choose|l: int| 0 <= l < kinds.len() && kinds[l] == e.index.kind;
            assert(lane_takes(ch.plan[l], t, uid, e, c));
        }
        if event_candidate(ch.plan, ch.and, t, uid, e, c) {
            let l = choose|l: int|
                0 <= l < ch.plan.len() && lane_takes(#[trigger] ch.plan[l], t, uid, e, c);
            assert(kinds[l] == e.index.kind);
            assert(crate::filter::tags_match(f.tags, e.index.tags));
        }
    }
}

/// Every text of the list spells 32 bytes in hexadecimal.
pub open spec fn whole(texts: Seq<Seq<u8>>) -> bool {
    forall|i: int|
        0 <= i < texts.len() ==> (#[trigger] texts[i]).len() == 64 && crate::hexcodec::hex_valid(
            texts[i],
        )
}

/// No two texts of the list spell the same bytes.
pub open spec fn spell_apart(texts: Seq<Seq<u8>>) -> bool {
    forall|a: int, b: int|
        0 <= a < b < texts.len() ==> crate::hexcodec::hex_decoded(#[trigger] texts[a])
            != crate::hexcodec::hex_decoded(#[trigger] texts[b])
}

/// A text that spells 32 bytes stands for the keys that are those bytes.
proof fn lemma_whole_prefix(text: Seq<u8>, key: Seq<u8>, desc: bool)
    requires
        text.len() == 64,
        crate::hexcodec::hex_valid(text),
        key.len() == 32,
    ensures
        crate::plan::padded(text, desc) == text,
        crate::hexcodec::hex_decoded(text).len() == 32,
        crate::filter::prefix_matches(text, key) <==> key == crate::hexcodec::hex_decoded(text),
{
    let d = crate::hexcodec::hex_decoded(text);
    if crate::bytes::starts_with(key, d) {
        assert(key.subrange(0, 32) =~= key);
    }
    if key == d {
        assert(key.subrange(0, 32) =~= key);
    }
}

/// The scan for a whole id takes the entry of an event exactly if the
/// event has that id and its time is in the window.
proof fn lemma_id_scan(f: FilterView, text: Seq<u8>, uid: u64, e: EventView, compress: bool)
    requires
        text.len() == 64,
        crate::hexcodec::hex_valid(text),
        crate::model::well_shaped(e.index),
    ensures
        lane_takes(crate::plan::prefix_scan(f, text), Table::Id, uid, e, compress) <==> (
        crate::filter::prefix_matches(text, e.index.id) && crate::filter::time_matches(
            f.since,
            f.until,
            e.index.created_at,
        )),
{
    let sc = crate::plan::prefix_scan(f, text);
    let at = e.index.created_at;
    let p: Pair = (crate::key::id_key(e.index.id, at), be64(uid));
    lemma_whole_prefix(text, e.index.id, f.desc);
    lemma_be64_roundtrip(uid);
    lemma_be64_roundtrip(at);
    assert(entries(Table::Id, uid, e, compress).contains(p));
    assert(p.0.subrange(p.0.len() - 8, p.0.len() as int) =~= be64(at));
    assert(p.0.subrange(0, 32) =~= e.index.id);
    if lane_takes(sc, Table::Id, uid, e, compress) {
        let q = choose|q: Pair| #[trigger]
            entries(Table::Id, uid, e, compress).contains(q) && emitted(sc, q);
        assert(q == p);
    }
    if crate::filter::prefix_matches(text, e.index.id) && crate::filter::time_matches(
        f.since,
        f.until,
        at,
    ) {
        assert(emitted(sc, p));
    }
}

/// The scan for a whole public key takes an entry of an event exactly if
/// the event was signed or delegated by that key and its time is in the
/// window.
proof fn lemma_author_scan(f: FilterView, text: Seq<u8>, uid: u64, e: EventView, compress: bool)
    requires
        text.len() == 64,
        crate::hexcodec::hex_valid(text),
        crate::model::well_shaped(e.index),
    ensures
        lane_takes(crate::plan::prefix_scan(f, text), Table::Pubkey, uid, e, compress) <==> ((
        crate::filter::prefix_matches(text, e.index.pubkey) || (e.index.delegator matches Some(d)
            && crate::filter::prefix_matches(text, d))) && crate::filter::time_matches(
            f.since,
            f.until,
            e.index.created_at,
        )),
{
    let sc = crate::plan::prefix_scan(f, text);
    let at = e.index.created_at;
    let p: Pair = (crate::key::pubkey_key(e.index.pubkey, at), be64(uid));
    lemma_whole_prefix(text, e.index.pubkey, f.desc);
    lemma_be64_roundtrip(uid);
    lemma_be64_roundtrip(at);
    assert(entries(Table::Pubkey, uid, e, compress).contains(p));
    assert(p.0.subrange(p.0.len() - 8, p.0.len() as int) =~= be64(at));
    assert(p.0.subrange(0, 32) =~= e.index.pubkey);
    let in_window = crate::filter::time_matches(f.since, f.until, at);
    match e.index.delegator {
        Some(d) => {
            let pd: Pair = (crate::key::pubkey_key(d, at), be64(uid));
            lemma_whole_prefix(text, d, f.desc);
            assert(entries(Table::Pubkey, uid, e, compress).contains(pd));
            assert(pd.0.subrange(pd.0.len() - 8, pd.0.len() as int) =~= be64(at));
            assert(pd.0.subrange(0, 32) =~= d);
            if lane_takes(sc, Table::Pubkey, uid, e, compress) {
                let q = choose|q: Pair| #[trigger]
                    entries(Table::Pubkey, uid, e, compress).contains(q) && emitted(sc, q);
                assert(q == p || q == pd);
            }
            if in_window && crate::filter::prefix_matches(text, e.index.pubkey) {
                assert(emitted(sc, p));
            }
            if in_window && crate::filter::prefix_matches(text, d) {
                assert(emitted(sc, pd));
            }
        },
        None => {
            if lane_takes(sc, Table::Pubkey, uid, e, compress) {
                let q = choose|q: Pair| #[trigger]
                    entries(Table::Pubkey, uid, e, compress).contains(q) && emitted(sc, q);
                assert(q == p);
            }
            if in_window && crate::filter::prefix_matches(text, e.index.pubkey) {
                assert(emitted(sc, p));
            }
        },
    }
}

/// The filter asks for ids, and maybe for more, but for no words.
pub open spec fn by_id(f: FilterView) -> bool {
    f.words is None && f.ids is Some
}

/// The plan by id is sound and agrees with its filter, where the ids are
/// whole ids in hexadecimal of which no two spell the same.
pub proof fn lemma_id_plan(store: &Store, f: FilterView)
    requires
        store.wf(),
        by_id(f),
        whole(f.ids.unwrap()),
        spell_apart(f.ids.unwrap()),
    ensures
        chosen(f).table is Id,
        !crate::plan::plan_fails(f),
        sound_plan(store, chosen(f).table, chosen(f).plan, merge_of(f)),
        agrees(store, f),
{
    let ch = chosen(f);
    let t = Table::Id;
    let ids = f.ids.unwrap();
    let tree = store.table(t)@;
    let live = store@.live;
    let c = store@.compress;
    let lanes = plan_lanes(tree, ch.plan);
    store.lemma_wf();
    store.lemma_table_wf(t);
    assert forall|i: int| 0 <= i < ids.len() implies crate::hexcodec::hex_valid(
        crate::plan::padded(#[trigger] ids[i], f.desc),
    ) by {
        lemma_whole_prefix(ids[i], Seq::new(32, |x: int| 0u8), f.desc);
    }
    crate::lanes::lemma_chosen_pinned(f);
    assert forall|i: int| 0 <= i < ch.plan.len() implies crate::lanes::tight(
        tree,
        #[trigger] ch.plan[i],
    ) && crate::lanes::reachable(tree, ch.plan[i]) by {
        crate::lanes::lemma_tight_fixed(store, t, ch.plan[i]);
        crate::lanes::lemma_reachable_prefix(tree, ch.plan[i]);
    }
    assert forall|a: int, b: int, k: IndexKey|
        0 <= a < lanes.len() && 0 <= b < lanes.len() && a != b && #[trigger] has(
            lanes[a],
            k,
        ) implies !#[trigger] has(lanes[b], k) by {
        crate::lanes::lemma_lane_takes(store, t, ch.plan[a], k);
        crate::lanes::lemma_lane_takes(store, t, ch.plan[b], k);
        lemma_takes(store, t, ch.plan[a], k);
        lemma_takes(store, t, ch.plan[b], k);
        if has(lanes[b], k) {
            let e = live[k.uid];
            lemma_id_scan(f, ids[a], k.uid, e, c);
            lemma_id_scan(f, ids[b], k.uid, e, c);
            lemma_whole_prefix(ids[a], e.index.id, f.desc);
            lemma_whole_prefix(ids[b], e.index.id, f.desc);
            if a < b {
                assert(crate::hexcodec::hex_decoded(ids[a]) != crate::hexcodec::hex_decoded(ids[b]));
            } else {
                assert(crate::hexcodec::hex_decoded(ids[b]) != crate::hexcodec::hex_decoded(ids[a]));
            }
        }
    }
    assert forall|uid: u64| #[trigger] live.contains_key(uid) implies ((event_candidate(
        ch.plan,
        ch.and,
        t,
        uid,
        live[uid],
        c,
    ) && accepts(ch.match_index, f, live[uid].index)) <==> matches(f, live[uid])) by {
        let e = live[uid];
        assert forall|l: int| 0 <= l < ch.plan.len() implies (lane_takes(
            #[trigger] ch.plan[l],
            t,
            uid,
            e,
            c,
        ) <==> (crate::filter::prefix_matches(ids[l], e.index.id) && crate::filter::time_matches(
            f.since,
            f.until,
            e.index.created_at,
        ))) by {
            lemma_id_scan(f, ids[l], uid, e, c);
        }
        if matches(f, e) {
            let l = choose|l: int|
                0 <= l < ids.len() && crate::filter::prefix_matches(#[trigger] ids[l], e.index.id);
            assert(lane_takes(ch.plan[l], t, uid, e, c));
        }
        if event_candidate(ch.plan, ch.and, t, uid, e, c) {
            let l = choose|l: int|
                0 <= l < ch.plan.len() && lane_takes(#[trigger] ch.plan[l], t, uid, e, c);
            assert(crate::filter::prefix_matches(ids[l], e.index.id));
            if ch.match_index is Off {
                assert(crate::filter::tags_match(f.tags, e.index.tags));
            }
        }
    }
}

/// The filter asks for authors and a window of time and nothing else.
pub open spec fn by_author(f: FilterView) -> bool {
    f.words is None && f.ids is None && f.tags.len() == 0 && f.authors is Some && f.kinds is None
}

/// The plan by author is sound and agrees with its filter, where the
/// authors are whole public keys in hexadecimal and no event comes from two
/// scans, as one would that was signed by one author of the filter and
/// delegated by another.
pub proof fn lemma_author_plan(store: &Store, f: FilterView)
    requires
        store.wf(),
        by_author(f),
        whole(f.authors.unwrap()),
        crate::order::lanes_apart(lanes_of(store, f)),
    ensures
        chosen(f).table is Pubkey,
        !crate::plan::plan_fails(f),
        sound_plan(store, chosen(f).table, chosen(f).plan, merge_of(f)),
        agrees(store, f),
{
    let ch = chosen(f);
    let t = Table::Pubkey;
    let authors = f.authors.unwrap();
    let tree = store.table(t)@;
    let live = store@.live;
    let c = store@.compress;
    store.lemma_wf();
    store.lemma_table_wf(t);
    assert forall|i: int| 0 <= i < authors.len() implies crate::hexcodec::hex_valid(
        crate::plan::padded(#[trigger] authors[i], f.desc),
    ) by {
        lemma_whole_prefix(authors[i], Seq::new(32, |x: int| 0u8), f.desc);
    }
    crate::lanes::lemma_chosen_pinned(f);
    assert forall|i: int| 0 <= i < ch.plan.len() implies crate::lanes::tight(
        tree,
        #[trigger] ch.plan[i],
    ) && crate::lanes::reachable(tree, ch.plan[i]) by {
        crate::lanes::lemma_tight_fixed(store, t, ch.plan[i]);
        crate::lanes::lemma_reachable_prefix(tree, ch.plan[i]);
    }
    assert forall|uid: u64| #[trigger] live.contains_key(uid) implies ((event_candidate(
        ch.plan,
        ch.and,
        t,
        uid,
        live[uid],
        c,
    ) && accepts(ch.match_index, f, live[uid].index)) <==> matches(f, live[uid])) by {
        let e = live[uid];
        let x = e.index;
        let in_window = crate::filter::time_matches(f.since, f.until, x.created_at);
        assert forall|l: int| 0 <= l < ch.plan.len() implies (lane_takes(
            #[trigger] ch.plan[l],
            t,
            uid,
            e,
            c,
        ) <==> ((crate::filter::prefix_matches(authors[l], x.pubkey) || (x.delegator matches Some(
            d,
        ) && crate::filter::prefix_matches(authors[l], d))) && in_window)) by {
            lemma_author_scan(f, authors[l], uid, e, c);
        }
        if matches(f, e) {
            if crate::filter::any_prefix_matches(authors, x.pubkey) {
                let l = choose|l: int|
                    0 <= l < authors.len() && crate::filter::prefix_matches(
                        #[trigger] authors[l],
                        x.pubkey,
                    );
                assert(lane_takes(ch.plan[l], t, uid, e, c));
            } else {
                let d = x.delegator.unwrap();
                let l = choose|l: int|
                    0 <= l < authors.len() && crate::filter::prefix_matches(#[trigger] authors[l], d);
                assert(lane_takes(ch.plan[l], t, uid, e, c));
            }
        }
        if event_candidate(ch.plan, ch.and, t, uid, e, c) {
            let l = choose|l: int|
                0 <= l < ch.plan.len() && lane_takes(#[trigger] ch.plan[l], t, uid, e, c);
            assert(crate::filter::prefix_matches(authors[l], x.pubkey) || (
            x.delegator matches Some(d) && crate::filter::prefix_matches(authors[l], d)));
            assert(crate::filter::tags_match(f.tags, x.tags));
        }
    }
}

/// The scan for one whole public key and one kind.
pub open spec fn author_kind_scan(f: FilterView, text: Seq<u8>, kind: u64) -> ScanView {
    crate::plan::base(
        f,
        text,
        crate::hexcodec::hex_decoded(crate::plan::padded(text, f.desc)) + be64(kind),
        crate::scanner::MatcherView::Prefix,
    )
}

/// The plan by author and kind has a scan for each of the first `n` authors
/// with each kind.
proof fn lemma_author_kind_len(f: FilterView, n: int)
    requires
        f.authors is Some,
        f.kinds is Some,
        0 <= n <= f.authors.unwrap().len(),
        forall|i: int| 0 <= i < f.authors.unwrap().len() ==> (#[trigger] f.authors.unwrap()[i]).len()
            == 64,
    ensures
        crate::plan::author_kind_plan_upto(f, n).len() == n * f.kinds.unwrap().len(),
    decreases n,
{
    let k = f.kinds.unwrap().len() as int;
    if n > 0 {
        lemma_author_kind_len(f, n - 1);
        assert((n - 1) * k + k == n * k) by (nonlinear_arith);
    } else {
        assert(0 * k == 0) by (nonlinear_arith);
    }
}

/// Scan `l` of the plan by author and kind is the scan for one author with
/// one kind.
proof fn lemma_author_kind_scan_of(f: FilterView, n: int, l: int) -> (r: (int, int))
    requires
        f.authors is Some,
        f.kinds is Some,
        0 <= n <= f.authors.unwrap().len(),
        forall|i: int| 0 <= i < f.authors.unwrap().len() ==> (#[trigger] f.authors.unwrap()[i]).len()
            == 64,
        0 <= l < crate::plan::author_kind_plan_upto(f, n).len(),
    ensures
        0 <= r.0 < n,
        0 <= r.1 < f.kinds.unwrap().len(),
        crate::plan::author_kind_plan_upto(f, n)[l] == author_kind_scan(
            f,
            f.authors.unwrap()[r.0],
            f.kinds.unwrap()[r.1],
        ),
        l == r.0 * f.kinds.unwrap().len() + r.1,
    decreases n,
{
    let authors = f.authors.unwrap();
    let kinds = f.kinds.unwrap();
    let done = crate::plan::author_kind_plan_upto(f, n - 1);
    let more = crate::plan::author_scans(f, authors[n - 1]);
    let all = crate::plan::author_kind_plan_upto(f, n);
    assert(all == done + more);
    lemma_author_kind_len(f, n - 1);
    if l < done.len() {
        assert(all[l] == done[l]);
        lemma_author_kind_scan_of(f, n - 1, l)
    } else {
        let j = l - done.len();
        assert(all[l] == more[j]);
        (n - 1, j)
    }
}

/// The scan for author `a` with kind `j` is a scan of the plan by author
/// and kind.
proof fn lemma_author_kind_index_of(f: FilterView, n: int, a: int, j: int) -> (l: int)
    requires
        f.authors is Some,
        f.kinds is Some,
        0 <= n <= f.authors.unwrap().len(),
        forall|i: int| 0 <= i < f.authors.unwrap().len() ==> (#[trigger] f.authors.unwrap()[i]).len()
            == 64,
        0 <= a < n,
        0 <= j < f.kinds.unwrap().len(),
    ensures
        0 <= l < crate::plan::author_kind_plan_upto(f, n).len(),
        crate::plan::author_kind_plan_upto(f, n)[l] == author_kind_scan(
            f,
            f.authors.unwrap()[a],
            f.kinds.unwrap()[j],
        ),
    decreases n,
{
    let authors = f.authors.unwrap();
    let done = crate::plan::author_kind_plan_upto(f, n - 1);
    let more = crate::plan::author_scans(f, authors[n - 1]);
    let all = crate::plan::author_kind_plan_upto(f, n);
    assert(all == done + more);
    if a < n - 1 {
        let l = lemma_author_kind_index_of(f, n - 1, a, j);
        assert(all[l] == done[l]);
        l
    } else {
        assert(all[done.len() + j] == more[j]);
        done.len() + j
    }
}

/// A key of the index by public key and kind starts with a public key and
/// a kind exactly if it is made of them.
proof fn lemma_pubkey_kind_prefix(pk: Seq<u8>, kind: u64, at: u64, want: Seq<u8>, want_kind: u64)
    requires
        pk.len() == 32,
        want.len() == 32,
    ensures
        crate::bytes::starts_with(crate::key::pubkey_kind_key(pk, kind, at), want + be64(want_kind))
            <==> (pk == want && kind == want_kind),
        crate::key::pubkey_kind_key(pk, kind, at).len() == 48,
        crate::key::pubkey_kind_key(pk, kind, at).subrange(40, 48) == be64(at),
{
    let key = crate::key::pubkey_kind_key(pk, kind, at);
    let pre = want + be64(want_kind);
    lemma_be64_roundtrip(at);
    lemma_be64_roundtrip(kind);
    lemma_be64_roundtrip(want_kind);
    crate::bytes::lemma_be64_injective(kind, want_kind);
    assert(key.subrange(40, 48) =~= be64(at));
    assert(key.subrange(0, 32) =~= pk);
    assert(key.subrange(32, 40) =~= be64(kind));
    assert(pre.subrange(0, 32) =~= want);
    assert(pre.subrange(32, 40) =~= be64(want_kind));
    if crate::bytes::starts_with(key, pre) {
        assert(key.subrange(0, 40).subrange(0, 32) =~= key.subrange(0, 32));
        assert(key.subrange(0, 40).subrange(32, 40) =~= key.subrange(32, 40));
    }
    if pk == want && kind == want_kind {
        assert(key.subrange(0, 40) =~= pre);
    }
}

/// What a scan with a prefix makes of an entry whose key ends in a time and
/// whose value is an identifier: it takes the entry exactly if the key
/// starts with the prefix and the time is in the window.
proof fn lemma_prefix_scan_emits(f: FilterView, text: Seq<u8>, prefix: Seq<u8>, key: Seq<u8>, at: u64, uid: u64)
    requires
        key.len() >= 8,
        key.subrange(key.len() - 8, key.len() as int) == be64(at),
    ensures
        emitted(
            crate::plan::base(f, text, prefix, crate::scanner::MatcherView::Prefix),
            (key, be64(uid)),
        ) <==> (crate::bytes::starts_with(key, prefix) && crate::filter::time_matches(
            f.since,
            f.until,
            at,
        )),
{
    lemma_be64_roundtrip(at);
    lemma_be64_roundtrip(uid);
}

/// The scan for a whole public key and a kind takes an entry of an event
/// exactly if the event was signed or delegated by that key, is of that
/// kind, and its time is in the window.
proof fn lemma_author_kind_scan(
    f: FilterView,
    text: Seq<u8>,
    kind: u64,
    uid: u64,
    e: EventView,
    compress: bool,
)
    requires
        text.len() == 64,
        crate::hexcodec::hex_valid(text),
        crate::model::well_shaped(e.index),
    ensures
        lane_takes(author_kind_scan(f, text, kind), Table::PubkeyKind, uid, e, compress) <==> ((
        crate::filter::prefix_matches(text, e.index.pubkey) || (e.index.delegator matches Some(d)
            && crate::filter::prefix_matches(text, d))) && e.index.kind == kind
            && crate::filter::time_matches(f.since, f.until, e.index.created_at)),
{
    let sc = author_kind_scan(f, text, kind);
    let x = e.index;
    let at = x.created_at;
    let t = Table::PubkeyKind;
    let dec = crate::hexcodec::hex_decoded(text);
    let p: Pair = (crate::key::pubkey_kind_key(x.pubkey, x.kind, at), be64(uid));
    lemma_whole_prefix(text, x.pubkey, f.desc);
    lemma_pubkey_kind_prefix(x.pubkey, x.kind, at, dec, kind);
    lemma_prefix_scan_emits(f, text, dec + be64(kind), p.0, at, uid);
    assert(entries(t, uid, e, compress).contains(p));
    match x.delegator {
        Some(d) => {
            let pd: Pair = (crate::key::pubkey_kind_key(d, x.kind, at), be64(uid));
            lemma_whole_prefix(text, d, f.desc);
            lemma_pubkey_kind_prefix(d, x.kind, at, dec, kind);
            lemma_prefix_scan_emits(f, text, dec + be64(kind), pd.0, at, uid);
            assert(entries(t, uid, e, compress).contains(pd));
            if lane_takes(sc, t, uid, e, compress) {
                let q = choose|q: Pair| #[trigger] entries(t, uid, e, compress).contains(q) && emitted(sc, q);
                assert(q == p || q == pd);
            }
        },
        None => {
            if lane_takes(sc, t, uid, e, compress) {
                let q = choose|q: Pair| #[trigger] entries(t, uid, e, compress).contains(q) && emitted(sc, q);
                assert(q == p);
            }
        },
    }
}

/// The filter asks for authors, kinds and a window of time and nothing
/// else.
pub open spec fn by_author_kind(f: FilterView) -> bool {
    f.words is None && f.ids is None && f.tags.len() == 0 && f.authors is Some && f.kinds is Some
}

/// An event that matches the filter is a candidate of the plan by author
/// and kind.
proof fn lemma_author_kind_complete(f: FilterView, uid: u64, e: EventView, compress: bool)
    requires
        by_author_kind(f),
        whole(f.authors.unwrap()),
        crate::model::well_shaped(e.index),
        matches(f, e),
    ensures
        event_candidate(chosen(f).plan, false, Table::PubkeyKind, uid, e, compress),
{
    let plan = chosen(f).plan;
    let authors = f.authors.unwrap();
    let kinds = f.kinds.unwrap();
    let x = e.index;
    let a = if crate::filter::any_prefix_matches(authors, x.pubkey) {
        choose|a: int|
            0 <= a < authors.len() && crate::filter::prefix_matches(#[trigger] authors[a], x.pubkey)
    } else {
        choose|a: int|
            0 <= a < authors.len() && crate::filter::prefix_matches(
                #[trigger] authors[a],
                x.delegator.unwrap(),
            )
    };
    let j = choose|j: int| 0 <= j < kinds.len() && kinds[j] == x.kind;
    lemma_author_kind_scan(f, authors[a], kinds[j], uid, e, compress);
    let l = lemma_author_kind_index_of(f, authors.len() as int, a, j);
    assert(lane_takes(plan[l], Table::PubkeyKind, uid, e, compress));
}

/// A candidate of the plan by author and kind matches the filter.
proof fn lemma_author_kind_sound(f: FilterView, uid: u64, e: EventView, compress: bool)
    requires
        by_author_kind(f),
        whole(f.authors.unwrap()),
        crate::model::well_shaped(e.index),
        event_candidate(chosen(f).plan, false, Table::PubkeyKind, uid, e, compress),
    ensures
        matches(f, e),
{
    let plan = chosen(f).plan;
    let t = Table::PubkeyKind;
    let authors = f.authors.unwrap();
    let kinds = f.kinds.unwrap();
    let x = e.index;
    let l = choose|l: int| 0 <= l < plan.len() && lane_takes(#[trigger] plan[l], t, uid, e, compress);
    let r = lemma_author_kind_scan_of(f, authors.len() as int, l);
    lemma_author_kind_scan(f, authors[r.0], kinds[r.1], uid, e, compress);
    assert(crate::filter::prefix_matches(authors[r.0], x.pubkey) || (x.delegator matches Some(d)
        && crate::filter::prefix_matches(authors[r.0], d)));
    assert(kinds[r.1] == x.kind);
    assert(kinds.contains(x.kind));
    assert(crate::filter::tags_match(f.tags, x.tags));
    assert(crate::filter::author_matches(f.authors, x.pubkey, x.delegator));
}

/// The plan by author and kind is sound and agrees with its filter, where
/// the authors are whole public keys in hexadecimal and no event comes from
/// two scans.
pub proof fn lemma_author_kind_plan(store: &Store, f: FilterView)
    requires
        store.wf(),
        by_author_kind(f),
        whole(f.authors.unwrap()),
        crate::order::lanes_apart(lanes_of(store, f)),
    ensures
        chosen(f).table is PubkeyKind,
        !crate::plan::plan_fails(f),
        sound_plan(store, chosen(f).table, chosen(f).plan, merge_of(f)),
        agrees(store, f),
{
    let ch = chosen(f);
    let t = Table::PubkeyKind;
    let authors = f.authors.unwrap();
    let tree = store.table(t)@;
    let live = store@.live;
    let c = store@.compress;
    store.lemma_wf();
    store.lemma_table_wf(t);
    assert forall|i: int| 0 <= i < authors.len() implies crate::hexcodec::hex_valid(
        crate::plan::padded(#[trigger] authors[i], f.desc),
    ) by {
        lemma_whole_prefix(authors[i], Seq::new(32, |x: int| 0u8), f.desc);
    }
    crate::lanes::lemma_chosen_pinned(f);
    assert forall|i: int| 0 <= i < ch.plan.len() implies crate::lanes::tight(
        tree,
        #[trigger] ch.plan[i],
    ) && crate::lanes::reachable(tree, ch.plan[i]) by {
        crate::lanes::lemma_tight_fixed(store, t, ch.plan[i]);
        crate::lanes::lemma_reachable_prefix(tree, ch.plan[i]);
    }
    assert forall|uid: u64| #[trigger] live.contains_key(uid) implies ((event_candidate(
        ch.plan,
        ch.and,
        t,
        uid,
        live[uid],
        c,
    ) && accepts(ch.match_index, f, live[uid].index)) <==> matches(f, live[uid])) by {
        if matches(f, live[uid]) {
            lemma_author_kind_complete(f, uid, live[uid], c);
        }
        if event_candidate(ch.plan, false, t, uid, live[uid], c) {
            lemma_author_kind_sound(f, uid, live[uid], c);
        }
    }
}

/// No key of the driving index starts like the key of a scan of the plan
/// and goes on otherwise. A tag or a word with a zero byte in it can break
/// this: its key can start like the key of a shorter one.
pub open spec fn plan_tight(store: &Store, f: FilterView) -> bool {
    forall|l: int|
        0 <= l < chosen(f).plan.len() ==> crate::lanes::tight(
            store.table(chosen(f).table)@,
            #[trigger] chosen(f).plan[l],
        )
}

/// The scan for a word.
pub open spec fn word_scan(f: FilterView, word: Seq<u8>) -> ScanView {
    crate::plan::base(
        f,
        Seq::empty(),
        crate::bytes::sep_spec(word, Seq::empty()),
        crate::scanner::MatcherView::Exact,
    )
}

/// The scan for a word takes an entry of an event exactly if the event
/// carries the word and its time is in the window.
proof fn lemma_word_scan(f: FilterView, word: Seq<u8>, uid: u64, e: EventView, compress: bool)
    ensures
        lane_takes(word_scan(f, word), Table::Word, uid, e, compress) <==> ((e.words matches Some(
            have,
        ) && have.contains(word)) && crate::filter::time_matches(
            f.since,
            f.until,
            e.index.created_at,
        )),
{
    let sc = word_scan(f, word);
    let t = Table::Word;
    let at = e.index.created_at;
    lemma_be64_roundtrip(uid);
    lemma_be64_roundtrip(at);
    let in_window = crate::filter::time_matches(f.since, f.until, at);
    match e.words {
        Some(have) => {
            if lane_takes(sc, t, uid, e, compress) {
                let q = choose|q: Pair| #[trigger] entries(t, uid, e, compress).contains(q) && emitted(sc, q);
                let i = choose|i: int|
                    0 <= i < have.len() && q == (
                        #[trigger] crate::key::word_key(have[i], at),
                        be64(uid),
                    );
                assert(q.0.subrange(q.0.len() - 8, q.0.len() as int) =~= be64(at));
                assert(have[i].len() == word.len());
                assert(have[i] =~= word) by {
                    assert forall|x: int| 0 <= x < word.len() implies have[i][x] == word[x] by {
                        assert(q.0.subrange(0, sc.prefix.len() as int)[x] == q.0[x]);
                        assert(sc.prefix[x] == word[x]);
                    }
                }
            }
            if have.contains(word) && in_window {
                let i = choose|i: int| 0 <= i < have.len() && have[i] == word;
                let p: Pair = (crate::key::word_key(have[i], at), be64(uid));
                assert(crate::model::is_word_entry(have, have.len() as int, at, uid, p));
                assert(entries(t, uid, e, compress).contains(p));
                assert(p.0.subrange(p.0.len() - 8, p.0.len() as int) =~= be64(at));
                assert(p.0.subrange(0, sc.prefix.len() as int) =~= sc.prefix);
                assert(emitted(sc, p));
            }
        },
        None => {
            if lane_takes(sc, t, uid, e, compress) {
                let q = choose|q: Pair| #[trigger] entries(t, uid, e, compress).contains(q) && emitted(sc, q);
            }
        },
    }
}

/// The filter asks for words, and maybe for more.
pub open spec fn by_word(f: FilterView) -> bool {
    f.words matches Some(ws) && ws.len() > 0
}

/// The plan by word is sound and agrees with its filter, where the filter
/// names a word and the keys of the index by word are tight for it.
pub proof fn lemma_word_plan(store: &Store, f: FilterView)
    requires
        store.wf(),
        by_word(f),
        plan_tight(store, f),
    ensures
        chosen(f).table is Word,
        !crate::plan::plan_fails(f),
        sound_plan(store, chosen(f).table, chosen(f).plan, merge_of(f)),
        agrees(store, f),
{
    let ch = chosen(f);
    let t = Table::Word;
    let ws = f.words.unwrap();
    let tree = store.table(t)@;
    let live = store@.live;
    let c = store@.compress;
    store.lemma_wf();
    store.lemma_table_wf(t);
    assert forall|i: int| 0 <= i < ch.plan.len() implies crate::lanes::pinned(
        t,
        #[trigger] ch.plan[i],
    ) && crate::query::fits(t, ch.plan[i].matcher) && ch.plan[i].reverse == f.desc
        && crate::lanes::tight(tree, ch.plan[i]) && crate::lanes::reachable(tree, ch.plan[i]) by {
        crate::lanes::lemma_reachable_prefix(tree, ch.plan[i]);
    }
    assert forall|uid: u64| #[trigger] live.contains_key(uid) implies ((event_candidate(
        ch.plan,
        ch.and,
        t,
        uid,
        live[uid],
        c,
    ) && accepts(ch.match_index, f, live[uid].index)) <==> matches(f, live[uid])) by {
        let e = live[uid];
        let in_window = crate::filter::time_matches(f.since, f.until, e.index.created_at);
        assert forall|l: int| 0 <= l < ch.plan.len() implies (lane_takes(
            #[trigger] ch.plan[l],
            t,
            uid,
            e,
            c,
        ) <==> ((e.words matches Some(have) && have.contains(ws[l])) && in_window)) by {
            lemma_word_scan(f, ws[l], uid, e, c);
        }
        if event_candidate(ch.plan, ch.and, t, uid, e, c) {
            assert(lane_takes(ch.plan[0], t, uid, e, c));
            assert forall|i: int| 0 <= i < ws.len() implies (e.words matches Some(have)
                && have.contains(#[trigger] ws[i])) by {
                assert(lane_takes(ch.plan[i], t, uid, e, c));
            }
            if ch.match_index is Off {
                assert(crate::filter::tags_match(f.tags, e.index.tags));
            }
        }
        if matches(f, e) {
            assert forall|l: int| 0 <= l < ch.plan.len() implies lane_takes(
                #[trigger] ch.plan[l],
                t,
                uid,
                e,
                c,
            ) by {
                assert(e.words matches Some(have) && have.contains(ws[l]));
            }
        }
    }
}

/// A tag name and a tag value as they stand at the start of a key of the
/// index by tag.
pub open spec fn joined(name: Seq<u8>, value: Seq<u8>) -> Seq<u8> {
    crate::bytes::sep_spec(crate::bytes::sep_spec(name, value), Seq::empty())
}

/// The tag `(name, value)` is told apart from every tag of the event by its
/// bytes at the start of a key: no other tag of the event gives the same
/// bytes. A zero byte in a tag name can break this.
pub open spec fn tag_apart(e: EventView, name: Seq<u8>, value: Seq<u8>) -> bool {
    forall|i: int|
        0 <= i < e.index.tags.len() && joined(
            (#[trigger] e.index.tags[i]).0,
            e.index.tags[i].1,
        ) == joined(name, value) ==> e.index.tags[i] == (name, value)
}

/// Every tag that the filter asks for is told apart from the tags of every
/// live event.
pub open spec fn tags_apart(store: &Store, f: FilterView) -> bool {
    forall|uid: u64, n: int, j: int|
        store@.live.contains_key(uid) && 0 <= n < f.tags.len() && 0 <= j < f.tags[n].1.len()
            ==> #[trigger] tag_apart(store@.live[uid], f.tags[n].0, #[trigger] f.tags[n].1[j])
}

/// Names without a zero byte tell tags apart.
pub proof fn lemma_names_tell_apart(e: EventView, name: Seq<u8>, value: Seq<u8>)
    requires
        !name.contains(0u8),
        forall|i: int| 0 <= i < e.index.tags.len() ==> !(#[trigger] e.index.tags[i]).0.contains(0u8),
    ensures
        tag_apart(e, name, value),
{
    assert forall|i: int|
        0 <= i < e.index.tags.len() && joined((#[trigger] e.index.tags[i]).0, e.index.tags[i].1)
            == joined(name, value) implies e.index.tags[i] == (name, value) by {
        let n = e.index.tags[i].0;
        let v = e.index.tags[i].1;
        let a = joined(n, v);
        let b = joined(name, value);
        assert(a.len() == n.len() + v.len() + 2);
        assert(b.len() == name.len() + value.len() + 2);
        // the first zero byte ends the name
        if n.len() < name.len() {
            assert(a[n.len() as int] == 0u8);
            assert(b[n.len() as int] == name[n.len() as int]);
            assert(name.contains(0u8));
        } else if name.len() < n.len() {
            assert(b[name.len() as int] == 0u8);
            assert(a[name.len() as int] == n[name.len() as int]);
            assert(n.contains(0u8));
        }
        assert(n =~= name) by {
            assert forall|x: int| 0 <= x < n.len() implies n[x] == name[x] by {
                assert(a[x] == n[x] && b[x] == name[x]);
            }
        }
        assert(v =~= value) by {
            assert forall|x: int| 0 <= x < v.len() implies v[x] == value[x] by {
                assert(a[n.len() + 1 + x] == v[x]);
                assert(b[name.len() + 1 + x] == value[x]);
            }
        }
    }
}

/// The scan for a tag takes an entry of an event exactly if the event
/// carries the tag, is of one of the kinds that the filter asks for, and
/// its time is in the window.
proof fn lemma_tag_scan(
    f: FilterView,
    name: Seq<u8>,
    value: Seq<u8>,
    uid: u64,
    e: EventView,
    compress: bool,
)
    requires
        tag_apart(e, name, value),
    ensures
        lane_takes(crate::plan::tag_scan(f, name, value), Table::Tag, uid, e, compress) <==> ((
        exists|i: int| 0 <= i < e.index.tags.len() && #[trigger] e.index.tags[i] == (name, value))
            && crate::filter::kind_matches(f.kinds, e.index.kind) && crate::filter::time_matches(
            f.since,
            f.until,
            e.index.created_at,
        )),
{
    let sc = crate::plan::tag_scan(f, name, value);
    let t = Table::Tag;
    let x = e.index;
    let at = x.created_at;
    let tags = x.tags;
    let val = crate::key::tag_value(uid, x.kind);
    lemma_be64_roundtrip(uid);
    lemma_be64_roundtrip(at);
    lemma_be64_roundtrip(x.kind);
    assert(val.subrange(8, 16) =~= be64(x.kind));
    assert(val.subrange(0, 8) =~= be64(uid));
    let in_window = crate::filter::time_matches(f.since, f.until, at);
    assert(sc.prefix == joined(name, value));
    if lane_takes(sc, t, uid, e, compress) {
        let q = choose|q: Pair| #[trigger] entries(t, uid, e, compress).contains(q) && emitted(sc, q);
        let i = choose|i: int|
            0 <= i < tags.len() && i < tags.len() && q == (
                #[trigger] crate::key::tag_key(tags[i].0, tags[i].1, at),
                val,
            );
        assert(q.0.subrange(q.0.len() - 8, q.0.len() as int) =~= be64(at));
        assert(q.0 == joined(tags[i].0, tags[i].1) + be64(at));
        assert(q.0.subrange(0, sc.prefix.len() as int) =~= joined(tags[i].0, tags[i].1));
        assert(tags[i] == (name, value));
    }
    if (exists|i: int| 0 <= i < tags.len() && #[trigger] tags[i] == (name, value))
        && crate::filter::kind_matches(f.kinds, x.kind) && in_window {
        let i = choose|i: int| 0 <= i < tags.len() && #[trigger] tags[i] == (name, value);
        let p: Pair = (crate::key::tag_key(tags[i].0, tags[i].1, at), val);
        assert(crate::model::is_tag_entry(tags, tags.len() as int, at, uid, x.kind, p));
        assert(entries(t, uid, e, compress).contains(p));
        assert(p.0.subrange(p.0.len() - 8, p.0.len() as int) =~= be64(at));
        assert(p.0.subrange(0, sc.prefix.len() as int) =~= sc.prefix);
        assert(emitted(sc, p));
    }
}

/// Scan `l` of the plan by tag is the scan for one value of one tag entry
/// of the filter.
proof fn lemma_tag_scan_of(f: FilterView, n: int, l: int) -> (r: (int, int))
    requires
        0 <= n <= f.tags.len(),
        0 <= l < crate::plan::tag_plan_upto(f, n).len(),
    ensures
        0 <= r.0 < n,
        0 <= r.1 < f.tags[r.0].1.len(),
        crate::plan::tag_plan_upto(f, n)[l] == crate::plan::tag_scan(
            f,
            f.tags[r.0].0,
            f.tags[r.0].1[r.1],
        ),
    decreases n,
{
    let done = crate::plan::tag_plan_upto(f, n - 1);
    let more = Seq::new(
        f.tags[n - 1].1.len(),
        |j: int| crate::plan::tag_scan(f, f.tags[n - 1].0, f.tags[n - 1].1[j]),
    );
    let all = crate::plan::tag_plan_upto(f, n);
    assert(all == done + more);
    if l < done.len() {
        assert(all[l] == done[l]);
        lemma_tag_scan_of(f, n - 1, l)
    } else {
        let j = l - done.len();
        assert(all[l] == more[j]);
        (n - 1, j)
    }
}

/// The scan for value `j` of tag entry `a` is a scan of the plan by tag.
proof fn lemma_tag_index_of(f: FilterView, n: int, a: int, j: int) -> (l: int)
    requires
        0 <= n <= f.tags.len(),
        0 <= a < n,
        0 <= j < f.tags[a].1.len(),
    ensures
        0 <= l < crate::plan::tag_plan_upto(f, n).len(),
        crate::plan::tag_plan_upto(f, n)[l] == crate::plan::tag_scan(f, f.tags[a].0, f.tags[a].1[j]),
    decreases n,
{
    let done = crate::plan::tag_plan_upto(f, n - 1);
    let more = Seq::new(
        f.tags[n - 1].1.len(),
        |j: int| crate::plan::tag_scan(f, f.tags[n - 1].0, f.tags[n - 1].1[j]),
    );
    let all = crate::plan::tag_plan_upto(f, n);
    assert(all == done + more);
    if a < n - 1 {
        let l = lemma_tag_index_of(f, n - 1, a, j);
        assert(all[l] == done[l]);
        l
    } else {
        assert(all[done.len() + j] == more[j]);
        done.len() + j
    }
}

/// The filter asks for tags, and maybe for authors and kinds.
pub open spec fn by_tag(f: FilterView) -> bool {
    f.words is None && f.ids is None && f.tags.len() > 0
}

/// An event that matches the filter is a candidate of the plan by tag and
/// passes what is held against its record.
proof fn lemma_tag_complete(f: FilterView, uid: u64, e: EventView, compress: bool)
    requires
        by_tag(f),
        forall|n: int, j: int|
            0 <= n < f.tags.len() && 0 <= j < f.tags[n].1.len() ==> #[trigger] tag_apart(
                e,
                f.tags[n].0,
                #[trigger] f.tags[n].1[j],
            ),
        matches(f, e),
    ensures
        event_candidate(chosen(f).plan, false, Table::Tag, uid, e, compress),
        accepts(chosen(f).match_index, f, e.index),
{
    let plan = chosen(f).plan;
    let x = e.index;
    assert(crate::filter::tag_matches(f.tags[0].0, f.tags[0].1, x.tags));
    let (i, j) = choose|i: int, j: int|
        0 <= i < x.tags.len() && 0 <= j < f.tags[0].1.len() && (#[trigger] x.tags[i]).0
            == f.tags[0].0 && x.tags[i].1 == #[trigger] f.tags[0].1[j];
    assert(tag_apart(e, f.tags[0].0, f.tags[0].1[j]));
    lemma_tag_scan(f, f.tags[0].0, f.tags[0].1[j], uid, e, compress);
    assert(x.tags[i] == (f.tags[0].0, f.tags[0].1[j]));
    let l = lemma_tag_index_of(f, f.tags.len() as int, 0, j);
    assert(lane_takes(plan[l], Table::Tag, uid, e, compress));
}

/// A candidate of the plan by tag that passes what is held against its
/// record matches the filter.
proof fn lemma_tag_sound(f: FilterView, uid: u64, e: EventView, compress: bool)
    requires
        by_tag(f),
        forall|n: int, j: int|
            0 <= n < f.tags.len() && 0 <= j < f.tags[n].1.len() ==> #[trigger] tag_apart(
                e,
                f.tags[n].0,
                #[trigger] f.tags[n].1[j],
            ),
        event_candidate(chosen(f).plan, false, Table::Tag, uid, e, compress),
        accepts(chosen(f).match_index, f, e.index),
    ensures
        matches(f, e),
{
    let plan = chosen(f).plan;
    let t = Table::Tag;
    let x = e.index;
    if chosen(f).match_index is Pubkey {
        let l = choose|l: int| 0 <= l < plan.len() && lane_takes(#[trigger] plan[l], t, uid, e, compress);
        let r = lemma_tag_scan_of(f, f.tags.len() as int, l);
        assert(r.0 == 0);
        assert(tag_apart(e, f.tags[r.0].0, f.tags[r.0].1[r.1]));
        lemma_tag_scan(f, f.tags[r.0].0, f.tags[r.0].1[r.1], uid, e, compress);
        let i = choose|i: int|
            0 <= i < x.tags.len() && #[trigger] x.tags[i] == (f.tags[0].0, f.tags[0].1[r.1]);
        assert(x.tags[i].0 == f.tags[0].0 && x.tags[i].1 == f.tags[0].1[r.1]);
        assert(crate::filter::tag_matches(f.tags[0].0, f.tags[0].1, x.tags));
        assert(crate::filter::tags_match(f.tags, x.tags));
    }
}

/// The plan by tag is sound and agrees with its filter, where the keys of
/// the index by tag are tight for it and its tags are told apart from the
/// tags of the live events.
pub proof fn lemma_tag_plan(store: &Store, f: FilterView)
    requires
        store.wf(),
        by_tag(f),
        plan_tight(store, f),
        tags_apart(store, f),
    ensures
        chosen(f).table is Tag,
        !crate::plan::plan_fails(f),
        sound_plan(store, chosen(f).table, chosen(f).plan, merge_of(f)),
        agrees(store, f),
{
    let ch = chosen(f);
    let t = Table::Tag;
    let tree = store.table(t)@;
    let live = store@.live;
    let c = store@.compress;
    store.lemma_wf();
    store.lemma_table_wf(t);
    crate::lanes::lemma_chosen_pinned(f);
    assert forall|i: int| 0 <= i < ch.plan.len() implies crate::lanes::tight(
        tree,
        #[trigger] ch.plan[i],
    ) && crate::lanes::reachable(tree, ch.plan[i]) by {
        crate::lanes::lemma_reachable_prefix(tree, ch.plan[i]);
    }
    assert forall|uid: u64| #[trigger] live.contains_key(uid) implies ((event_candidate(
        ch.plan,
        ch.and,
        t,
        uid,
        live[uid],
        c,
    ) && accepts(ch.match_index, f, live[uid].index)) <==> matches(f, live[uid])) by {
        let e = live[uid];
        assert forall|n: int, j: int|
            0 <= n < f.tags.len() && 0 <= j < f.tags[n].1.len() implies #[trigger] tag_apart(
            e,
            f.tags[n].0,
            #[trigger] f.tags[n].1[j],
        ) by {
            assert(tag_apart(live[uid], f.tags[n].0, f.tags[n].1[j]));
        }
        if matches(f, e) {
            lemma_tag_complete(f, uid, e, c);
        }
        if event_candidate(ch.plan, false, t, uid, e, c) && accepts(ch.match_index, f, e.index) {
            lemma_tag_sound(f, uid, e, c);
        }
    }
}

/// What is asked of a filter and a store for the query to answer with the
/// events that match, each once and in order.
///
/// Ids and authors that drive the query are whole keys in hexadecimal; ids
/// and kinds are not named twice; under authors no event comes from two
/// scans; under tags and words the keys of the index are tight for the plan,
/// tags are told apart, and a filter by word names a word. A filter that
/// asks for a window of time alone is always well posed.
pub open spec fn well_posed(store: &Store, f: FilterView) -> bool {
    if f.words is Some {
        by_word(f) && plan_tight(store, f)
    } else if f.ids is Some {
        whole(f.ids.unwrap()) && spell_apart(f.ids.unwrap())
    } else if f.tags.len() > 0 {
        plan_tight(store, f) && tags_apart(store, f)
    } else if f.authors is Some {
        whole(f.authors.unwrap()) && crate::order::lanes_apart(lanes_of(store, f))
    } else if f.kinds is Some {
        distinct(f.kinds.unwrap())
    } else {
        true
    }
}

/// The plan for a filter that is well posed is sound and agrees with the
/// filter; it decodes no text that is not hexadecimal.
pub proof fn lemma_well_posed(store: &Store, f: FilterView)
    requires
        store.wf(),
        well_posed(store, f),
    ensures
        !crate::plan::plan_fails(f),
        !(chosen(f).table is Expiration),
        sound_plan(store, chosen(f).table, chosen(f).plan, merge_of(f)),
        agrees(store, f),
{
    if f.words is Some {
        lemma_word_plan(store, f);
    } else if f.ids is Some {
        lemma_id_plan(store, f);
    } else if f.tags.len() > 0 {
        lemma_tag_plan(store, f);
    } else if f.authors is Some && f.kinds is Some {
        lemma_author_kind_plan(store, f);
    } else if f.authors is Some {
        lemma_author_plan(store, f);
    } else if f.kinds is Some {
        lemma_kind_plan(store, f);
    } else {
        lemma_time_plan(store, f);
    }
}

/// Scan correctness: the query for a filter that is well posed yields the
/// stored payloads of the live events that match the filter, ordered by
/// creation time and then by identifier in the direction of the filter, and
/// no more of them than the limit of the filter allows.
///
/// `answer` names the events in the order in which their payloads come out.
/// They come strictly in order; each is live and matches the filter; they
/// are no more than the limit; and every live event that matches the filter
/// is among them, unless the limit was met by events that all come before
/// it.
pub proof fn lemma_scan_correct(store: &Store, f: FilterView, uid: u64)
    requires
        store.wf(),
        well_posed(store, f),
    ensures
        !crate::plan::plan_fails(f),
        results(
            lanes_of(store, f),
            merge_of(f),
            store@.live,
            store@.compress,
            f,
            chosen(f).match_index,
            0,
        ) == payloads(answer(store, f), store@.live, store@.compress),
        keys_strict(answer(store, f), f.desc),
        f.limit matches Some(l) ==> answer(store, f).len() <= l,
        forall|i: int|
            0 <= i < answer(store, f).len() ==> {
                let k = #[trigger] answer(store, f)[i];
                &&& store@.live.contains_key(k.uid)
                &&& k.time == store@.live[k.uid].index.created_at
                &&& matches(f, store@.live[k.uid])
            },
        store@.live.contains_key(uid) && matches(f, store@.live[uid]) ==> (exists|i: int|
            0 <= i < answer(store, f).len() && (#[trigger] answer(store, f)[i]).uid == uid) || (
        limit_hit(f.limit, answer(store, f).len() as int) && forall|i: int|
            0 <= i < answer(store, f).len() ==> before(
                #[trigger] answer(store, f)[i],
                event_key(uid, store@.live[uid]),
                f.desc,
            )),
{
    lemma_well_posed(store, f);
    lemma_query_answers(store, f, uid);
}

/// No tag name and no tag value of a live event holds a zero byte.
pub open spec fn tags_zero_free(store: &Store) -> bool {
    forall|uid: u64, i: int|
        store@.live.contains_key(uid) && 0 <= i < store@.live[uid].index.tags.len() ==> !(
        #[trigger] store@.live[uid].index.tags[i]).0.contains(0u8)
            && !store@.live[uid].index.tags[i].1.contains(0u8)
}

/// Neither the name of tag entry `n` of the filter nor its value `j` holds
/// a zero byte.
pub open spec fn filter_tag_zero_free(f: FilterView, n: int, j: int) -> bool {
    !f.tags[n].0.contains(0u8) && !f.tags[n].1[j].contains(0u8)
}

/// No tag name and no tag value of the filter holds a zero byte.
pub open spec fn filter_tags_zero_free(f: FilterView) -> bool {
    forall|n: int, j: int|
        0 <= n < f.tags.len() && 0 <= j < f.tags[n].1.len() ==> #[trigger] filter_tag_zero_free(
            f,
            n,
            j,
        )
}

/// A key made of a name and a value without zero bytes that starts like the
/// key of another such name and value has the same name and a value of the
/// same length.
proof fn lemma_joined_prefix(n: Seq<u8>, v: Seq<u8>, rest: Seq<u8>, name: Seq<u8>, value: Seq<u8>)
    requires
        !n.contains(0u8),
        !v.contains(0u8),
        !name.contains(0u8),
        !value.contains(0u8),
        crate::bytes::starts_with(joined(n, v) + rest, joined(name, value)),
    ensures
        n.len() == name.len(),
        v.len() == value.len(),
{
    let a = joined(n, v) + rest;
    let b = joined(name, value);
    assert(joined(n, v).len() == n.len() + v.len() + 2);
    assert(b.len() == name.len() + value.len() + 2);
    assert forall|x: int| 0 <= x < b.len() implies a[x] == b[x] by {
        assert(a.subrange(0, b.len() as int)[x] == a[x]);
    }
    if n.len() < name.len() {
        assert(a[n.len() as int] == 0u8);
        assert(b[n.len() as int] == name[n.len() as int]);
        assert(name.contains(0u8));
    } else if name.len() < n.len() {
        assert(b[name.len() as int] == 0u8);
        assert(a[name.len() as int] == n[name.len() as int]);
        assert(n.contains(0u8));
    }
    let o: int = (n.len() + 1) as int;
    if v.len() < value.len() {
        assert(a[o + v.len()] == 0u8);
        assert(b[o + v.len()] == value[v.len() as int]);
        assert(value.contains(0u8));
    } else if value.len() < v.len() {
        assert(b[o + value.len()] == 0u8);
        assert(a[o + value.len()] == v[value.len() as int]);
        assert(v.contains(0u8));
    }
}

/// An entry of the index by tag that starts like the key of a scan for a
/// tag is that key followed by a time, where tags hold no zero byte.
proof fn lemma_tag_entry_tight(store: &Store, name: Seq<u8>, value: Seq<u8>, i: int)
    requires
        store.wf(),
        tags_zero_free(store),
        !name.contains(0u8),
        !value.contains(0u8),
        0 <= i < store.table(Table::Tag)@.len(),
        crate::bytes::starts_with(store.table(Table::Tag)@[i].0, joined(name, value)),
    ensures
        store.table(Table::Tag)@[i].0.len() == joined(name, value).len() + 8,
{
    let t = Table::Tag;
    let tree = store.table(t)@;
    let live = store@.live;
    lemma_key_uid_live(store, t, i);
    let u = key_of(tree[i]).uid;
    let e = live[u];
    let tags = e.index.tags;
    let x = choose|x: int|
        0 <= x < tags.len() && x < tags.len() && tree[i] == (
            #[trigger] crate::key::tag_key(tags[x].0, tags[x].1, e.index.created_at),
            crate::key::tag_value(u, e.index.kind),
        );
    assert(!tags[x].0.contains(0u8) && !tags[x].1.contains(0u8));
    assert(tree[i].0 == joined(tags[x].0, tags[x].1) + be64(e.index.created_at));
    lemma_joined_prefix(tags[x].0, tags[x].1, be64(e.index.created_at), name, value);
    lemma_be64_roundtrip(e.index.created_at);
    assert(joined(tags[x].0, tags[x].1).len() == tags[x].0.len() + tags[x].1.len() + 2);
    assert(joined(name, value).len() == name.len() + value.len() + 2);
}

/// Where no tag of a live event and no tag of the filter holds a zero byte,
/// the keys of the index by tag are tight for the plan by tag.
pub proof fn lemma_tags_tight(store: &Store, f: FilterView)
    requires
        store.wf(),
        by_tag(f),
        tags_zero_free(store),
        filter_tags_zero_free(f),
    ensures
        plan_tight(store, f),
{
    let ch = chosen(f);
    let tree = store.table(Table::Tag)@;
    assert forall|l: int| 0 <= l < ch.plan.len() implies crate::lanes::tight(
        tree,
        #[trigger] ch.plan[l],
    ) by {
        let sc = ch.plan[l];
        let r = lemma_tag_scan_of(f, f.tags.len() as int, l);
        let name = f.tags[r.0].0;
        let value = f.tags[r.0].1[r.1];
        assert(filter_tag_zero_free(f, r.0, r.1));
        assert(sc.prefix == joined(name, value));
        assert forall|i: int|
            0 <= i < tree.len() && (sc.matcher is Any || crate::bytes::starts_with(
                (#[trigger] tree[i]).0,
                sc.prefix,
            )) implies tree[i].0.len() == crate::lanes::pin(sc).len() + 8 by {
            lemma_tag_entry_tight(store, name, value, i);
        }
    }
}

/// Where no tag name of a live event and of the filter holds a zero byte,
/// tags are told apart.
pub proof fn lemma_tags_told_apart(store: &Store, f: FilterView)
    requires
        tags_zero_free(store),
        filter_tags_zero_free(f),
    ensures
        tags_apart(store, f),
{
    let live = store@.live;
    assert forall|uid: u64, n: int, j: int|
        live.contains_key(uid) && 0 <= n < f.tags.len() && 0 <= j < f.tags[n].1.len()
        implies #[trigger] tag_apart(live[uid], f.tags[n].0, #[trigger] f.tags[n].1[j]) by {
        assert(filter_tag_zero_free(f, n, j));
        assert forall|i: int| 0 <= i < live[uid].index.tags.len() implies !(
        #[trigger] live[uid].index.tags[i]).0.contains(0u8) by {}
        lemma_names_tell_apart(live[uid], f.tags[n].0, f.tags[n].1[j]);
    }
}

/// No word of a live event holds a zero byte.
pub open spec fn words_zero_free(store: &Store) -> bool {
    forall|uid: u64, i: int|
        store@.live.contains_key(uid) && store@.live[uid].words is Some && 0 <= i
            < store@.live[uid].words.unwrap().len() ==> !(
        #[trigger] store@.live[uid].words.unwrap()[i]).contains(0u8)
}

/// Where no word of a live event and no word of the filter holds a zero
/// byte, the keys of the index by word are tight for the plan by word.
pub proof fn lemma_words_zero_free(store: &Store, f: FilterView)
    requires
        store.wf(),
        by_word(f),
        words_zero_free(store),
        forall|l: int| 0 <= l < f.words.unwrap().len() ==> !(#[trigger] f.words.unwrap()[l]).contains(
            0u8,
        ),
    ensures
        plan_tight(store, f),
{
    let ch = chosen(f);
    let t = Table::Word;
    let tree = store.table(t)@;
    let live = store@.live;
    let ws = f.words.unwrap();
    assert forall|l: int| 0 <= l < ch.plan.len() implies crate::lanes::tight(
        tree,
        #[trigger] ch.plan[l],
    ) by {
        let sc = ch.plan[l];
        let word = ws[l];
        assert forall|i: int|
            0 <= i < tree.len() && (sc.matcher is Any || crate::bytes::starts_with(
                (#[trigger] tree[i]).0,
                sc.prefix,
            )) implies tree[i].0.len() == crate::lanes::pin(sc).len() + 8 by {
            lemma_key_uid_live(store, t, i);
            let u = key_of(tree[i]).uid;
            let e = live[u];
            let have = e.words.unwrap();
            let x = choose|x: int|
                0 <= x < have.len() && x < have.len() && tree[i] == (
                    #[trigger] crate::key::word_key(have[x], e.index.created_at),
                    be64(u),
                );
            let w = have[x];
            assert(!w.contains(0u8));
            lemma_be64_roundtrip(e.index.created_at);
            let a = tree[i].0;
            let b = sc.prefix;
            assert forall|y: int| 0 <= y < b.len() implies a[y] == b[y] by {
                assert(a.subrange(0, b.len() as int)[y] == a[y]);
            }
            if w.len() < word.len() {
                assert(a[w.len() as int] == 0u8);
                assert(b[w.len() as int] == word[w.len() as int]);
                assert(word.contains(0u8));
            } else if word.len() < w.len() {
                assert(b[word.len() as int] == 0u8);
                assert(a[word.len() as int] == w[word.len() as int]);
                assert(w.contains(0u8));
            }
        }
    }
}

/// No live event was signed by one author of the filter and delegated by
/// another.
pub open spec fn one_author_each(store: &Store, f: FilterView) -> bool {
    forall|uid: u64| #[trigger]
        store@.live.contains_key(uid) ==> (store@.live[uid].index.delegator matches Some(d) ==> d
            == store@.live[uid].index.pubkey || !(crate::filter::any_prefix_matches(
            f.authors.unwrap(),
            store@.live[uid].index.pubkey,
        ) && crate::filter::any_prefix_matches(f.authors.unwrap(), d)))
}

/// Under authors no event comes from two scans, where the authors are
/// whole public keys of which no two spell the same and no live event was
/// signed by one of them and delegated by another.
pub proof fn lemma_author_lanes_apart(store: &Store, f: FilterView)
    requires
        store.wf(),
        by_author(f),
        whole(f.authors.unwrap()),
        spell_apart(f.authors.unwrap()),
        one_author_each(store, f),
    ensures
        crate::order::lanes_apart(lanes_of(store, f)),
{
    let ch = chosen(f);
    let t = Table::Pubkey;
    let authors = f.authors.unwrap();
    let tree = store.table(t)@;
    let live = store@.live;
    let c = store@.compress;
    let lanes = lanes_of(store, f);
    store.lemma_wf();
    store.lemma_table_wf(t);
    crate::lanes::lemma_chosen_pinned(f);
    assert forall|a: int, b: int, k: IndexKey|
        0 <= a < lanes.len() && 0 <= b < lanes.len() && a != b && #[trigger] has(
            lanes[a],
            k,
        ) implies !#[trigger] has(lanes[b], k) by {
        crate::lanes::lemma_tight_fixed(store, t, ch.plan[a]);
        crate::lanes::lemma_reachable_prefix(tree, ch.plan[a]);
        crate::lanes::lemma_tight_fixed(store, t, ch.plan[b]);
        crate::lanes::lemma_reachable_prefix(tree, ch.plan[b]);
        crate::lanes::lemma_lane_takes(store, t, ch.plan[a], k);
        crate::lanes::lemma_lane_takes(store, t, ch.plan[b], k);
        lemma_takes(store, t, ch.plan[a], k);
        lemma_takes(store, t, ch.plan[b], k);
        if has(lanes[b], k) {
            let e = live[k.uid];
            let x = e.index;
            lemma_author_scan(f, authors[a], k.uid, e, c);
            lemma_author_scan(f, authors[b], k.uid, e, c);
            lemma_whole_prefix(authors[a], x.pubkey, f.desc);
            lemma_whole_prefix(authors[b], x.pubkey, f.desc);
            if a < b {
                assert(crate::hexcodec::hex_decoded(authors[a]) != crate::hexcodec::hex_decoded(
                    authors[b],
                ));
            } else {
                assert(crate::hexcodec::hex_decoded(authors[b]) != crate::hexcodec::hex_decoded(
                    authors[a],
                ));
            }
            let d = x.delegator.unwrap();
            lemma_whole_prefix(authors[a], d, f.desc);
            lemma_whole_prefix(authors[b], d, f.desc);
            assert(crate::filter::any_prefix_matches(authors, x.pubkey));
            assert(crate::filter::any_prefix_matches(authors, d));
        }
    }
}

/// Under authors with kinds no event comes from two scans, where the
/// authors are whole public keys of which no two spell the same, no kind is
/// named twice, and no live event was signed by one author of the filter and
/// delegated by another.
pub proof fn lemma_author_kind_lanes_apart(store: &Store, f: FilterView)
    requires
        store.wf(),
        by_author_kind(f),
        whole(f.authors.unwrap()),
        spell_apart(f.authors.unwrap()),
        distinct(f.kinds.unwrap()),
        one_author_each(store, f),
    ensures
        crate::order::lanes_apart(lanes_of(store, f)),
{
    let ch = chosen(f);
    let t = Table::PubkeyKind;
    let authors = f.authors.unwrap();
    let kinds = f.kinds.unwrap();
    let tree = store.table(t)@;
    let live = store@.live;
    let c = store@.compress;
    let lanes = lanes_of(store, f);
    store.lemma_wf();
    store.lemma_table_wf(t);
    crate::lanes::lemma_chosen_pinned(f);
    assert forall|a: int, b: int, k: IndexKey|
        0 <= a < lanes.len() && 0 <= b < lanes.len() && a != b && #[trigger] has(
            lanes[a],
            k,
        ) implies !#[trigger] has(lanes[b], k) by {
        crate::lanes::lemma_tight_fixed(store, t, ch.plan[a]);
        crate::lanes::lemma_reachable_prefix(tree, ch.plan[a]);
        crate::lanes::lemma_tight_fixed(store, t, ch.plan[b]);
        crate::lanes::lemma_reachable_prefix(tree, ch.plan[b]);
        crate::lanes::lemma_lane_takes(store, t, ch.plan[a], k);
        crate::lanes::lemma_lane_takes(store, t, ch.plan[b], k);
        lemma_takes(store, t, ch.plan[a], k);
        lemma_takes(store, t, ch.plan[b], k);
        if has(lanes[b], k) {
            let e = live[k.uid];
            let x = e.index;
            let ra = lemma_author_kind_scan_of(f, authors.len() as int, a);
            let rb = lemma_author_kind_scan_of(f, authors.len() as int, b);
            lemma_author_kind_scan(f, authors[ra.0], kinds[ra.1], k.uid, e, c);
            lemma_author_kind_scan(f, authors[rb.0], kinds[rb.1], k.uid, e, c);
            // one kind, so one place among the kinds
            if ra.1 < rb.1 {
                assert(kinds[ra.1] != kinds[rb.1]);
            } else if rb.1 < ra.1 {
                assert(kinds[rb.1] != kinds[ra.1]);
            }
            assert(ra.1 == rb.1);
            assert(ra.0 != rb.0);
            lemma_whole_prefix(authors[ra.0], x.pubkey, f.desc);
            lemma_whole_prefix(authors[rb.0], x.pubkey, f.desc);
            if ra.0 < rb.0 {
                assert(crate::hexcodec::hex_decoded(authors[ra.0]) != crate::hexcodec::hex_decoded(
                    authors[rb.0],
                ));
            } else {
                assert(crate::hexcodec::hex_decoded(authors[rb.0]) != crate::hexcodec::hex_decoded(
                    authors[ra.0],
                ));
            }
            let d = x.delegator.unwrap();
            lemma_whole_prefix(authors[ra.0], d, f.desc);
            lemma_whole_prefix(authors[rb.0], d, f.desc);
            assert(crate::filter::any_prefix_matches(authors, x.pubkey));
            assert(crate::filter::any_prefix_matches(authors, d));
        }
    }
}

/// The events that the sweep for expired events yields the payloads of, in
/// its order.
pub open spec fn swept(store: &Store, until: Option<u64>) -> Seq<IndexKey> {
    let f = crate::query::Iter::expiration_filter(until);
    picked(
        merged(
            plan_lanes(store.table(Table::Expiration)@, crate::plan::time_plan(f)),
            false,
            false,
            false,
        ),
        store@.live,
        f,
        crate::plan::MatchIndex::Off,
        0,
    )
}

/// Whether an event has expired at `until`.
pub open spec fn expired(e: EventView, until: Option<u64>) -> bool {
    e.index.expiration matches Some(x) && (until matches Some(u) ==> x <= u)
}

/// The sweep for expired events yields the stored payloads of the live
/// events that carry an expiration which is `until` or before it, each
/// once, the first to expire first and, of those that expire together, the
/// one with the lesser identifier first.
pub proof fn lemma_sweep_correct(store: &Store, until: Option<u64>, uid: u64)
    requires
        store.wf(),
    ensures
        results(
            plan_lanes(
                store.table(Table::Expiration)@,
                crate::plan::time_plan(crate::query::Iter::expiration_filter(until)),
            ),
            Merge { reverse: false, and: false, dedup: false },
            store@.live,
            store@.compress,
            crate::query::Iter::expiration_filter(until),
            crate::plan::MatchIndex::Off,
            0,
        ) == payloads(swept(store, until), store@.live, store@.compress),
        keys_strict(swept(store, until), false),
        forall|i: int|
            0 <= i < swept(store, until).len() ==> {
                let k = #[trigger] swept(store, until)[i];
                &&& store@.live.contains_key(k.uid)
                &&& store@.live[k.uid].index.expiration == Some(k.time)
                &&& expired(store@.live[k.uid], until)
            },
        store@.live.contains_key(uid) && expired(store@.live[uid], until) ==> exists|i: int|
            0 <= i < swept(store, until).len() && (#[trigger] swept(store, until)[i]).uid == uid,
{
    let f = crate::query::Iter::expiration_filter(until);
    let t = Table::Expiration;
    let plan = crate::plan::time_plan(f);
    let sc = plan[0];
    let g = Merge { reverse: false, and: false, dedup: false };
    let m = crate::plan::MatchIndex::Off;
    let tree = store.table(t)@;
    let live = store@.live;
    let c = store@.compress;
    let lanes = plan_lanes(tree, plan);
    let cands = merged(lanes, false, false, false);
    let keys = swept(store, until);
    store.lemma_wf();
    store.lemma_table_wf(t);
    // the plan is sound
    crate::lanes::lemma_tight_fixed(store, t, sc);
    let edge = crate::scanner::start_edge(tree, sc.prefix, sc.reverse);
    crate::tree::lemma_ranks(tree, sc.prefix);
    lemma_be64_roundtrip(0);
    assert forall|i: int| 0 <= i < tree.len() && emitted(sc, #[trigger] tree[i]) implies i
        >= edge by {
        lemma_key_uid_live(store, t, i);
        let u = key_of(tree[i]).uid;
        crate::model::lemma_entry_form(t, u, live[u], c, tree[i]);
        let at = live[u].index.expiration.unwrap();
        assert(tree[i].0 =~= be64(at));
        crate::bytes::lemma_be64_order(at, 0);
        if i < edge {
            assert(lex_lt(tree[i].0, sc.prefix));
        }
    }
    assert(crate::order::lanes_apart(lanes));
    assert(sound_plan(store, t, plan, g));
    lemma_plan_lanes_strict(store, t, plan, false);
    crate::order::lemma_strict_is_ordered(lanes, false);
    lemma_plan_lanes_live(store, t, plan);
    lemma_results_picked(lanes, g, live, c, f, m, 0);
    lemma_merged_sound_strict(store, t, plan, g);
    lemma_picked(cands, live, f, m, 0, false);
    // the scan takes the entry of an event exactly if the event has expired
    assert forall|u: u64| #[trigger] live.contains_key(u) implies (lane_takes(
        sc,
        t,
        u,
        live[u],
        c,
    ) <==> expired(live[u], until)) by {
        let e = live[u];
        lemma_be64_roundtrip(u);
        match e.index.expiration {
            Some(x) => {
                let p: Pair = (crate::key::time_key(x), be64(u));
                lemma_be64_roundtrip(x);
                assert(entries(t, u, e, c).contains(p));
                assert(p.0.subrange(p.0.len() - 8, p.0.len() as int) =~= be64(x));
                if lane_takes(sc, t, u, e, c) {
                    let q = choose|q: Pair| #[trigger] entries(t, u, e, c).contains(q) && emitted(sc, q);
                    assert(q == p);
                }
                if expired(e, until) {
                    assert(emitted(sc, p));
                }
            },
            None => {
                if lane_takes(sc, t, u, e, c) {
                    let q = choose|q: Pair| #[trigger] entries(t, u, e, c).contains(q) && emitted(sc, q);
                }
            },
        }
    }
    assert forall|i: int| 0 <= i < keys.len() implies {
        let k = #[trigger] keys[i];
        &&& live.contains_key(k.uid)
        &&& live[k.uid].index.expiration == Some(k.time)
        &&& expired(live[k.uid], until)
    } by {
        let k = keys[i];
        let j = choose|j: int| 0 <= j < cands.len() && #[trigger] cands[j] == Ok::<IndexKey, Error>(k);
        assert(cands[j] is Ok);
        assert(has(cands, k));
        lemma_merged_candidates(store, t, plan, g, k);
        lemma_candidate(store, t, plan, false, k);
        let l = choose|l: int| 0 <= l < plan.len() && lane_takes(#[trigger] plan[l], t, k.uid, live[k.uid], c);
        assert(plan[l] == sc);
    }
    if live.contains_key(uid) && expired(live[uid], until) {
        let k = IndexKey { time: live[uid].index.expiration.unwrap(), uid, kind: None };
        assert(lane_takes(plan[0], t, uid, live[uid], c));
        lemma_candidate(store, t, plan, false, k);
        lemma_merged_candidates(store, t, plan, g, k);
        assert(has(cands, k));
        let j = choose|j: int|
            0 <= j < cands.len() && (#[trigger] cands[j]) is Ok && same_key(cands[j]->Ok_0, k);
        let kj = cands[j]->Ok_0;
        assert(passes(live, f, m, kj));
        assert(among(keys, kj));
        let i = choose|i: int| 0 <= i < keys.len() && #[trigger] keys[i] == kj;
        assert(keys[i].uid == uid);
    }
}

/// All the events that match the filter, in the order of the query: what
/// the query would pick if the filter had no limit.
pub open spec fn all_matches(store: &Store, f: FilterView) -> Seq<IndexKey> {
    picked(
        merged(lanes_of(store, f), f.desc, chosen(f).and, chosen(f).dedup),
        store@.live,
        crate::answers::unlimited(f),
        chosen(f).match_index,
        0,
    )
}

/// How many results a query has: as many as there are events that match its
/// filter, or as many as its limit allows if that is less. Counting with
/// `size` gives that number, and pulling with `next` yields that many
/// payloads.
///
/// `all_matches` lists each live event that matches the filter once, in the
/// order of the query; `answer` is its start, cut at the limit.
pub proof fn lemma_count_correct(store: &Store, f: FilterView, uid: u64)
    requires
        store.wf(),
        well_posed(store, f),
    ensures
        keys_strict(all_matches(store, f), f.desc),
        forall|i: int|
            0 <= i < all_matches(store, f).len() ==> {
                let k = #[trigger] all_matches(store, f)[i];
                &&& store@.live.contains_key(k.uid)
                &&& matches(f, store@.live[k.uid])
            },
        store@.live.contains_key(uid) && matches(f, store@.live[uid]) ==> exists|i: int|
            0 <= i < all_matches(store, f).len() && (#[trigger] all_matches(store, f)[i]).uid == uid,
        answer(store, f) == all_matches(store, f).take(
            crate::answers::room(f.limit, 0, all_matches(store, f).len() as int),
        ),
        answer(store, f).len() == match f.limit {
            Some(l) => crate::answers::lesser(l as int, all_matches(store, f).len() as int),
            None => all_matches(store, f).len() as int,
        },
        results(
            lanes_of(store, f),
            merge_of(f),
            store@.live,
            store@.compress,
            f,
            chosen(f).match_index,
            0,
        ).len() == answer(store, f).len(),
        crate::query::tally(
            lanes_of(store, f),
            merge_of(f),
            store@.live,
            f,
            chosen(f).match_index,
            0,
        ).count == Ok::<u64, Error>(crate::scanner::capped_sum(0, answer(store, f).len() as int)),
{
    let ch = chosen(f);
    let t = ch.table;
    let g = merge_of(f);
    let live = store@.live;
    let c = store@.compress;
    let m = ch.match_index;
    let u = crate::answers::unlimited(f);
    let lanes = lanes_of(store, f);
    let cands = merged(lanes, g.reverse, g.and, g.dedup);
    let all = all_matches(store, f);
    lemma_well_posed(store, f);
    lemma_plan_lanes_strict(store, t, ch.plan, g.reverse);
    crate::order::lemma_strict_is_ordered(lanes, g.reverse);
    lemma_plan_lanes_live(store, t, ch.plan);
    lemma_results_picked(lanes, g, live, c, f, m, 0);
    lemma_merged_sound_strict(store, t, ch.plan, g);
    lemma_picked(cands, live, u, m, 0, g.reverse);
    crate::answers::lemma_picked_limit(cands, live, f, m, 0);
    crate::answers::lemma_tally_picked(lanes, g, live, f, m, 0);
    assert forall|i: int| 0 <= i < all.len() implies {
        let k = #[trigger] all[i];
        &&& live.contains_key(k.uid)
        &&& matches(f, live[k.uid])
    } by {
        let k = all[i];
        let j = choose|j: int| 0 <= j < cands.len() && #[trigger] cands[j] == Ok::<IndexKey, Error>(k);
        assert(cands[j] is Ok);
        assert(has(cands, k));
        assert(passes(live, f, m, k) == passes(live, u, m, k));
        lemma_merged_candidates(store, t, ch.plan, g, k);
        lemma_candidate(store, t, ch.plan, g.and, k);
    }
    if live.contains_key(uid) && matches(f, live[uid]) {
        let k = event_key(uid, live[uid]);
        lemma_candidate(store, t, ch.plan, g.and, k);
        lemma_merged_candidates(store, t, ch.plan, g, k);
        assert(has(cands, k));
        let j = choose|j: int|
            0 <= j < cands.len() && (#[trigger] cands[j]) is Ok && same_key(cands[j]->Ok_0, k);
        let kj = cands[j]->Ok_0;
        assert(passes(live, f, m, kj));
        assert(passes(live, u, m, kj));
        assert(among(all, kj));
        let i = choose|i: int| 0 <= i < all.len() && #[trigger] all[i] == kj;
        assert(all[i].uid == uid);
    }
}

} // verus!
