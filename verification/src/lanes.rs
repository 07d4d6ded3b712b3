//! The lanes of a query: what a scan yields from a table of the store, and
//! when that is in order.

use vstd::prelude::*;
use crate::bytes::{be64, lex_lt, starts_with, upper_spec, lemma_be64_injective, lemma_be64_order, lemma_be64_roundtrip, lemma_lex_irreflexive, lemma_mismatch, lemma_mismatch_is, mismatch_from};
use crate::error::Error;

use crate::group::{before, Item};
use crate::key::{index_key_of, IndexKey};
use crate::model::{entries, has_entry, scannable, Table};
use crate::order::{has, lane_ordered, lane_strict, lanes_strict, merged};
use crate::bytes::lemma_prefix_range;
use crate::query::{fits, plan_lanes, Merge};
use crate::filter::FilterView;
use crate::plan::{author_kind_plan_upto, author_scans, chosen, decoded_texts, tag_plan_upto, tag_scan};
use crate::scanner::{readable, scan_domain, start_edge, MatchResult, MatcherView, ScanView};
use crate::store::Store;
use crate::tree::{lemma_ranks, pair_lt, sorted, Pair};

verus! {

/// The scan takes the entry for a result.
pub open spec fn emitted(sc: ScanView, p: Pair) -> bool {
    sc.examine(p.0, p.1) matches Ok(MatchResult::Found(_))
}

/// What is read from an entry.
pub open spec fn key_of(p: Pair) -> IndexKey {
    index_key_of(p.0, p.1).unwrap()
}

/// Of two entries that the scan takes for results, the one that the walk
/// passes first comes strictly first in a merged stream.
pub open spec fn walk_strict(sc: ScanView, d: Seq<Pair>) -> bool {
    forall|x: int, y: int|
        0 <= x < y < d.len() && emitted(sc, #[trigger] d[x]) && emitted(sc, #[trigger] d[y])
            ==> before(key_of(d[x]), key_of(d[y]), sc.reverse)
}

/// Every result of the scan is read from an entry of `d` that the scan
/// takes for a result.
pub open spec fn from_entries(sc: ScanView, d: Seq<Pair>, out: Seq<Item>) -> bool {
    forall|j: int|
        0 <= j < out.len() ==> exists|x: int|
            0 <= x < d.len() && emitted(sc, #[trigger] d[x]) && (#[trigger] out[j]) == Ok::<
                IndexKey,
                Error,
            >(key_of(d[x]))
}

/// Where the entries that a scan takes for results come in strict order
/// along the walk, what the scan yields is strictly in order.
pub proof fn lemma_output_strict(sc: ScanView, d: Seq<Pair>)
    requires
        forall|i: int| 0 <= i < d.len() ==> readable(sc.matcher, (#[trigger] d[i]).0, d[i].1),
        walk_strict(sc, d),
    ensures
        lane_strict(sc.output(d), sc.reverse),
        from_entries(sc, d, sc.output(d)),
    decreases d.len(),
{
    if d.len() > 0 {
        let rest = d.skip(1);
        sc.lemma_readable(d[0].0, d[0].1);
        assert forall|i: int| 0 <= i < rest.len() implies readable(
            sc.matcher,
            (#[trigger] rest[i]).0,
            rest[i].1,
        ) by {
            assert(rest[i] == d[i + 1]);
        }
        assert forall|x: int, y: int|
            0 <= x < y < rest.len() && emitted(sc, #[trigger] rest[x]) && emitted(
                sc,
                #[trigger] rest[y],
            ) implies before(key_of(rest[x]), key_of(rest[y]), sc.reverse) by {
            assert(rest[x] == d[x + 1] && rest[y] == d[y + 1]);
        }
        lemma_output_strict(sc, rest);
        let tail = sc.output(rest);
        let out = sc.output(d);
        assert forall|j: int| 0 <= j < tail.len() implies exists|x: int|
            0 <= x < d.len() && emitted(sc, #[trigger] d[x]) && (#[trigger] tail[j]) == Ok::<
                IndexKey,
                Error,
            >(key_of(d[x])) by {
            let x = choose|x: int|
                0 <= x < rest.len() && emitted(sc, #[trigger] rest[x]) && tail[j] == Ok::<
                    IndexKey,
                    Error,
                >(key_of(rest[x]));
            assert(rest[x] == d[x + 1]);
        }
        match sc.examine(d[0].0, d[0].1) {
            Ok(MatchResult::Found(key)) => {
                assert(out =~= seq![Ok(key)] + tail);
                assert(key == key_of(d[0]));
                assert forall|j: int| 0 <= j < out.len() implies exists|x: int|
                    0 <= x < d.len() && emitted(sc, #[trigger] d[x]) && (#[trigger] out[j])
                        == Ok::<IndexKey, Error>(key_of(d[x])) by {
                    if j == 0 {
                        assert(emitted(sc, d[0]));
                    } else {
                        assert(out[j] == tail[j - 1]);
                    }
                }
                assert forall|i: int, j: int| 0 <= i < j < out.len() implies before(
                    (#[trigger] out[i])->Ok_0,
                    (#[trigger] out[j])->Ok_0,
                    sc.reverse,
                ) by {
                    assert(out[j] == tail[j - 1]);
                    if i == 0 {
                        let x = choose|x: int|
                            0 <= x < d.len() && emitted(sc, #[trigger] d[x]) && tail[j - 1]
                                == Ok::<IndexKey, Error>(key_of(d[x]));
                        let y = choose|y: int|
                            0 <= y < rest.len() && emitted(sc, #[trigger] rest[y]) && tail[j - 1]
                                == Ok::<IndexKey, Error>(key_of(rest[y]));
                        assert(rest[y] == d[y + 1]);
                        assert(emitted(sc, d[0]) && emitted(sc, d[y + 1]));
                    } else {
                        assert(out[i] == tail[i - 1]);
                    }
                }
                assert forall|i: int| 0 <= i < out.len() implies (#[trigger] out[i]) is Ok by {
                    if i > 0 {
                        assert(out[i] == tail[i - 1]);
                    }
                }
            },
            Ok(MatchResult::Continue) => {
                assert(out == tail);
            },
            Ok(MatchResult::Stop) => {},
            Err(e) => {},
        }
    }
}

/// Whether every entry that the scan takes for a result from table `t` has
/// the same bytes before its time: the prefix of the scan, or nothing in a
/// table whose keys are times. The times of such entries grow along the
/// table.
pub open spec fn pinned(t: Table, sc: ScanView) -> bool {
    match sc.matcher {
        MatcherView::Any => t is Time || t is Expiration,
        MatcherView::Prefix => (t is Kind && sc.prefix.len() == 8) || (t is PubkeyKind
            && sc.prefix.len() == 40),
        MatcherView::Exact => t is Word,
        MatcherView::Tag { kinds } => t is Tag,
        MatcherView::Hex { odd } => !odd && sc.prefix.len() == 32 && (t is Id || t is Pubkey),
        MatcherView::HexKinds { odd, kinds } => false,
    }
}

/// The bytes before the time in the keys that a pinned scan takes.
pub open spec fn pin(sc: ScanView) -> Seq<u8> {
    if sc.matcher is Any {
        Seq::empty()
    } else {
        sc.prefix
    }
}

/// Strings that start with different strings of one length are in the
/// order of their starts.
pub proof fn lemma_lex_heads(a: Seq<u8>, x: Seq<u8>, b: Seq<u8>, y: Seq<u8>)
    requires
        a.len() == b.len(),
        a != b,
    ensures
        lex_lt(a + x, b + y) <==> lex_lt(a, b),
{
    lemma_mismatch(a, b, 0);
    let m = mismatch_from(a, b, 0);
    if m == a.len() {
        assert(a =~= b);
    }
    assert forall|j: int| 0 <= j < m implies (a + x)[j] == (b + y)[j] by {
        assert((a + x)[j] == a[j] && (b + y)[j] == b[j]);
    }
    assert((a + x)[m] == a[m] && (b + y)[m] == b[m]);
    lemma_mismatch_is(a + x, b + y, 0, m);
}

/// The key of an entry of a table of a store in order has the length that
/// the table gives its keys.
pub proof fn lemma_key_len(store: &Store, t: Table, i: int)
    requires
        store.wf(),
        scannable(t),
        0 <= i < store.table(t)@.len(),
    ensures
        crate::model::key_len(t) matches Some(n) ==> store.table(t)@[i].0.len() == n,
        store.table(t)@[i].0.len() >= 8,
{
    let tree = store.table(t)@;
    let live = store@.live;
    let c = store@.compress;
    let a = tree[i];
    store.lemma_wf();
    store.lemma_table_wf(t);
    assert(tree.contains(a));
    assert(store.table(t).pairs().contains(a));
    let ua = choose|u: u64| #[trigger] has_entry(t, live, c, u, a);
    assert(live.contains_key(ua));
    crate::model::lemma_entry_form(t, ua, live[ua], c, a);
}

/// The key of an entry that a pinned scan takes is the pin of the scan
/// followed by eight bytes of time.
pub proof fn lemma_emitted_form(store: &Store, t: Table, sc: ScanView, i: int)
    requires
        store.wf(),
        scannable(t),
        pinned(t, sc),
        0 <= i < store.table(t)@.len(),
        emitted(sc, store.table(t)@[i]),
    ensures
        store.table(t)@[i].0.len() == pin(sc).len() + 8,
        starts_with(store.table(t)@[i].0, pin(sc)),
{
    let a = store.table(t)@[i];
    lemma_key_len(store, t, i);
    if sc.matcher is Any {
        assert(a.0.subrange(0, 0) =~= pin(sc));
    }
}

/// Of two entries of one table of a store in order with one key, the one
/// with the lesser value has the lesser identifier.
pub proof fn lemma_values_in_order(store: &Store, t: Table, i: int, j: int)
    requires
        store.wf(),
        scannable(t),
        0 <= i < store.table(t)@.len(),
        0 <= j < store.table(t)@.len(),
        lex_lt(store.table(t)@[i].1, store.table(t)@[j].1),
    ensures
        key_of(store.table(t)@[i]).uid < key_of(store.table(t)@[j]).uid,
{
    let tree = store.table(t)@;
    let live = store@.live;
    let c = store@.compress;
    let a = tree[i];
    let b = tree[j];
    store.lemma_wf();
    store.lemma_table_wf(t);
    assert(tree.contains(a) && tree.contains(b));
    assert(store.table(t).pairs().contains(a) && store.table(t).pairs().contains(b));
    let ua = choose|u: u64| #[trigger] has_entry(t, live, c, u, a);
    let ub = choose|u: u64| #[trigger] has_entry(t, live, c, u, b);
    assert(live.contains_key(ua) && live.contains_key(ub));
    crate::model::lemma_entry_form(t, ua, live[ua], c, a);
    crate::model::lemma_entry_form(t, ub, live[ub], c, b);
    lemma_be64_roundtrip(ua);
    lemma_be64_roundtrip(ub);
    assert(a.1.subrange(0, 8) =~= be64(ua));
    assert(b.1.subrange(0, 8) =~= be64(ub));
    lemma_be64_order(ua, ub);
    if t is Tag {
        if ua == ub {
            lemma_lex_irreflexive(a.1);
        } else {
            lemma_be64_injective(ua, ub);
            lemma_lex_heads(be64(ua), be64(live[ua].index.kind), be64(ub), be64(live[ub].index.kind));
        }
    }
}

/// Two entries of one table of a store in order that a pinned scan takes
/// for results are in the order of their times and, at one time, of their
/// identifiers.
pub proof fn lemma_entries_in_order(store: &Store, t: Table, sc: ScanView, i: int, j: int)
    requires
        store.wf(),
        scannable(t),
        pinned(t, sc),
        0 <= i < j < store.table(t)@.len(),
        emitted(sc, store.table(t)@[i]),
        emitted(sc, store.table(t)@[j]),
    ensures
        before(key_of(store.table(t)@[i]), key_of(store.table(t)@[j]), false),
        before(key_of(store.table(t)@[j]), key_of(store.table(t)@[i]), true),
{
    let tree = store.table(t)@;
    let a = tree[i];
    let b = tree[j];
    store.lemma_table_wf(t);
    lemma_emitted_form(store, t, sc, i);
    lemma_emitted_form(store, t, sc, j);
    crate::bytes::lemma_timed_keys(pin(sc), a.0, b.0);
    assert(pair_lt(a, b));
    if a.0 == b.0 {
        lemma_values_in_order(store, t, i, j);
    }
}

/// Along the walk of a pinned scan over a table of a store in order, the
/// entries that the scan takes for results come in strict order.
pub proof fn lemma_walk_strict(store: &Store, t: Table, sc: ScanView)
    requires
        store.wf(),
        scannable(t),
        pinned(t, sc),
    ensures
        walk_strict(sc, scan_domain(store.table(t)@, sc.prefix, sc.reverse)),
{
    let tree = store.table(t)@;
    let d = scan_domain(tree, sc.prefix, sc.reverse);
    let edge = start_edge(tree, sc.prefix, sc.reverse);
    store.lemma_table_wf(t);
    lemma_ranks(tree, sc.prefix);
    if upper_spec(sc.prefix) is Some {
        lemma_ranks(tree, upper_spec(sc.prefix).unwrap());
    }
    assert forall|x: int, y: int|
        0 <= x < y < d.len() && emitted(sc, #[trigger] d[x]) && emitted(
            sc,
            #[trigger] d[y],
        ) implies before(key_of(d[x]), key_of(d[y]), sc.reverse) by {
        if sc.reverse {
            assert(d[x] == tree[edge - 1 - x] && d[y] == tree[edge - 1 - y]);
            lemma_entries_in_order(store, t, sc, edge - 1 - y, edge - 1 - x);
        } else {
            assert(d[x] == tree[edge + x] && d[y] == tree[edge + y]);
            lemma_entries_in_order(store, t, sc, edge + x, edge + y);
        }
    }
}

/// The lanes of pinned scans over a table of a store in order are strictly
/// in order.
pub proof fn lemma_plan_lanes_strict(store: &Store, t: Table, plan: Seq<ScanView>, reverse: bool)
    requires
        store.wf(),
        forall|i: int|
            0 <= i < plan.len() ==> pinned(t, #[trigger] plan[i]) && fits(t, plan[i].matcher)
                && plan[i].reverse == reverse,
    ensures
        lanes_strict(plan_lanes(store.table(t)@, plan), reverse),
{
    let tree = store.table(t)@;
    let lanes = plan_lanes(tree, plan);
    store.lemma_table_wf(t);
    assert forall|l: int| 0 <= l < lanes.len() implies lane_strict(
        #[trigger] lanes[l],
        reverse,
    ) by {
        let sc = plan[l];
        assert(pinned(t, sc));
        let d = scan_domain(tree, sc.prefix, sc.reverse);
        let edge = start_edge(tree, sc.prefix, sc.reverse);
        lemma_ranks(tree, sc.prefix);
        if upper_spec(sc.prefix) is Some {
            lemma_ranks(tree, upper_spec(sc.prefix).unwrap());
        }
        assert forall|x: int| 0 <= x < d.len() implies readable(
            sc.matcher,
            (#[trigger] d[x]).0,
            d[x].1,
        ) by {
            let at = if sc.reverse {
                edge - 1 - x
            } else {
                edge + x
            };
            assert(d[x] == tree[at]);
            store.lemma_table_shaped(t, at);
        }
        lemma_walk_strict(store, t, sc);
        lemma_output_strict(sc, d);
    }
}

/// Every text that the plan decodes spells a whole id or a whole public
/// key.
pub open spec fn whole_keys(f: FilterView) -> bool {
    decoded_texts(f) matches Some(texts) ==> forall|i: int|
        0 <= i < texts.len() ==> (#[trigger] texts[i]).len() == 64
}

proof fn lemma_author_kind_plan_pinned(f: FilterView, n: int)
    requires
        f.authors is Some,
        f.kinds is Some,
        0 <= n <= f.authors.unwrap().len(),
        forall|i: int| 0 <= i < f.authors.unwrap().len() ==> (#[trigger] f.authors.unwrap()[i]).len()
            == 64,
    ensures
        forall|i: int|
            0 <= i < author_kind_plan_upto(f, n).len() ==> pinned(
                Table::PubkeyKind,
                #[trigger] author_kind_plan_upto(f, n)[i],
            ) && fits(Table::PubkeyKind, author_kind_plan_upto(f, n)[i].matcher)
                && author_kind_plan_upto(f, n)[i].reverse == f.desc,
    decreases n,
{
    if n > 0 {
        lemma_author_kind_plan_pinned(f, n - 1);
        let text = f.authors.unwrap()[n - 1];
        let more = author_scans(f, text);
        let done = author_kind_plan_upto(f, n - 1);
        assert forall|j: int| 0 <= j < more.len() implies pinned(
            Table::PubkeyKind,
            #[trigger] more[j],
        ) && fits(Table::PubkeyKind, more[j].matcher) && more[j].reverse == f.desc by {
            lemma_be64_roundtrip(f.kinds.unwrap()[j]);
        }
        assert forall|i: int| 0 <= i < (done + more).len() implies pinned(
            Table::PubkeyKind,
            #[trigger] (done + more)[i],
        ) && fits(Table::PubkeyKind, (done + more)[i].matcher) && (done + more)[i].reverse
            == f.desc by {
            if i >= done.len() {
                assert((done + more)[i] == more[i - done.len()]);
            } else {
                assert((done + more)[i] == done[i]);
            }
        }
    }
}

proof fn lemma_tag_plan_pinned(f: FilterView, n: int)
    ensures
        forall|i: int|
            0 <= i < tag_plan_upto(f, n).len() ==> pinned(
                Table::Tag,
                #[trigger] tag_plan_upto(f, n)[i],
            ) && fits(Table::Tag, tag_plan_upto(f, n)[i].matcher) && tag_plan_upto(f, n)[i].reverse
                == f.desc,
    decreases n,
{
    if n > 0 {
        lemma_tag_plan_pinned(f, n - 1);
        let done = tag_plan_upto(f, n - 1);
        let more = Seq::new(
            f.tags[n - 1].1.len(),
            |j: int| tag_scan(f, f.tags[n - 1].0, f.tags[n - 1].1[j]),
        );
        assert forall|i: int| 0 <= i < (done + more).len() implies pinned(
            Table::Tag,
            #[trigger] (done + more)[i],
        ) && fits(Table::Tag, (done + more)[i].matcher) && (done + more)[i].reverse == f.desc by {
            if i >= done.len() {
                assert((done + more)[i] == more[i - done.len()]);
            } else {
                assert((done + more)[i] == done[i]);
            }
        }
    }
}

/// The scans of a plan that decodes whole keys only are pinned.
pub proof fn lemma_chosen_pinned(f: FilterView)
    requires
        whole_keys(f),
    ensures
        scannable(chosen(f).table),
        forall|i: int|
            0 <= i < chosen(f).plan.len() ==> pinned(chosen(f).table, #[trigger] chosen(f).plan[i])
                && fits(chosen(f).table, chosen(f).plan[i].matcher) && chosen(f).plan[i].reverse
                == f.desc,
{
    let ch = chosen(f);
    if f.words is Some {
    } else if f.ids is Some {
    } else if f.tags.len() > 0 {
        lemma_tag_plan_pinned(f, f.tags.len() as int);
    } else if f.authors is Some && f.kinds is Some {
        lemma_author_kind_plan_pinned(f, f.authors.unwrap().len() as int);
    } else if f.authors is Some {
    } else if f.kinds is Some {
        assert forall|i: int| 0 <= i < ch.plan.len() implies pinned(
            ch.table,
            #[trigger] ch.plan[i],
        ) by {
            lemma_be64_roundtrip(f.kinds.unwrap()[i]);
        }
    } else {
    }
}

/// The candidates of a query come in order: by time, then by identifier,
/// upwards or downwards as the filter says. This holds of every filter
/// whose ids and authors, where they drive the query, are whole keys.
///
/// Where the plan lets a result of several scans come out once, as it does
/// under tags and under words, no candidate comes twice.
pub proof fn lemma_candidates_ordered(store: &Store, f: FilterView)
    requires
        store.wf(),
        whole_keys(f),
    ensures
        lane_ordered(
            merged(
                plan_lanes(store.table(chosen(f).table)@, chosen(f).plan),
                f.desc,
                chosen(f).and,
                chosen(f).dedup,
            ),
            f.desc,
        ),
        chosen(f).and || chosen(f).dedup ==> lane_strict(
            merged(
                plan_lanes(store.table(chosen(f).table)@, chosen(f).plan),
                f.desc,
                chosen(f).and,
                chosen(f).dedup,
            ),
            f.desc,
        ),
{
    let ch = chosen(f);
    let lanes = plan_lanes(store.table(ch.table)@, ch.plan);
    let k0 = IndexKey { time: 0, uid: 0, kind: None };
    lemma_chosen_pinned(f);
    lemma_plan_lanes_strict(store, ch.table, ch.plan, f.desc);
    crate::order::lemma_strict_is_ordered(lanes, f.desc);
    crate::order::lemma_merged_ordered(lanes, f.desc, ch.and, ch.dedup, k0);
    if ch.and || ch.dedup {
        crate::order::lemma_merged_strict(lanes, f.desc, ch.and, ch.dedup, k0);
    }
}

/// The matcher tells by the bytes of the key before the time alone.
pub open spec fn plain(sc: ScanView) -> bool {
    match sc.matcher {
        MatcherView::Hex { odd } => !odd,
        MatcherView::HexKinds { odd, kinds } => false,
        _ => true,
    }
}

/// Every key of `tree` that the scan could take is the pin of the scan
/// followed by the eight bytes of a time and nothing else.
pub open spec fn tight(tree: Seq<Pair>, sc: ScanView) -> bool {
    forall|i: int|
        0 <= i < tree.len() && (sc.matcher is Any || starts_with((#[trigger] tree[i]).0, sc.prefix))
            ==> tree[i].0.len() == pin(sc).len() + 8
}

/// The walk of the scan passes every entry that the scan would take.
pub open spec fn reachable(tree: Seq<Pair>, sc: ScanView) -> bool {
    forall|i: int|
        0 <= i < tree.len() && emitted(sc, #[trigger] tree[i]) ==> if sc.reverse {
            i < start_edge(tree, sc.prefix, sc.reverse)
        } else {
            i >= start_edge(tree, sc.prefix, sc.reverse)
        }
}

/// The scan does not stop at an entry that the walk passes before an entry
/// that the scan takes.
proof fn lemma_no_stop_before(tree: Seq<Pair>, sc: ScanView, iq: int, ip: int)
    requires
        sorted(tree),
        plain(sc),
        tight(tree, sc),
        0 <= ip < tree.len(),
        0 <= iq < tree.len(),
        emitted(sc, tree[ip]),
        readable(sc.matcher, tree[iq].0, tree[iq].1),
        if sc.reverse {
            ip < iq < start_edge(tree, sc.prefix, sc.reverse)
        } else {
            start_edge(tree, sc.prefix, sc.reverse) <= iq < ip
        },
    ensures
        !(sc.examine(tree[iq].0, tree[iq].1) matches Ok(MatchResult::Stop)),
{
    let p = tree[ip];
    let q = tree[iq];
    let pre = sc.prefix;
    lemma_ranks(tree, pre);
    if upper_spec(pre) is Some {
        lemma_ranks(tree, upper_spec(pre).unwrap());
    }
    if sc.reverse {
        assert(pair_lt(p, q));
    } else {
        assert(pair_lt(q, p));
    }
    if !(sc.matcher is Any) {
        assert(starts_with(p.0, pre));
        lemma_prefix_range(pre, p.0);
        lemma_prefix_range(pre, q.0);
        crate::bytes::lemma_lex_trichotomy(q.0, pre);
        if sc.reverse {
            crate::bytes::lemma_lex_le_transitive(pre, p.0, q.0);
        } else {
            if upper_spec(pre) is Some {
                crate::bytes::lemma_lex_le_transitive(q.0, p.0, upper_spec(pre).unwrap());
            }
        }
        assert(starts_with(q.0, pre));
    }
    let pn = pin(sc);
    assert(starts_with(p.0, pn)) by {
        if sc.matcher is Any {
            assert(p.0.subrange(0, 0) =~= pn);
        }
    }
    assert(starts_with(q.0, pn)) by {
        if sc.matcher is Any {
            assert(q.0.subrange(0, 0) =~= pn);
        }
    }
    crate::bytes::lemma_timed_keys(pn, p.0, q.0);
    crate::bytes::lemma_timed_keys(pn, q.0, p.0);
    crate::bytes::lemma_lex_trichotomy(p.0, q.0);
}

/// A scan that does not stop before an entry that it takes yields that
/// entry.
proof fn lemma_output_has(sc: ScanView, d: Seq<Pair>, x: int)
    requires
        0 <= x < d.len(),
        emitted(sc, d[x]),
        forall|y: int| 0 <= y < x ==> sc.examine((#[trigger] d[y]).0, d[y].1) is Ok && !(sc.examine(
            d[y].0,
            d[y].1,
        ) matches Ok(MatchResult::Stop)),
    ensures
        has(sc.output(d), key_of(d[x])),
    decreases d.len(),
{
    let out = sc.output(d);
    if x == 0 {
        assert(out[0] == Ok::<IndexKey, Error>(key_of(d[0])));
        assert(out[0] is Ok);
    } else {
        let rest = d.skip(1);
        assert(rest[x - 1] == d[x]);
        assert forall|y: int| 0 <= y < x - 1 implies sc.examine((#[trigger] rest[y]).0, rest[y].1)
            is Ok && !(sc.examine(rest[y].0, rest[y].1) matches Ok(MatchResult::Stop)) by {
            assert(rest[y] == d[y + 1]);
        }
        lemma_output_has(sc, rest, x - 1);
        let tail = sc.output(rest);
        let j = choose|j: int|
            0 <= j < tail.len() && (#[trigger] tail[j]) is Ok && crate::group::same_key(
                tail[j]->Ok_0,
                key_of(d[x]),
            );
        assert(sc.examine(d[0].0, d[0].1) is Ok);
        match sc.examine(d[0].0, d[0].1) {
            Ok(MatchResult::Found(key)) => {
                assert(out =~= seq![Ok(key)] + tail);
                assert(out[j + 1] == tail[j]);
            },
            Ok(MatchResult::Continue) => {
                assert(out == tail);
            },
            _ => {},
        }
    }
}

/// Where entry `x` of the walk of a scan lies in the table.
pub open spec fn walk_index(tree: Seq<Pair>, sc: ScanView, x: int) -> int {
    if sc.reverse {
        start_edge(tree, sc.prefix, sc.reverse) - 1 - x
    } else {
        start_edge(tree, sc.prefix, sc.reverse) + x
    }
}

/// The walk of a scan passes the entries of the table from its starting edge
/// on, in its direction.
proof fn lemma_walk_index(tree: Seq<Pair>, sc: ScanView, x: int)
    requires
        sorted(tree),
        0 <= x < scan_domain(tree, sc.prefix, sc.reverse).len(),
    ensures
        0 <= walk_index(tree, sc, x) < tree.len(),
        scan_domain(tree, sc.prefix, sc.reverse)[x] == tree[walk_index(tree, sc, x)],
        0 <= start_edge(tree, sc.prefix, sc.reverse) <= tree.len(),
        scan_domain(tree, sc.prefix, sc.reverse).len() == if sc.reverse {
            start_edge(tree, sc.prefix, sc.reverse)
        } else {
            tree.len() - start_edge(tree, sc.prefix, sc.reverse)
        },
{
    lemma_ranks(tree, sc.prefix);
    if upper_spec(sc.prefix) is Some {
        lemma_ranks(tree, upper_spec(sc.prefix).unwrap());
    }
}

/// The length of the walk of a scan.
proof fn lemma_walk_len(tree: Seq<Pair>, sc: ScanView)
    requires
        sorted(tree),
    ensures
        0 <= start_edge(tree, sc.prefix, sc.reverse) <= tree.len(),
        scan_domain(tree, sc.prefix, sc.reverse).len() == if sc.reverse {
            start_edge(tree, sc.prefix, sc.reverse)
        } else {
            tree.len() - start_edge(tree, sc.prefix, sc.reverse)
        },
{
    lemma_ranks(tree, sc.prefix);
    if upper_spec(sc.prefix) is Some {
        lemma_ranks(tree, upper_spec(sc.prefix).unwrap());
    }
}

/// What the lane of a scan holds was read from an entry of the table that
/// the scan takes.
proof fn lemma_lane_from_tree(tree: Seq<Pair>, sc: ScanView, k: IndexKey)
    requires
        sorted(tree),
        has(sc.output(scan_domain(tree, sc.prefix, sc.reverse)), k),
    ensures
        exists|i: int|
            0 <= i < tree.len() && emitted(sc, #[trigger] tree[i]) && crate::group::same_key(
                key_of(tree[i]),
                k,
            ),
{
    let d = scan_domain(tree, sc.prefix, sc.reverse);
    let out = sc.output(d);
    lemma_output_from(sc, d);
    let j = choose|j: int|
        0 <= j < out.len() && (#[trigger] out[j]) is Ok && crate::group::same_key(out[j]->Ok_0, k);
    let x = choose|x: int|
        0 <= x < d.len() && emitted(sc, #[trigger] d[x]) && out[j] == Ok::<IndexKey, Error>(
            key_of(d[x]),
        );
    lemma_walk_index(tree, sc, x);
    let i = walk_index(tree, sc, x);
    assert(emitted(sc, tree[i]) && crate::group::same_key(key_of(tree[i]), k));
}

/// The lane of a scan holds a result for each entry of the table that the
/// scan takes.
proof fn lemma_lane_has_entry(tree: Seq<Pair>, sc: ScanView, i: int)
    requires
        sorted(tree),
        plain(sc),
        tight(tree, sc),
        reachable(tree, sc),
        forall|i: int| 0 <= i < tree.len() ==> readable(sc.matcher, (#[trigger] tree[i]).0, tree[i].1),
        0 <= i < tree.len(),
        emitted(sc, tree[i]),
    ensures
        has(sc.output(scan_domain(tree, sc.prefix, sc.reverse)), key_of(tree[i])),
{
    let d = scan_domain(tree, sc.prefix, sc.reverse);
    let edge = start_edge(tree, sc.prefix, sc.reverse);
    lemma_walk_len(tree, sc);
    let x = if sc.reverse {
        edge - 1 - i
    } else {
        i - edge
    };
    assert(0 <= x < d.len());
    lemma_walk_index(tree, sc, x);
    assert forall|y: int| 0 <= y < x implies sc.examine((#[trigger] d[y]).0, d[y].1) is Ok && !(
    sc.examine(d[y].0, d[y].1) matches Ok(MatchResult::Stop)) by {
        lemma_walk_index(tree, sc, y);
        let iq = walk_index(tree, sc, y);
        sc.lemma_readable(tree[iq].0, tree[iq].1);
        lemma_no_stop_before(tree, sc, iq, i);
    }
    lemma_output_has(sc, d, x);
}

/// The lane of a scan holds a result for every entry of the table that the
/// scan takes, and for no other.
pub proof fn lemma_lane_holds(tree: Seq<Pair>, sc: ScanView, k: IndexKey)
    requires
        sorted(tree),
        plain(sc),
        tight(tree, sc),
        reachable(tree, sc),
        forall|i: int| 0 <= i < tree.len() ==> readable(sc.matcher, (#[trigger] tree[i]).0, tree[i].1),
    ensures
        has(sc.output(scan_domain(tree, sc.prefix, sc.reverse)), k) <==> exists|i: int|
            0 <= i < tree.len() && emitted(sc, #[trigger] tree[i]) && crate::group::same_key(
                key_of(tree[i]),
                k,
            ),
{
    let out = sc.output(scan_domain(tree, sc.prefix, sc.reverse));
    if has(out, k) {
        lemma_lane_from_tree(tree, sc, k);
    }
    if exists|i: int|
        0 <= i < tree.len() && emitted(sc, #[trigger] tree[i]) && crate::group::same_key(
            key_of(tree[i]),
            k,
        ) {
        let i = choose|i: int|
            0 <= i < tree.len() && emitted(sc, #[trigger] tree[i]) && crate::group::same_key(
                key_of(tree[i]),
                k,
            );
        lemma_lane_has_entry(tree, sc, i);
        let j = choose|j: int|
            0 <= j < out.len() && (#[trigger] out[j]) is Ok && crate::group::same_key(
                out[j]->Ok_0,
                key_of(tree[i]),
            );
        assert(crate::group::same_key(out[j]->Ok_0, k));
    }
}

/// Every result of a scan is read from an entry that the scan takes.
pub proof fn lemma_output_from(sc: ScanView, d: Seq<Pair>)
    ensures
        forall|j: int|
            0 <= j < sc.output(d).len() && (#[trigger] sc.output(d)[j]) is Ok ==> exists|x: int|
                0 <= x < d.len() && emitted(sc, #[trigger] d[x]) && sc.output(d)[j] == Ok::<
                    IndexKey,
                    Error,
                >(key_of(d[x])),
    decreases d.len(),
{
    if d.len() > 0 {
        let rest = d.skip(1);
        lemma_output_from(sc, rest);
        let tail = sc.output(rest);
        let out = sc.output(d);
        assert forall|j: int| 0 <= j < tail.len() && (#[trigger] tail[j]) is Ok implies exists|
            x: int,
        |
            0 <= x < d.len() && emitted(sc, #[trigger] d[x]) && tail[j] == Ok::<IndexKey, Error>(
                key_of(d[x]),
            ) by {
            let x = choose|x: int|
                0 <= x < rest.len() && emitted(sc, #[trigger] rest[x]) && tail[j] == Ok::<
                    IndexKey,
                    Error,
                >(key_of(rest[x]));
            assert(rest[x] == d[x + 1]);
        }
        match sc.examine(d[0].0, d[0].1) {
            Ok(MatchResult::Found(key)) => {
                assert(out =~= seq![Ok(key)] + tail);
                assert forall|j: int| 0 <= j < out.len() && (#[trigger] out[j]) is Ok implies exists|
                    x: int,
                |
                    0 <= x < d.len() && emitted(sc, #[trigger] d[x]) && out[j] == Ok::<
                        IndexKey,
                        Error,
                    >(key_of(d[x])) by {
                    if j == 0 {
                        assert(emitted(sc, d[0]));
                    } else {
                        assert(out[j] == tail[j - 1]);
                    }
                }
            },
            Ok(MatchResult::Continue) => {
                assert(out == tail);
            },
            Ok(MatchResult::Stop) => {},
            Err(e) => {
                assert(out =~= seq![Err(e)] + tail);
                assert forall|j: int| 0 <= j < out.len() && (#[trigger] out[j]) is Ok implies exists|
                    x: int,
                |
                    0 <= x < d.len() && emitted(sc, #[trigger] d[x]) && out[j] == Ok::<
                        IndexKey,
                        Error,
                    >(key_of(d[x])) by {
                    if j > 0 {
                        assert(out[j] == tail[j - 1]);
                    }
                }
            },
        }
    }
}

/// The identifier that is read from an entry of a table of a store in
/// order is that of a live event, and the entry is one of the entries of
/// that event.
pub proof fn lemma_key_uid_live(store: &Store, t: Table, i: int)
    requires
        store.wf(),
        scannable(t),
        0 <= i < store.table(t)@.len(),
    ensures
        store@.live.contains_key(key_of(store.table(t)@[i]).uid),
        entries(
            t,
            key_of(store.table(t)@[i]).uid,
            store@.live[key_of(store.table(t)@[i]).uid],
            store@.compress,
        ).contains(store.table(t)@[i]),
        key_of(store.table(t)@[i]).time == crate::model::entry_time(
            t,
            store@.live[key_of(store.table(t)@[i]).uid],
        ),
{
    let tree = store.table(t)@;
    let live = store@.live;
    let c = store@.compress;
    let a = tree[i];
    store.lemma_wf();
    store.lemma_table_wf(t);
    assert(tree.contains(a));
    assert(store.table(t).pairs().contains(a));
    let ua = choose|u: u64| #[trigger] has_entry(t, live, c, u, a);
    assert(live.contains_key(ua));
    crate::model::lemma_entry_form(t, ua, live[ua], c, a);
    lemma_be64_roundtrip(ua);
    lemma_be64_roundtrip(crate::model::entry_time(t, live[ua]));
    assert(a.1.subrange(0, 8) =~= be64(ua));
}

/// Every result in the lanes of scans over a table of a store in order is
/// for a live event.
pub proof fn lemma_plan_lanes_live(store: &Store, t: Table, plan: Seq<ScanView>)
    requires
        store.wf(),
        scannable(t),
    ensures
        crate::answers::lanes_live(plan_lanes(store.table(t)@, plan), store@.live),
{
    let tree = store.table(t)@;
    let lanes = plan_lanes(tree, plan);
    store.lemma_table_wf(t);
    assert forall|l: int, j: int|
        0 <= l < lanes.len() && 0 <= j < lanes[l].len() && (#[trigger] lanes[l][j])
            is Ok implies store@.live.contains_key(lanes[l][j]->Ok_0.uid) by {
        let sc = plan[l];
        let d = scan_domain(tree, sc.prefix, sc.reverse);
        let edge = start_edge(tree, sc.prefix, sc.reverse);
        lemma_ranks(tree, sc.prefix);
        if upper_spec(sc.prefix) is Some {
            lemma_ranks(tree, upper_spec(sc.prefix).unwrap());
        }
        lemma_output_from(sc, d);
        let x = choose|x: int|
            0 <= x < d.len() && emitted(sc, #[trigger] d[x]) && lanes[l][j] == Ok::<
                IndexKey,
                Error,
            >(key_of(d[x]));
        let at = if sc.reverse {
            edge - 1 - x
        } else {
            edge + x
        };
        assert(d[x] == tree[at]);
        lemma_key_uid_live(store, t, at);
    }
}

/// The scan takes an entry of `tree` for the event and time of `k`.
pub open spec fn takes(tree: Seq<Pair>, sc: ScanView, k: IndexKey) -> bool {
    exists|i: int|
        0 <= i < tree.len() && emitted(sc, #[trigger] tree[i]) && crate::group::same_key(
            key_of(tree[i]),
            k,
        )
}

/// The scans make the event and time of `k` a candidate: one of them takes
/// an entry for it or, with `and`, all of them do.
pub open spec fn candidate(tree: Seq<Pair>, plan: Seq<ScanView>, and: bool, k: IndexKey) -> bool {
    if and {
        forall|l: int| 0 <= l < plan.len() ==> takes(tree, #[trigger] plan[l], k)
    } else {
        exists|l: int| 0 <= l < plan.len() && takes(tree, #[trigger] plan[l], k)
    }
}

/// The scans of a plan over table `t` are such that walking stands for
/// looking at every entry: each scan is pinned, reads what the table holds,
/// goes the way of the merge, passes every entry that it would take, and
/// finds no key that starts like its own and goes on otherwise. With `and`
/// there is a scan; and where a result of several scans would come out more
/// than once, no two scans have a result for one event.
pub open spec fn sound_plan(store: &Store, t: Table, plan: Seq<ScanView>, g: Merge) -> bool {
    &&& scannable(t)
    &&& forall|i: int|
        0 <= i < plan.len() ==> pinned(t, #[trigger] plan[i]) && fits(t, plan[i].matcher)
            && plan[i].reverse == g.reverse && tight(store.table(t)@, plan[i]) && reachable(
            store.table(t)@,
            plan[i],
        )
    &&& g.and ==> plan.len() > 0
    &&& g.and || g.dedup || crate::order::lanes_apart(plan_lanes(store.table(t)@, plan))
}

/// What the merged stream of a sound plan holds is the candidates.
pub proof fn lemma_merged_candidates(
    store: &Store,
    t: Table,
    plan: Seq<ScanView>,
    g: Merge,
    k: IndexKey,
)
    requires
        store.wf(),
        sound_plan(store, t, plan, g),
    ensures
        has(merged(plan_lanes(store.table(t)@, plan), g.reverse, g.and, g.dedup), k) <==> candidate(
            store.table(t)@,
            plan,
            g.and,
            k,
        ),
{
    let tree = store.table(t)@;
    let lanes = plan_lanes(tree, plan);
    store.lemma_table_wf(t);
    lemma_plan_lanes_strict(store, t, plan, g.reverse);
    crate::order::lemma_strict_is_ordered(lanes, g.reverse);
    assert forall|l: int| 0 <= l < plan.len() implies (has(#[trigger] lanes[l], k) <==> takes(
        tree,
        plan[l],
        k,
    )) by {
        let sc = plan[l];
        assert(pinned(t, sc));
        assert forall|i: int| 0 <= i < tree.len() implies readable(
            sc.matcher,
            (#[trigger] tree[i]).0,
            tree[i].1,
        ) by {
            store.lemma_table_shaped(t, i);
        }
        lemma_lane_holds(tree, sc, k);
    }
    if g.and {
        crate::order::lemma_merged_intersection(lanes, g.reverse, g.dedup, k);
        if crate::order::has_all(lanes, k) {
            assert forall|l: int| 0 <= l < plan.len() implies takes(tree, #[trigger] plan[l], k) by {
                assert(has(lanes[l], k));
            }
        }
        if candidate(tree, plan, g.and, k) {
            assert forall|l: int| 0 <= l < lanes.len() implies has(#[trigger] lanes[l], k) by {
                assert(takes(tree, plan[l], k));
            }
        }
    } else {
        crate::order::lemma_merged_union(lanes, g.reverse, g.dedup, k);
        if crate::order::has_any(lanes, k) {
            let l = choose|l: int| 0 <= l < lanes.len() && has(#[trigger] lanes[l], k);
            assert(takes(tree, plan[l], k));
        }
        if candidate(tree, plan, g.and, k) {
            let l = choose|l: int| 0 <= l < plan.len() && takes(tree, #[trigger] plan[l], k);
            assert(has(lanes[l], k));
        }
    }
}

/// The merged stream of a sound plan comes strictly in order.
pub proof fn lemma_merged_sound_strict(store: &Store, t: Table, plan: Seq<ScanView>, g: Merge)
    requires
        store.wf(),
        sound_plan(store, t, plan, g),
    ensures
        lane_strict(
            merged(plan_lanes(store.table(t)@, plan), g.reverse, g.and, g.dedup),
            g.reverse,
        ),
{
    let tree = store.table(t)@;
    let lanes = plan_lanes(tree, plan);
    let k0 = IndexKey { time: 0, uid: 0, kind: None };
    lemma_plan_lanes_strict(store, t, plan, g.reverse);
    crate::order::lemma_strict_is_ordered(lanes, g.reverse);
    if g.and || g.dedup {
        crate::order::lemma_merged_strict(lanes, g.reverse, g.and, g.dedup, k0);
    } else {
        crate::order::lemma_apart_dedup(lanes, g.reverse);
        crate::order::lemma_merged_strict(lanes, g.reverse, false, true, k0);
    }
}

/// The walk of a scan that tells its entries by their start passes every
/// entry that the scan would take.
pub proof fn lemma_reachable_prefix(tree: Seq<Pair>, sc: ScanView)
    requires
        sorted(tree),
        plain(sc),
        !(sc.matcher is Any),
    ensures
        reachable(tree, sc),
{
    let pre = sc.prefix;
    lemma_ranks(tree, pre);
    if upper_spec(pre) is Some {
        lemma_ranks(tree, upper_spec(pre).unwrap());
    }
    assert forall|i: int| 0 <= i < tree.len() && emitted(sc, #[trigger] tree[i]) implies if sc.reverse {
        i < start_edge(tree, sc.prefix, sc.reverse)
    } else {
        i >= start_edge(tree, sc.prefix, sc.reverse)
    } by {
        assert(starts_with(tree[i].0, pre));
        lemma_prefix_range(pre, tree[i].0);
        crate::bytes::lemma_lex_trichotomy(tree[i].0, pre);
        if sc.reverse && upper_spec(pre) is Some {
            let u = upper_spec(pre).unwrap();
            let edge = crate::tree::rank_below(tree, u);
            if i >= edge {
                assert(!lex_lt(tree[i].0, u));
            }
        }
        if !sc.reverse {
            let edge = crate::tree::rank_below(tree, pre);
            if i < edge {
                assert(lex_lt(tree[i].0, pre));
            }
        }
    }
}

/// In a table whose keys are all of one length, a pinned scan finds no key
/// that starts like its own and goes on otherwise.
pub proof fn lemma_tight_fixed(store: &Store, t: Table, sc: ScanView)
    requires
        store.wf(),
        scannable(t),
        pinned(t, sc),
        !(sc.matcher is Exact),
        !(sc.matcher is Tag),
    ensures
        tight(store.table(t)@, sc),
{
    let tree = store.table(t)@;
    assert forall|i: int|
        0 <= i < tree.len() && (sc.matcher is Any || starts_with((#[trigger] tree[i]).0, sc.prefix))
        implies tree[i].0.len() == pin(sc).len() + 8 by {
        lemma_key_len(store, t, i);
    }
}

/// The lane of a pinned scan over a table of a store in order holds a
/// result for an event and a time exactly if the scan takes an entry for
/// them.
pub proof fn lemma_lane_takes(store: &Store, t: Table, sc: ScanView, k: IndexKey)
    requires
        store.wf(),
        scannable(t),
        pinned(t, sc),
        fits(t, sc.matcher),
        tight(store.table(t)@, sc),
        reachable(store.table(t)@, sc),
    ensures
        has(
            sc.output(scan_domain(store.table(t)@, sc.prefix, sc.reverse)),
            k,
        ) <==> takes(store.table(t)@, sc, k),
{
    let tree = store.table(t)@;
    store.lemma_table_wf(t);
    assert forall|i: int| 0 <= i < tree.len() implies readable(
        sc.matcher,
        (#[trigger] tree[i]).0,
        tree[i].1,
    ) by {
        store.lemma_table_shaped(t, i);
    }
    lemma_lane_holds(tree, sc, k);
}

} // verus!
