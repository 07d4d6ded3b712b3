//! What a query answers: the payloads of the candidates that pass, in the
//! order of the merged stream, up to the limit.

use vstd::prelude::*;
use crate::error::Error;
use crate::event::EventView;
use crate::filter::FilterView;
use crate::group::{all_fronts_same, before, drop_fronts, front, is_best, is_first_error, lemma_merge_next_shrinks, lemma_total_shrinks, merge_next, taken, total, Item};
use crate::key::IndexKey;
use crate::order::{lane_strict, lanes_ordered, merged};
use crate::payload::stored_payload;
use crate::plan::MatchIndex;
use crate::query::{accepts, fetch, lemma_fetch_shrinks, limit_met, results, Merge};
use crate::scanner::capped_sum;

verus! {

/// Whether a candidate passes what is held against its index record.
pub open spec fn passes(live: Map<u64, EventView>, f: FilterView, m: MatchIndex, k: IndexKey) -> bool {
    m is Off || (live.contains_key(k.uid) && accepts(m, f, live[k.uid].index))
}

/// Every result of the lanes is for a live event.
pub open spec fn lanes_live(lanes: Seq<Seq<Item>>, live: Map<u64, EventView>) -> bool {
    forall|l: int, i: int|
        0 <= l < lanes.len() && 0 <= i < lanes[l].len() && (#[trigger] lanes[l][i]) is Ok
            ==> live.contains_key(lanes[l][i]->Ok_0.uid)
}

/// The candidates that pass, in their order, until the limit is met.
pub open spec fn picked(
    cands: Seq<Item>,
    live: Map<u64, EventView>,
    f: FilterView,
    m: MatchIndex,
    got: u64,
) -> Seq<IndexKey>
    decreases cands.len(),
{
    if cands.len() == 0 || limit_met(f.limit, got) {
        Seq::empty()
    } else {
        let k = cands[0]->Ok_0;
        if passes(live, f, m, k) {
            seq![k] + picked(cands.skip(1), live, f, m, capped_sum(got, 1))
        } else {
            picked(cands.skip(1), live, f, m, got)
        }
    }
}

/// The stored payloads of a list of candidates.
pub open spec fn payloads(keys: Seq<IndexKey>, live: Map<u64, EventView>, compress: bool) -> Seq<
    Result<Seq<u8>, Error>,
> {
    Seq::new(
        keys.len(),
        |i: int| Ok(stored_payload(live[keys[i].uid].payload, compress).unwrap()),
    )
}

/// One pull from lanes whose results are all for live events leaves such
/// lanes and yields such a result.
pub proof fn lemma_merge_next_live(
    lanes: Seq<Seq<Item>>,
    reverse: bool,
    and: bool,
    dedup: bool,
    live: Map<u64, EventView>,
)
    requires
        lanes_live(lanes, live),
    ensures
        lanes_live(merge_next(lanes, reverse, and, dedup).1, live),
        merge_next(lanes, reverse, and, dedup).0 matches Some(Ok(k)) ==> live.contains_key(k.uid),
    decreases total(lanes),
{
    if exists|i: int| is_first_error(lanes, i) {
        let i = choose|i: int| is_first_error(lanes, i);
        let rest = lanes.update(i, lanes[i].skip(1));
        assert forall|l: int, x: int|
            0 <= l < rest.len() && 0 <= x < rest[l].len() && (#[trigger] rest[l][x])
                is Ok implies live.contains_key(rest[l][x]->Ok_0.uid) by {
            if l == i {
                assert(rest[l][x] == lanes[l][x + 1]);
            } else {
                assert(rest[l][x] == lanes[l][x]);
            }
        }
    } else if exists|j: int| is_best(lanes, j, reverse) {
        let j = choose|j: int| is_best(lanes, j, reverse);
        let k = front(lanes[j]);
        let rest = drop_fronts(lanes, j, and || dedup);
        assert(lanes[j][0] is Ok);
        assert forall|l: int, x: int|
            0 <= l < rest.len() && 0 <= x < rest[l].len() && (#[trigger] rest[l][x])
                is Ok implies live.contains_key(rest[l][x]->Ok_0.uid) by {
            if taken(lanes, j, l, and || dedup) {
                assert(rest[l][x] == lanes[l][x + 1]);
            } else {
                assert(rest[l][x] == lanes[l][x]);
            }
        }
        if and && !all_fronts_same(lanes, k) {
            lemma_total_shrinks(lanes, rest, j);
            lemma_merge_next_live(rest, reverse, and, dedup, live);
        }
    }
}

/// What a query yields is the payloads of the candidates that pass, taken
/// from the merged stream in its order until the limit is met.
#[verifier::rlimit(40)]
pub proof fn lemma_results_picked(
    lanes: Seq<Seq<Item>>,
    g: Merge,
    live: Map<u64, EventView>,
    compress: bool,
    f: FilterView,
    m: MatchIndex,
    got: u64,
)
    requires
        lanes_ordered(lanes, g.reverse),
        lanes_live(lanes, live),
    ensures
        results(lanes, g, live, compress, f, m, got) == payloads(
            picked(merged(lanes, g.reverse, g.and, g.dedup), live, f, m, got),
            live,
            compress,
        ),
    decreases total(lanes),
{
    let cands = merged(lanes, g.reverse, g.and, g.dedup);
    let step = merge_next(lanes, g.reverse, g.and, g.dedup);
    let ft = fetch(lanes, g, live, compress, f, m);
    lemma_merge_next_shrinks(lanes, g.reverse, g.and, g.dedup);
    crate::order::lemma_merge_next_ordered(lanes, g.reverse, g.and, g.dedup);
    lemma_merge_next_live(lanes, g.reverse, g.and, g.dedup, live);
    lemma_fetch_shrinks(lanes, g, live, compress, f, m);
    let out = results(lanes, g, live, compress, f, m, got);
    let keys = picked(cands, live, f, m, got);
    if limit_met(f.limit, got) {
        assert(out =~= payloads(keys, live, compress));
    } else {
        match step.0 {
            None => {
                assert(out =~= payloads(keys, live, compress));
            },
            Some(x) => {
                let key = x->Ok_0;
                let tail = merged(step.1, g.reverse, g.and, g.dedup);
                assert(cands =~= seq![x] + tail);
                assert(cands.skip(1) =~= tail);
                if passes(live, f, m, key) {
                    let next = capped_sum(got, 1);
                    lemma_results_picked(step.1, g, live, compress, f, m, next);
                    assert(ft.data == 1);
                    assert(keys =~= seq![key] + picked(tail, live, f, m, next));
                    assert(out =~= payloads(keys, live, compress));
                } else {
                    lemma_results_picked(step.1, g, live, compress, f, m, got);
                    let more = fetch(step.1, g, live, compress, f, m);
                    assert(ft.item == more.item && ft.lanes == more.lanes && ft.data == more.data);
                    lemma_results_unfold(step.1, g, live, compress, f, m, got);
                    assert(out == results(step.1, g, live, compress, f, m, got));
                    assert(keys == picked(tail, live, f, m, got));
                }
            },
        }
    }
}

/// `results`, one step unfolded.
proof fn lemma_results_unfold(
    lanes: Seq<Seq<Item>>,
    g: Merge,
    live: Map<u64, EventView>,
    compress: bool,
    f: FilterView,
    m: MatchIndex,
    got: u64,
)
    ensures
        results(lanes, g, live, compress, f, m, got) == if limit_met(f.limit, got) {
            Seq::empty()
        } else {
            let ft = fetch(lanes, g, live, compress, f, m);
            match ft.item {
                None => Seq::empty(),
                Some(x) => seq![x] + results(
                    ft.lanes,
                    g,
                    live,
                    compress,
                    f,
                    m,
                    capped_sum(got, ft.data),
                ),
            }
        },
{
}

/// The keys come strictly in order.
pub open spec fn keys_strict(keys: Seq<IndexKey>, reverse: bool) -> bool {
    forall|a: int, b: int|
        0 <= a < b < keys.len() ==> before(#[trigger] keys[a], #[trigger] keys[b], reverse)
}

/// `k` is among the keys.
pub open spec fn among(keys: Seq<IndexKey>, k: IndexKey) -> bool {
    exists|i: int| 0 <= i < keys.len() && #[trigger] keys[i] == k
}

/// The limit was met after `n` results.
pub open spec fn limit_hit(limit: Option<u64>, n: int) -> bool {
    limit matches Some(l) && n >= l
}

/// What is picked from candidates that come strictly in order: candidates
/// that pass, in their order, no more than the limit leaves room for; and
/// a candidate that passes and was not picked comes after all that were,
/// which met the limit.
pub proof fn lemma_picked(
    cands: Seq<Item>,
    live: Map<u64, EventView>,
    f: FilterView,
    m: MatchIndex,
    got: u64,
    reverse: bool,
)
    requires
        lane_strict(cands, reverse),
    ensures
        keys_strict(picked(cands, live, f, m, got), reverse),
        forall|i: int|
            0 <= i < picked(cands, live, f, m, got).len() ==> passes(
                live,
                f,
                m,
                #[trigger] picked(cands, live, f, m, got)[i],
            ) && exists|j: int|
                0 <= j < cands.len() && #[trigger] cands[j] == Ok::<IndexKey, Error>(
                    picked(cands, live, f, m, got)[i],
                ),
        f.limit matches Some(l) ==> got + picked(cands, live, f, m, got).len() <= if got > l {
            got
        } else {
            l
        },
        forall|j: int|
            0 <= j < cands.len() && passes(live, f, m, (#[trigger] cands[j])->Ok_0) ==> among(
                picked(cands, live, f, m, got),
                cands[j]->Ok_0,
            ) || (limit_hit(f.limit, got + picked(cands, live, f, m, got).len()) && forall|i: int|
                0 <= i < picked(cands, live, f, m, got).len() ==> before(
                    #[trigger] picked(cands, live, f, m, got)[i],
                    cands[j]->Ok_0,
                    reverse,
                )),
    decreases cands.len(),
{
    let keys = picked(cands, live, f, m, got);
    if cands.len() == 0 || limit_met(f.limit, got) {
    } else {
        let k = cands[0]->Ok_0;
        let rest = cands.skip(1);
        assert forall|a: int, b: int| 0 <= a < b < rest.len() implies before(
            (#[trigger] rest[a])->Ok_0,
            (#[trigger] rest[b])->Ok_0,
            reverse,
        ) by {
            assert(rest[a] == cands[a + 1] && rest[b] == cands[b + 1]);
        }
        assert forall|a: int| 0 <= a < rest.len() implies (#[trigger] rest[a]) is Ok by {
            assert(rest[a] == cands[a + 1]);
        }
        assert(cands[0] is Ok);
        if passes(live, f, m, k) {
            let next = capped_sum(got, 1);
            lemma_picked(rest, live, f, m, next, reverse);
            let tail = picked(rest, live, f, m, next);
            assert(keys =~= seq![k] + tail);
            assert forall|i: int| 0 <= i < keys.len() implies passes(live, f, m, #[trigger] keys[i])
                && exists|j: int|
                0 <= j < cands.len() && #[trigger] cands[j] == Ok::<IndexKey, Error>(keys[i]) by {
                if i == 0 {
                    assert(cands[0] == Ok::<IndexKey, Error>(k));
                } else {
                    assert(keys[i] == tail[i - 1]);
                    let j = choose|j: int|
                        0 <= j < rest.len() && #[trigger] rest[j] == Ok::<IndexKey, Error>(
                            tail[i - 1],
                        );
                    assert(cands[j + 1] == rest[j]);
                }
            }
            assert forall|a: int, b: int| 0 <= a < b < keys.len() implies before(
                #[trigger] keys[a],
                #[trigger] keys[b],
                reverse,
            ) by {
                assert(keys[b] == tail[b - 1]);
                if a == 0 {
                    let j = choose|j: int|
                        0 <= j < rest.len() && #[trigger] rest[j] == Ok::<IndexKey, Error>(
                            tail[b - 1],
                        );
                    assert(cands[j + 1] == rest[j]);
                    assert(before(cands[0]->Ok_0, cands[j + 1]->Ok_0, reverse));
                } else {
                    assert(keys[a] == tail[a - 1]);
                }
            }
            assert forall|j: int|
                0 <= j < cands.len() && passes(live, f, m, (#[trigger] cands[j])->Ok_0) implies among(
                keys,
                cands[j]->Ok_0,
            ) || (limit_hit(f.limit, got + keys.len()) && forall|i: int|
                0 <= i < keys.len() ==> before(#[trigger] keys[i], cands[j]->Ok_0, reverse)) by {
                if j == 0 {
                    assert(keys[0] == k);
                } else {
                    assert(rest[j - 1] == cands[j]);
                    if among(tail, cands[j]->Ok_0) {
                        let i = choose|i: int| 0 <= i < tail.len() && #[trigger] tail[i] == cands[j]->Ok_0;
                        assert(keys[i + 1] == tail[i]);
                    } else {
                        assert forall|i: int| 0 <= i < keys.len() implies before(
                            #[trigger] keys[i],
                            cands[j]->Ok_0,
                            reverse,
                        ) by {
                            if i == 0 {
                                assert(before(cands[0]->Ok_0, cands[j]->Ok_0, reverse));
                            } else {
                                assert(keys[i] == tail[i - 1]);
                            }
                        }
                    }
                }
            }
        } else {
            lemma_picked(rest, live, f, m, got, reverse);
            let tail = picked(rest, live, f, m, got);
            assert(keys == tail);
            assert forall|i: int| 0 <= i < keys.len() implies passes(live, f, m, #[trigger] keys[i])
                && exists|j: int|
                0 <= j < cands.len() && #[trigger] cands[j] == Ok::<IndexKey, Error>(keys[i]) by {
                let j = choose|j: int|
                    0 <= j < rest.len() && #[trigger] rest[j] == Ok::<IndexKey, Error>(tail[i]);
                assert(cands[j + 1] == rest[j]);
            }
            assert forall|j: int|
                0 <= j < cands.len() && passes(live, f, m, (#[trigger] cands[j])->Ok_0) implies among(
                keys,
                cands[j]->Ok_0,
            ) || (limit_hit(f.limit, got + keys.len()) && forall|i: int|
                0 <= i < keys.len() ==> before(#[trigger] keys[i], cands[j]->Ok_0, reverse)) by {
                assert(j > 0);
                assert(rest[j - 1] == cands[j]);
            }
        }
    }
}

/// The count of a query is the number of candidates that it would pick:
/// counting from `n` on gives `n` and the number of picks, where that fits.
pub proof fn lemma_tally_picked(
    lanes: Seq<Seq<Item>>,
    g: Merge,
    live: Map<u64, EventView>,
    f: FilterView,
    m: MatchIndex,
    n: u64,
)
    requires
        lanes_ordered(lanes, g.reverse),
    ensures
        crate::query::tally(lanes, g, live, f, m, n).count == Ok::<u64, Error>(
            capped_sum(n, picked(merged(lanes, g.reverse, g.and, g.dedup), live, f, m, n).len() as int),
        ),
    decreases total(lanes),
{
    let cands = merged(lanes, g.reverse, g.and, g.dedup);
    let step = merge_next(lanes, g.reverse, g.and, g.dedup);
    lemma_merge_next_shrinks(lanes, g.reverse, g.and, g.dedup);
    crate::order::lemma_merge_next_ordered(lanes, g.reverse, g.and, g.dedup);
    if !limit_met(f.limit, n) {
        match step.0 {
            None => {},
            Some(x) => {
                let key = x->Ok_0;
                let tail = merged(step.1, g.reverse, g.and, g.dedup);
                assert(cands =~= seq![x] + tail);
                assert(cands.skip(1) =~= tail);
                if passes(live, f, m, key) {
                    lemma_tally_picked(step.1, g, live, f, m, capped_sum(n, 1));
                } else {
                    lemma_tally_picked(step.1, g, live, f, m, n);
                }
            },
        }
    }
}

/// The filter without its limit.
pub open spec fn unlimited(f: FilterView) -> FilterView {
    FilterView { limit: None, ..f }
}

/// The lesser of two numbers.
pub open spec fn lesser(a: int, b: int) -> int {
    if a <= b {
        a
    } else {
        b
    }
}

/// The room that the limit leaves after `got` results.
pub open spec fn room(limit: Option<u64>, got: u64, most: int) -> int {
    match limit {
        Some(l) => if l > got {
            lesser(l - got, most)
        } else {
            0
        },
        None => most,
    }
}

/// The limit cuts what is picked and does nothing else: what is picked
/// under a limit is the start of what is picked without one, as long as
/// the limit leaves room.
pub proof fn lemma_picked_limit(
    cands: Seq<Item>,
    live: Map<u64, EventView>,
    f: FilterView,
    m: MatchIndex,
    got: u64,
)
    ensures
        picked(cands, live, f, m, got) == picked(cands, live, unlimited(f), m, got).take(
            room(f.limit, got, picked(cands, live, unlimited(f), m, got).len() as int),
        ),
        picked(cands, live, f, m, got).len() == room(
            f.limit,
            got,
            picked(cands, live, unlimited(f), m, got).len() as int,
        ),
    decreases cands.len(),
{
    let u = unlimited(f);
    let all = picked(cands, live, u, m, got);
    let cut = picked(cands, live, f, m, got);
    if cands.len() == 0 || limit_met(f.limit, got) {
        assert(cut =~= all.take(0));
    } else {
        let k = cands[0]->Ok_0;
        let rest = cands.skip(1);
        assert(passes(live, f, m, k) == passes(live, u, m, k));
        if passes(live, f, m, k) {
            let next = capped_sum(got, 1);
            lemma_picked_limit(rest, live, f, m, next);
            let all_tail = picked(rest, live, u, m, next);
            let cut_tail = picked(rest, live, f, m, next);
            assert(all =~= seq![k] + all_tail);
            assert(cut =~= seq![k] + cut_tail);
            let r = room(f.limit, next, all_tail.len() as int);
            assert(room(f.limit, got, all.len() as int) == r + 1);
            assert(cut =~= all.take(r + 1));
        } else {
            lemma_picked_limit(rest, live, f, m, got);
        }
    }
}

} // verus!
