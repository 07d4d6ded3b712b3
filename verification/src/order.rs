//! The order of a merged stream: what comes out of lanes that are in order
//! is in order.

use vstd::prelude::*;
use crate::group::{all_fronts_same, before, drop_fronts, front, front_ok, is_best, is_first_error, lemma_merge_next_shrinks, lemma_total_shrinks, merge_next, same_key, taken, total, Item};
use crate::key::IndexKey;

verus! {

/// The lane holds results only, and none of them comes before an earlier
/// one.
pub open spec fn lane_ordered(lane: Seq<Item>, reverse: bool) -> bool {
    &&& forall|i: int| 0 <= i < lane.len() ==> (#[trigger] lane[i]) is Ok
    &&& forall|i: int, j: int|
        0 <= i < j < lane.len() ==> !before(
            (#[trigger] lane[j])->Ok_0,
            (#[trigger] lane[i])->Ok_0,
            reverse,
        )
}

/// The lane holds results only, and each comes strictly before every later
/// one.
pub open spec fn lane_strict(lane: Seq<Item>, reverse: bool) -> bool {
    &&& forall|i: int| 0 <= i < lane.len() ==> (#[trigger] lane[i]) is Ok
    &&& forall|i: int, j: int|
        0 <= i < j < lane.len() ==> before(
            (#[trigger] lane[i])->Ok_0,
            (#[trigger] lane[j])->Ok_0,
            reverse,
        )
}

pub open spec fn lanes_ordered(lanes: Seq<Seq<Item>>, reverse: bool) -> bool {
    forall|l: int| 0 <= l < lanes.len() ==> lane_ordered(#[trigger] lanes[l], reverse)
}

pub open spec fn lanes_strict(lanes: Seq<Seq<Item>>, reverse: bool) -> bool {
    forall|l: int| 0 <= l < lanes.len() ==> lane_strict(#[trigger] lanes[l], reverse)
}

/// No result of the lanes comes before `k`.
pub open spec fn none_before(lanes: Seq<Seq<Item>>, k: IndexKey, reverse: bool) -> bool {
    forall|l: int, i: int|
        0 <= l < lanes.len() && 0 <= i < lanes[l].len() ==> !before(
            (#[trigger] lanes[l][i])->Ok_0,
            k,
            reverse,
        )
}

/// Every result of the lanes comes strictly after `k`.
pub open spec fn all_after(lanes: Seq<Seq<Item>>, k: IndexKey, reverse: bool) -> bool {
    forall|l: int, i: int|
        0 <= l < lanes.len() && 0 <= i < lanes[l].len() ==> before(
            k,
            (#[trigger] lanes[l][i])->Ok_0,
            reverse,
        )
}

/// All that a group yields from its lanes, one pull after another.
pub open spec fn merged(lanes: Seq<Seq<Item>>, reverse: bool, and: bool, dedup: bool) -> Seq<Item>
    decreases total(lanes),
{
    let step = merge_next(lanes, reverse, and, dedup);
    match step.0 {
        None => Seq::empty(),
        Some(x) => {
            proof {
                lemma_merge_next_shrinks(lanes, reverse, and, dedup);
            }
            seq![x] + merged(step.1, reverse, and, dedup)
        },
    }
}

/// Taking fronts off lanes that are in order leaves lanes in order; what is
/// left does not come before the front that was taken, and comes strictly
/// after it where the lanes are strict and level fronts went along.
proof fn lemma_drop_fronts_ordered(lanes: Seq<Seq<Item>>, j: int, level: bool, reverse: bool)
    requires
        lanes_ordered(lanes, reverse),
        is_best(lanes, j, reverse),
    ensures
        lanes_ordered(drop_fronts(lanes, j, level), reverse),
        none_before(drop_fronts(lanes, j, level), front(lanes[j]), reverse),
        none_before(lanes, front(lanes[j]), reverse),
        level && lanes_strict(lanes, reverse) ==> lanes_strict(
            drop_fronts(lanes, j, level),
            reverse,
        ) && all_after(drop_fronts(lanes, j, level), front(lanes[j]), reverse),
        lanes_strict(lanes, reverse) ==> lanes_strict(drop_fronts(lanes, j, level), reverse),
{
    let rest = drop_fronts(lanes, j, level);
    let k = front(lanes[j]);
    assert forall|l: int, i: int| 0 <= l < lanes.len() && 0 <= i < lanes[l].len() implies !before(
        (#[trigger] lanes[l][i])->Ok_0,
        k,
        reverse,
    ) by {
        let lane = lanes[l];
        assert(lane_ordered(lane, reverse));
        assert(lane[0] is Ok);
        assert(front_ok(lane));
        if i > 0 {
            assert(!before(lane[i]->Ok_0, lane[0]->Ok_0, reverse));
        }
    }
    assert forall|l: int| 0 <= l < rest.len() implies lane_ordered(
        #[trigger] rest[l],
        reverse,
    ) by {
        let lane = lanes[l];
        assert(lane_ordered(lane, reverse));
        if taken(lanes, j, l, level) {
            assert forall|a: int, b: int| 0 <= a < b < rest[l].len() implies !before(
                (#[trigger] rest[l][b])->Ok_0,
                (#[trigger] rest[l][a])->Ok_0,
                reverse,
            ) by {
                assert(rest[l][a] == lane[a + 1] && rest[l][b] == lane[b + 1]);
            }
            assert forall|a: int| 0 <= a < rest[l].len() implies (#[trigger] rest[l][a]) is Ok by {
                assert(rest[l][a] == lane[a + 1]);
            }
        }
    }
    assert forall|l: int, i: int| 0 <= l < rest.len() && 0 <= i < rest[l].len() implies !before(
        (#[trigger] rest[l][i])->Ok_0,
        k,
        reverse,
    ) by {
        if taken(lanes, j, l, level) {
            assert(rest[l][i] == lanes[l][i + 1]);
        } else {
            assert(rest[l][i] == lanes[l][i]);
        }
    }
    if lanes_strict(lanes, reverse) {
        assert forall|l: int| 0 <= l < rest.len() implies lane_strict(
            #[trigger] rest[l],
            reverse,
        ) by {
            let lane = lanes[l];
            assert(lane_strict(lane, reverse));
            if taken(lanes, j, l, level) {
                assert forall|a: int, b: int| 0 <= a < b < rest[l].len() implies before(
                    (#[trigger] rest[l][a])->Ok_0,
                    (#[trigger] rest[l][b])->Ok_0,
                    reverse,
                ) by {
                    assert(rest[l][a] == lane[a + 1] && rest[l][b] == lane[b + 1]);
                }
                assert forall|a: int| 0 <= a < rest[l].len() implies (
                #[trigger] rest[l][a]) is Ok by {
                    assert(rest[l][a] == lane[a + 1]);
                }
            }
        }
        if level {
            assert forall|l: int, i: int|
                0 <= l < rest.len() && 0 <= i < rest[l].len() implies before(
                k,
                (#[trigger] rest[l][i])->Ok_0,
                reverse,
            ) by {
                let lane = lanes[l];
                assert(lane_strict(lane, reverse));
                assert(lane[0] is Ok);
                if taken(lanes, j, l, level) {
                    assert(rest[l][i] == lane[i + 1]);
                    assert(before(lane[0]->Ok_0, lane[i + 1]->Ok_0, reverse));
                } else {
                    assert(rest[l][i] == lane[i]);
                    assert(front_ok(lane));
                    assert(!same_key(front(lane), k));
                    if i > 0 {
                        assert(before(lane[0]->Ok_0, lane[i]->Ok_0, reverse));
                    }
                }
            }
        }
    }
}

/// Lanes that are in order have no report at a front.
proof fn lemma_no_report(lanes: Seq<Seq<Item>>, reverse: bool)
    requires
        lanes_ordered(lanes, reverse),
    ensures
        !exists|i: int| is_first_error(lanes, i),
{
    assert forall|i: int| !is_first_error(lanes, i) by {
        if is_first_error(lanes, i) {
            assert(lane_ordered(lanes[i], reverse));
            assert(lanes[i][0] is Ok);
        }
    }
}

/// One pull from lanes that are in order yields a result, never a report;
/// the lanes that are left are in order, and nothing in them comes before
/// the result.
pub proof fn lemma_merge_next_ordered(lanes: Seq<Seq<Item>>, reverse: bool, and: bool, dedup: bool)
    requires
        lanes_ordered(lanes, reverse),
    ensures
        lanes_ordered(merge_next(lanes, reverse, and, dedup).1, reverse),
        merge_next(lanes, reverse, and, dedup).0 matches Some(x) ==> x is Ok && none_before(
            merge_next(lanes, reverse, and, dedup).1,
            x->Ok_0,
            reverse,
        ),
    decreases total(lanes),
{
    lemma_no_report(lanes, reverse);
    if exists|j: int| is_best(lanes, j, reverse) {
        let j = choose|j: int| is_best(lanes, j, reverse);
        let k = front(lanes[j]);
        let rest = drop_fronts(lanes, j, and || dedup);
        lemma_drop_fronts_ordered(lanes, j, and || dedup, reverse);
        if and && !all_fronts_same(lanes, k) {
            lemma_total_shrinks(lanes, rest, j);
            lemma_merge_next_ordered(rest, reverse, and, dedup);
        }
    }
}

/// One pull from lanes that are strictly in order leaves lanes that are
/// strictly in order; where a result of several lanes comes out once, all
/// that is left comes strictly after the result.
pub proof fn lemma_merge_next_strict(lanes: Seq<Seq<Item>>, reverse: bool, and: bool, dedup: bool)
    requires
        lanes_strict(lanes, reverse),
    ensures
        lanes_strict(merge_next(lanes, reverse, and, dedup).1, reverse),
        (and || dedup) ==> (merge_next(lanes, reverse, and, dedup).0 matches Some(x) ==> all_after(
            merge_next(lanes, reverse, and, dedup).1,
            x->Ok_0,
            reverse,
        )),
    decreases total(lanes),
{
    lemma_strict_is_ordered(lanes, reverse);
    lemma_no_report(lanes, reverse);
    if exists|j: int| is_best(lanes, j, reverse) {
        let j = choose|j: int| is_best(lanes, j, reverse);
        let k = front(lanes[j]);
        let rest = drop_fronts(lanes, j, and || dedup);
        lemma_drop_fronts_ordered(lanes, j, and || dedup, reverse);
        if and && !all_fronts_same(lanes, k) {
            lemma_total_shrinks(lanes, rest, j);
            lemma_merge_next_strict(rest, reverse, and, dedup);
        }
    }
}

/// Taking fronts off lanes keeps what is left not before `k0`.
proof fn lemma_drop_fronts_floor(lanes: Seq<Seq<Item>>, j: int, level: bool, k0: IndexKey, reverse: bool)
    requires
        0 <= j < lanes.len(),
        front_ok(lanes[j]),
        none_before(lanes, k0, reverse),
    ensures
        none_before(drop_fronts(lanes, j, level), k0, reverse),
{
    let rest = drop_fronts(lanes, j, level);
    assert forall|l: int, i: int| 0 <= l < rest.len() && 0 <= i < rest[l].len() implies !before(
        (#[trigger] rest[l][i])->Ok_0,
        k0,
        reverse,
    ) by {
        if taken(lanes, j, l, level) {
            assert(rest[l][i] == lanes[l][i + 1]);
        } else {
            assert(rest[l][i] == lanes[l][i]);
        }
    }
}

/// Taking fronts off lanes keeps what is left strictly after `k0`.
proof fn lemma_drop_fronts_after(lanes: Seq<Seq<Item>>, j: int, level: bool, k0: IndexKey, reverse: bool)
    requires
        0 <= j < lanes.len(),
        front_ok(lanes[j]),
        all_after(lanes, k0, reverse),
    ensures
        all_after(drop_fronts(lanes, j, level), k0, reverse),
{
    let rest = drop_fronts(lanes, j, level);
    assert forall|l: int, i: int| 0 <= l < rest.len() && 0 <= i < rest[l].len() implies before(
        k0,
        (#[trigger] rest[l][i])->Ok_0,
        reverse,
    ) by {
        if taken(lanes, j, l, level) {
            assert(rest[l][i] == lanes[l][i + 1]);
        } else {
            assert(rest[l][i] == lanes[l][i]);
        }
    }
}

/// Where nothing in the lanes comes before `k0`, nothing that is pulled or
/// left does.
pub proof fn lemma_merge_next_floor(
    lanes: Seq<Seq<Item>>,
    reverse: bool,
    and: bool,
    dedup: bool,
    k0: IndexKey,
)
    requires
        lanes_ordered(lanes, reverse),
        none_before(lanes, k0, reverse),
    ensures
        none_before(merge_next(lanes, reverse, and, dedup).1, k0, reverse),
        merge_next(lanes, reverse, and, dedup).0 matches Some(x) ==> !before(x->Ok_0, k0, reverse),
    decreases total(lanes),
{
    lemma_no_report(lanes, reverse);
    if exists|j: int| is_best(lanes, j, reverse) {
        let j = choose|j: int| is_best(lanes, j, reverse);
        let k = front(lanes[j]);
        let rest = drop_fronts(lanes, j, and || dedup);
        lemma_drop_fronts_floor(lanes, j, and || dedup, k0, reverse);
        assert(!before(lanes[j][0]->Ok_0, k0, reverse));
        if and && !all_fronts_same(lanes, k) {
            lemma_drop_fronts_ordered(lanes, j, and || dedup, reverse);
            lemma_total_shrinks(lanes, rest, j);
            lemma_merge_next_floor(rest, reverse, and, dedup, k0);
        }
    }
}

/// Where all in the lanes comes strictly after `k0`, all that is pulled or
/// left does.
pub proof fn lemma_merge_next_after(
    lanes: Seq<Seq<Item>>,
    reverse: bool,
    and: bool,
    dedup: bool,
    k0: IndexKey,
)
    requires
        lanes_ordered(lanes, reverse),
        all_after(lanes, k0, reverse),
    ensures
        all_after(merge_next(lanes, reverse, and, dedup).1, k0, reverse),
        merge_next(lanes, reverse, and, dedup).0 matches Some(x) ==> before(k0, x->Ok_0, reverse),
    decreases total(lanes),
{
    lemma_no_report(lanes, reverse);
    if exists|j: int| is_best(lanes, j, reverse) {
        let j = choose|j: int| is_best(lanes, j, reverse);
        let k = front(lanes[j]);
        let rest = drop_fronts(lanes, j, and || dedup);
        lemma_drop_fronts_after(lanes, j, and || dedup, k0, reverse);
        assert(before(k0, lanes[j][0]->Ok_0, reverse));
        if and && !all_fronts_same(lanes, k) {
            lemma_drop_fronts_ordered(lanes, j, and || dedup, reverse);
            lemma_total_shrinks(lanes, rest, j);
            lemma_merge_next_after(rest, reverse, and, dedup, k0);
        }
    }
}

/// What a group yields from lanes that are in order is in order, and
/// nothing of it comes before a result that nothing in the lanes comes
/// before.
pub proof fn lemma_merged_ordered(
    lanes: Seq<Seq<Item>>,
    reverse: bool,
    and: bool,
    dedup: bool,
    k0: IndexKey,
)
    requires
        lanes_ordered(lanes, reverse),
    ensures
        lane_ordered(merged(lanes, reverse, and, dedup), reverse),
        none_before(lanes, k0, reverse) ==> forall|a: int|
            0 <= a < merged(lanes, reverse, and, dedup).len() ==> !before(
                (#[trigger] merged(lanes, reverse, and, dedup)[a])->Ok_0,
                k0,
                reverse,
            ),
    decreases total(lanes),
{
    let out = merged(lanes, reverse, and, dedup);
    let step = merge_next(lanes, reverse, and, dedup);
    lemma_merge_next_ordered(lanes, reverse, and, dedup);
    lemma_merge_next_shrinks(lanes, reverse, and, dedup);
    if none_before(lanes, k0, reverse) {
        lemma_merge_next_floor(lanes, reverse, and, dedup, k0);
    }
    match step.0 {
        None => {},
        Some(x) => {
            let k = x->Ok_0;
            let tail = merged(step.1, reverse, and, dedup);
            lemma_merged_ordered(step.1, reverse, and, dedup, k);
            lemma_merged_ordered(step.1, reverse, and, dedup, k0);
            assert forall|i: int| 0 <= i < out.len() implies (#[trigger] out[i]) is Ok by {
                if i > 0 {
                    assert(out[i] == tail[i - 1]);
                }
            }
            assert forall|i: int, j: int| 0 <= i < j < out.len() implies !before(
                (#[trigger] out[j])->Ok_0,
                (#[trigger] out[i])->Ok_0,
                reverse,
            ) by {
                assert(out[j] == tail[j - 1]);
                if i > 0 {
                    assert(out[i] == tail[i - 1]);
                }
            }
            if none_before(lanes, k0, reverse) {
                assert forall|a: int| 0 <= a < out.len() implies !before(
                    (#[trigger] out[a])->Ok_0,
                    k0,
                    reverse,
                ) by {
                    if a > 0 {
                        assert(out[a] == tail[a - 1]);
                    }
                }
            }
        },
    }
}

/// Where each lane is strictly in order and a result of several lanes comes
/// out once, what a group yields is strictly in order: no event comes twice.
pub proof fn lemma_merged_strict(
    lanes: Seq<Seq<Item>>,
    reverse: bool,
    and: bool,
    dedup: bool,
    k0: IndexKey,
)
    requires
        lanes_strict(lanes, reverse),
        and || dedup,
    ensures
        lane_strict(merged(lanes, reverse, and, dedup), reverse),
        all_after(lanes, k0, reverse) ==> forall|a: int|
            0 <= a < merged(lanes, reverse, and, dedup).len() ==> before(
                k0,
                (#[trigger] merged(lanes, reverse, and, dedup)[a])->Ok_0,
                reverse,
            ),
    decreases total(lanes),
{
    let out = merged(lanes, reverse, and, dedup);
    let step = merge_next(lanes, reverse, and, dedup);
    lemma_strict_is_ordered(lanes, reverse);
    lemma_merge_next_ordered(lanes, reverse, and, dedup);
    lemma_merge_next_strict(lanes, reverse, and, dedup);
    lemma_merge_next_shrinks(lanes, reverse, and, dedup);
    if all_after(lanes, k0, reverse) {
        lemma_merge_next_after(lanes, reverse, and, dedup, k0);
    }
    match step.0 {
        None => {},
        Some(x) => {
            let k = x->Ok_0;
            let tail = merged(step.1, reverse, and, dedup);
            lemma_merged_strict(step.1, reverse, and, dedup, k);
            lemma_merged_strict(step.1, reverse, and, dedup, k0);
            assert forall|i: int| 0 <= i < out.len() implies (#[trigger] out[i]) is Ok by {
                if i > 0 {
                    assert(out[i] == tail[i - 1]);
                }
            }
            assert forall|i: int, j: int| 0 <= i < j < out.len() implies before(
                (#[trigger] out[i])->Ok_0,
                (#[trigger] out[j])->Ok_0,
                reverse,
            ) by {
                assert(out[j] == tail[j - 1]);
                if i > 0 {
                    assert(out[i] == tail[i - 1]);
                }
            }
            if all_after(lanes, k0, reverse) {
                assert forall|a: int| 0 <= a < out.len() implies before(
                    k0,
                    (#[trigger] out[a])->Ok_0,
                    reverse,
                ) by {
                    if a > 0 {
                        assert(out[a] == tail[a - 1]);
                    }
                }
            }
        },
    }
}

/// Lanes that are strictly in order are in order.
pub proof fn lemma_strict_is_ordered(lanes: Seq<Seq<Item>>, reverse: bool)
    requires
        lanes_strict(lanes, reverse),
    ensures
        lanes_ordered(lanes, reverse),
{
    assert forall|l: int| 0 <= l < lanes.len() implies lane_ordered(
        #[trigger] lanes[l],
        reverse,
    ) by {
        let lane = lanes[l];
        assert(lane_strict(lane, reverse));
        assert forall|i: int, j: int| 0 <= i < j < lane.len() implies !before(
            (#[trigger] lane[j])->Ok_0,
            (#[trigger] lane[i])->Ok_0,
            reverse,
        ) by {
            assert(before(lane[i]->Ok_0, lane[j]->Ok_0, reverse));
        }
    }
}

/// The lane holds a result for the event and time of `k`.
pub open spec fn has(lane: Seq<Item>, k: IndexKey) -> bool {
    exists|i: int| 0 <= i < lane.len() && (#[trigger] lane[i]) is Ok && same_key(lane[i]->Ok_0, k)
}

/// Some lane holds a result for the event and time of `k`.
pub open spec fn has_any(lanes: Seq<Seq<Item>>, k: IndexKey) -> bool {
    exists|l: int| 0 <= l < lanes.len() && has(#[trigger] lanes[l], k)
}

/// Every lane holds a result for the event and time of `k`.
pub open spec fn has_all(lanes: Seq<Seq<Item>>, k: IndexKey) -> bool {
    forall|l: int| 0 <= l < lanes.len() ==> has(#[trigger] lanes[l], k)
}

/// Lanes that are in order and have no best front are empty.
proof fn lemma_no_best_empty(lanes: Seq<Seq<Item>>, reverse: bool)
    requires
        lanes_ordered(lanes, reverse),
        !exists|j: int| is_best(lanes, j, reverse),
    ensures
        forall|l: int| 0 <= l < lanes.len() ==> (#[trigger] lanes[l]).len() == 0,
{
    // the first front that no other front comes before is the best
    if exists|l: int| 0 <= l < lanes.len() && (#[trigger] lanes[l]).len() > 0 {
        let l0 = choose|l: int| 0 <= l < lanes.len() && (#[trigger] lanes[l]).len() > 0;
        assert(lane_ordered(lanes[l0], reverse));
        assert(front_ok(lanes[l0]));
        lemma_best_exists(lanes, reverse, lanes.len() as int);
        assert(lanes.take(lanes.len() as int) =~= lanes);
    }
}

/// Among the first `n` lanes, where one has a front, one has the best.
proof fn lemma_best_exists(lanes: Seq<Seq<Item>>, reverse: bool, n: int)
    requires
        0 <= n <= lanes.len(),
    ensures
        (exists|l: int| 0 <= l < n && front_ok(#[trigger] lanes[l])) ==> exists|j: int|
            is_best(lanes.take(n), j, reverse),
    decreases n,
{
    if n > 0 {
        lemma_best_exists(lanes, reverse, n - 1);
        let cur = lanes.take(n);
        let prev = lanes.take(n - 1);
        assert forall|i: int| 0 <= i < n - 1 implies cur[i] == prev[i] by {}
        if exists|l: int| 0 <= l < n - 1 && front_ok(#[trigger] lanes[l]) {
            let j = choose|j: int| is_best(prev, j, reverse);
            assert(cur[j] == prev[j]);
            if front_ok(lanes[n - 1]) && before(front(lanes[n - 1]), front(prev[j]), reverse) {
                let k = front(lanes[n - 1]);
                assert forall|i: int| 0 <= i < n - 1 && front_ok(#[trigger] cur[i]) implies before(
                    k,
                    front(cur[i]),
                    reverse,
                ) by {
                    assert(cur[i] == prev[i]);
                    if i < j {
                        assert(before(front(prev[j]), front(prev[i]), reverse));
                    } else if i > j {
                        assert(!before(front(prev[i]), front(prev[j]), reverse));
                    }
                }
                assert(is_best(cur, n - 1, reverse));
            } else {
                assert forall|i: int| 0 <= i < j && front_ok(#[trigger] cur[i]) implies before(
                    front(cur[j]),
                    front(cur[i]),
                    reverse,
                ) by {
                    assert(cur[i] == prev[i]);
                }
                assert forall|i: int| j < i < cur.len() && front_ok(#[trigger] cur[i]) implies !before(
                    front(cur[i]),
                    front(cur[j]),
                    reverse,
                ) by {
                    if i < n - 1 {
                        assert(cur[i] == prev[i]);
                    }
                }
                assert(is_best(cur, j, reverse));
            }
        } else if front_ok(lanes[n - 1]) {
            assert forall|i: int| 0 <= i < n - 1 implies !front_ok(#[trigger] cur[i]) by {
                assert(cur[i] == lanes[i]);
            }
            assert(is_best(cur, n - 1, reverse));
        }
    }
}

/// A result is in some lane exactly if it is the front that is taken or
/// in some lane that is left.
proof fn lemma_drop_fronts_any(lanes: Seq<Seq<Item>>, j: int, level: bool, k: IndexKey, reverse: bool)
    requires
        lanes_ordered(lanes, reverse),
        is_best(lanes, j, reverse),
    ensures
        has_any(lanes, k) <==> (same_key(front(lanes[j]), k) || has_any(
            drop_fronts(lanes, j, level),
            k,
        )),
{
    let rest = drop_fronts(lanes, j, level);
    let kj = front(lanes[j]);
    if has_any(lanes, k) && !same_key(kj, k) {
        let l = choose|l: int| 0 <= l < lanes.len() && has(#[trigger] lanes[l], k);
        let i = choose|i: int|
            0 <= i < lanes[l].len() && (#[trigger] lanes[l][i]) is Ok && same_key(
                lanes[l][i]->Ok_0,
                k,
            );
        if taken(lanes, j, l, level) {
            assert(i > 0);
            assert(rest[l][i - 1] == lanes[l][i]);
        } else {
            assert(rest[l][i] == lanes[l][i]);
        }
        assert(has(rest[l], k));
    }
    if same_key(kj, k) {
        assert(lanes[j][0] is Ok);
        assert(has(lanes[j], k));
    }
    if has_any(rest, k) {
        let l = choose|l: int| 0 <= l < rest.len() && has(#[trigger] rest[l], k);
        let i = choose|i: int|
            0 <= i < rest[l].len() && (#[trigger] rest[l][i]) is Ok && same_key(
                rest[l][i]->Ok_0,
                k,
            );
        if taken(lanes, j, l, level) {
            assert(rest[l][i] == lanes[l][i + 1]);
        } else {
            assert(rest[l][i] == lanes[l][i]);
        }
        assert(has(lanes[l], k));
    }
}

/// Without `and`, what a group yields is what its lanes hold: a result for
/// an event comes out exactly if some lane holds one.
pub proof fn lemma_merged_union(lanes: Seq<Seq<Item>>, reverse: bool, dedup: bool, k: IndexKey)
    requires
        lanes_ordered(lanes, reverse),
    ensures
        has(merged(lanes, reverse, false, dedup), k) <==> has_any(lanes, k),
    decreases total(lanes),
{
    let out = merged(lanes, reverse, false, dedup);
    lemma_no_report(lanes, reverse);
    lemma_merge_next_shrinks(lanes, reverse, false, dedup);
    if exists|j: int| is_best(lanes, j, reverse) {
        let j = choose|j: int| is_best(lanes, j, reverse);
        let kj = front(lanes[j]);
        let rest = drop_fronts(lanes, j, dedup);
        lemma_drop_fronts_ordered(lanes, j, dedup, reverse);
        lemma_drop_fronts_any(lanes, j, dedup, k, reverse);
        lemma_merged_union(rest, reverse, dedup, k);
        let tail = merged(rest, reverse, false, dedup);
        assert(out =~= seq![Ok(kj)] + tail);
        if has(out, k) {
            let i = choose|i: int|
                0 <= i < out.len() && (#[trigger] out[i]) is Ok && same_key(out[i]->Ok_0, k);
            if i > 0 {
                assert(tail[i - 1] == out[i]);
                assert(has(tail, k));
            }
        }
        if has(tail, k) {
            let i = choose|i: int|
                0 <= i < tail.len() && (#[trigger] tail[i]) is Ok && same_key(tail[i]->Ok_0, k);
            assert(out[i + 1] == tail[i]);
        }
        if same_key(kj, k) {
            assert(out[0] is Ok);
        }
    } else {
        lemma_no_best_empty(lanes, reverse);
        assert(out.len() == 0);
    }
}

/// With `and`, what a group yields is what all its lanes hold: a result
/// for an event comes out exactly if every lane holds one.
pub proof fn lemma_merged_intersection(lanes: Seq<Seq<Item>>, reverse: bool, dedup: bool, k: IndexKey)
    requires
        lanes_strict(lanes, reverse),
        lanes.len() > 0,
    ensures
        has(merged(lanes, reverse, true, dedup), k) <==> has_all(lanes, k),
    decreases total(lanes),
{
    let out = merged(lanes, reverse, true, dedup);
    lemma_strict_is_ordered(lanes, reverse);
    lemma_no_report(lanes, reverse);
    lemma_merge_next_shrinks(lanes, reverse, true, dedup);
    if exists|j: int| is_best(lanes, j, reverse) {
        let j = choose|j: int| is_best(lanes, j, reverse);
        let kj = front(lanes[j]);
        let rest = drop_fronts(lanes, j, true);
        lemma_drop_fronts_ordered(lanes, j, true, reverse);
        lemma_total_shrinks(lanes, rest, j);
        lemma_merged_intersection(rest, reverse, dedup, k);
        let tail = merged(rest, reverse, true, dedup);
        // what is in every lane and is not the front that goes is in every lane that is left
        if has_all(lanes, k) && !same_key(kj, k) {
            assert forall|l: int| 0 <= l < rest.len() implies has(#[trigger] rest[l], k) by {
                assert(has(lanes[l], k));
                let i = choose|i: int|
                    0 <= i < lanes[l].len() && (#[trigger] lanes[l][i]) is Ok && same_key(
                        lanes[l][i]->Ok_0,
                        k,
                    );
                if taken(lanes, j, l, true) {
                    assert(i > 0);
                    assert(rest[l][i - 1] == lanes[l][i]);
                } else {
                    assert(rest[l][i] == lanes[l][i]);
                }
            }
        }
        if has_all(rest, k) {
            assert forall|l: int| 0 <= l < lanes.len() implies has(#[trigger] lanes[l], k) by {
                assert(has(rest[l], k));
                let i = choose|i: int|
                    0 <= i < rest[l].len() && (#[trigger] rest[l][i]) is Ok && same_key(
                        rest[l][i]->Ok_0,
                        k,
                    );
                if taken(lanes, j, l, true) {
                    assert(rest[l][i] == lanes[l][i + 1]);
                } else {
                    assert(rest[l][i] == lanes[l][i]);
                }
            }
        }
        // what is in every lane and is the front that goes is the front of every lane
        if has_all(lanes, k) && same_key(kj, k) {
            assert forall|l: int| 0 <= l < lanes.len() implies front_ok(#[trigger] lanes[l])
                && same_key(front(lanes[l]), kj) by {
                assert(has(lanes[l], k));
                assert(lane_strict(lanes[l], reverse));
                let i = choose|i: int|
                    0 <= i < lanes[l].len() && (#[trigger] lanes[l][i]) is Ok && same_key(
                        lanes[l][i]->Ok_0,
                        k,
                    );
                assert(lanes[l][0] is Ok);
                if i > 0 {
                    assert(before(lanes[l][0]->Ok_0, lanes[l][i]->Ok_0, reverse));
                    if l < j {
                        assert(before(kj, front(lanes[l]), reverse));
                    } else if l > j {
                        assert(!before(front(lanes[l]), kj, reverse));
                    }
                }
            }
            assert(all_fronts_same(lanes, kj));
        }
        if all_fronts_same(lanes, kj) {
            assert(out =~= seq![Ok(kj)] + tail);
            if has(out, k) {
                let i = choose|i: int|
                    0 <= i < out.len() && (#[trigger] out[i]) is Ok && same_key(out[i]->Ok_0, k);
                if i > 0 {
                    assert(tail[i - 1] == out[i]);
                    assert(has(tail, k));
                } else {
                    assert forall|l: int| 0 <= l < lanes.len() implies has(
                        #[trigger] lanes[l],
                        k,
                    ) by {
                        assert(front_ok(lanes[l]) && same_key(front(lanes[l]), kj));
                        assert(lanes[l][0] is Ok);
                    }
                }
            }
            if has(tail, k) {
                let i = choose|i: int|
                    0 <= i < tail.len() && (#[trigger] tail[i]) is Ok && same_key(
                        tail[i]->Ok_0,
                        k,
                    );
                assert(out[i + 1] == tail[i]);
            }
            if same_key(kj, k) {
                assert(out[0] is Ok);
            }
        } else {
            assert(out == tail);
        }
    } else {
        lemma_no_best_empty(lanes, reverse);
        assert(out.len() == 0);
        assert(lanes[0].len() == 0);
        if has_all(lanes, k) {
            assert(has(lanes[0], k));
        }
    }
}

/// No two lanes hold a result for one event at one time.
pub open spec fn lanes_apart(lanes: Seq<Seq<Item>>) -> bool {
    forall|a: int, b: int, k: IndexKey|
        0 <= a < lanes.len() && 0 <= b < lanes.len() && a != b && #[trigger] has(lanes[a], k)
            ==> !#[trigger] has(lanes[b], k)
}

/// Where no two lanes hold a result for one event, it makes no difference
/// whether a result of several lanes comes out once.
pub proof fn lemma_apart_dedup(lanes: Seq<Seq<Item>>, reverse: bool)
    requires
        lanes_ordered(lanes, reverse),
        lanes_apart(lanes),
    ensures
        merged(lanes, reverse, false, false) == merged(lanes, reverse, false, true),
    decreases total(lanes),
{
    lemma_no_report(lanes, reverse);
    lemma_merge_next_shrinks(lanes, reverse, false, false);
    lemma_merge_next_shrinks(lanes, reverse, false, true);
    if exists|j: int| is_best(lanes, j, reverse) {
        let j = choose|j: int| is_best(lanes, j, reverse);
        let kj = front(lanes[j]);
        let plain = drop_fronts(lanes, j, false);
        let level = drop_fronts(lanes, j, true);
        assert(lanes[j][0] is Ok);
        assert(has(lanes[j], kj));
        assert forall|l: int| 0 <= l < lanes.len() implies plain[l] == level[l] by {
            if l != j && front_ok(lanes[l]) && same_key(front(lanes[l]), kj) {
                assert(lanes[l][0] is Ok);
                assert(has(lanes[l], kj));
            }
        }
        assert(plain =~= level);
        lemma_drop_fronts_ordered(lanes, j, false, reverse);
        assert forall|a: int, b: int, k: IndexKey|
            0 <= a < plain.len() && 0 <= b < plain.len() && a != b && #[trigger] has(
                plain[a],
                k,
            ) implies !#[trigger] has(plain[b], k) by {
            lemma_suffix_has(lanes, j, false, a, k);
            if has(plain[b], k) {
                lemma_suffix_has(lanes, j, false, b, k);
            }
        }
        lemma_apart_dedup(plain, reverse);
    }
}

/// What a lane holds after fronts were taken, it held before.
proof fn lemma_suffix_has(lanes: Seq<Seq<Item>>, j: int, level: bool, l: int, k: IndexKey)
    requires
        0 <= j < lanes.len(),
        front_ok(lanes[j]),
        0 <= l < lanes.len(),
        has(drop_fronts(lanes, j, level)[l], k),
    ensures
        has(lanes[l], k),
{
    let rest = drop_fronts(lanes, j, level);
    let i = choose|i: int|
        0 <= i < rest[l].len() && (#[trigger] rest[l][i]) is Ok && same_key(rest[l][i]->Ok_0, k);
    if taken(lanes, j, l, level) {
        assert(rest[l][i] == lanes[l][i + 1]);
    } else {
        assert(rest[l][i] == lanes[l][i]);
    }
}

} // verus!
