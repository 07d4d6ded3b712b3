//! Queries: the scans of a plan at work on a table of the store, merged, and
//! the candidates that come out held against the filter and answered with
//! their payloads.

use vstd::prelude::*;
use crate::error::Error;
use crate::event::{EventIndexView, EventView};
use crate::filter::{author_matches, record_matches, Filter, FilterView};
use crate::group::{front_err, lemma_merge_next_shrinks, merge_next, total, Group, Item};
use crate::key::IndexKey;
use crate::payload::stored_payload;
use crate::plan::{all_hex, author_kind_plan, chosen, kind_plan, lemma_author_kind_plan_matchers, lemma_tag_plan_matchers, plan_fails, prefix_plan, scans_view, tag_plan, time_plan, word_plan, MatchIndex};
use crate::model::{scannable, Table};
use crate::bytes::upper_spec;
use crate::event::words_view;
use crate::scanner::{capped_sum, create_iter, readable, scan_domain, start_edge, MatcherView, Scan, ScanView, Scanner};
use crate::store::Store;
use crate::tree::{lemma_ranks, Pair, Tree};

verus! {

/// What each scan of a plan yields from a table, one lane for each scan.
pub open spec fn plan_lanes(tree: Seq<Pair>, plan: Seq<ScanView>) -> Seq<Seq<Item>> {
    Seq::new(
        plan.len(),
        |i: int| plan[i].output(scan_domain(tree, plan[i].prefix, plan[i].reverse)),
    )
}

/// Lane `i` is the first whose first item is a report.
pub open spec fn first_report(lanes: Seq<Seq<Item>>, i: int) -> bool {
    &&& 0 <= i < lanes.len()
    &&& front_err(lanes[i])
    &&& forall|j: int| 0 <= j < i ==> !front_err(#[trigger] lanes[j])
}

/// Sets the scans of a plan to work on a table and groups them. The first
/// result of each scan is fetched at once; the first report that turns up
/// there fails the whole.
pub fn build<'a>(tree: &'a Tree, scans: &Vec<Scan>, reverse: bool, and: bool, dedup: bool) -> (r:
    Result<Group<'a>, Error>)
    requires
        tree.wf(),
    ensures
        r matches Ok(g) ==> g.wf() && g.reverse() == reverse && g.and() == and && g.dedup()
            == dedup && g.lanes() == plan_lanes(tree@, scans_view(scans@)),
        r.is_err() == exists|i: int| first_report(plan_lanes(tree@, scans_view(scans@)), i),
        r matches Err(e) ==> exists|i: int|
            first_report(plan_lanes(tree@, scans_view(scans@)), i) && #[trigger] plan_lanes(
                tree@,
                scans_view(scans@),
            )[i][0] == Err::<IndexKey, Error>(e),
{
    let ghost all = plan_lanes(tree@, scans_view(scans@));
    let mut group = Group::new(reverse, and, dedup);
    let mut i: usize = 0;
    while i < scans.len()
        invariant
            i <= scans.len(),
            tree.wf(),
            all == plan_lanes(tree@, scans_view(scans@)),
            group.wf(),
            group.reverse() == reverse,
            group.and() == and,
            group.dedup() == dedup,
            group.lanes() == all.take(i as int),
            forall|j: int| 0 <= j < i ==> !front_err(#[trigger] all[j]),
        decreases scans.len() - i,
    {
        let scan = scans[i].copy();
        let iter = create_iter(tree, &scan.prefix, scan.reverse);
        let scanner = Scanner::new(
            iter,
            scan.key,
            scan.prefix,
            scan.reverse,
            scan.since,
            scan.until,
            scan.matcher,
        );
        assert(scanner.pending() == all[i as int]);
        match group.add(scanner) {
            Ok(()) => {
                assert(group.lanes() =~= all.take(i + 1));
            },
            Err(e) => {
                assert(first_report(all, i as int));
                return Err(e);
            },
        }
        i += 1;
    }
    proof {
        assert(all.take(i as int) =~= all);
        assert forall|j: int| !first_report(all, j) by {}
    }
    Ok(group)
}

/// The counters of a query.
#[derive(Clone, Copy, PartialEq, Eq, Structural, Debug)]
pub struct Stats {
    /// Index entries that the scans examined.
    pub scan_index: u64,
    /// Payloads that were fetched.
    pub get_data: u64,
    /// Index records that were fetched.
    pub get_index: u64,
}

/// Whether the index record of a candidate passes what is held against it.
pub open spec fn accepts(m: MatchIndex, f: FilterView, e: EventIndexView) -> bool {
    match m {
        MatchIndex::Off => true,
        MatchIndex::Pubkey => author_matches(f.authors, e.pubkey, e.delegator),
        MatchIndex::All => record_matches(f, e),
    }
}

/// What one pull brings: the item, the lanes that are left, and how many
/// payloads and index records were fetched on the way.
pub struct Fetched {
    pub item: Option<Result<Seq<u8>, Error>>,
    pub lanes: Seq<Seq<Item>>,
    pub data: int,
    pub index: int,
}

/// What the merged stream is made of, beside its lanes.
pub struct Merge {
    pub reverse: bool,
    pub and: bool,
    pub dedup: bool,
}

/// One pull from the merged stream of `lanes`.
///
/// Candidates come in merge order. Where nothing is held against index
/// records, the payload of each candidate is fetched. Else its index record
/// is fetched first, and the payload only where the record passes. The pull
/// ends with the first payload that is found, with a report, or with the end
/// of the stream. A candidate that is not stored is passed over.
pub open spec fn fetch(
    lanes: Seq<Seq<Item>>,
    g: Merge,
    live: Map<u64, EventView>,
    compress: bool,
    f: FilterView,
    m: MatchIndex,
) -> Fetched
    decreases total(lanes),
{
    let step = merge_next(lanes, g.reverse, g.and, g.dedup);
    match step.0 {
        None => Fetched { item: None, lanes: step.1, data: 0, index: 0 },
        Some(Err(e)) => Fetched { item: Some(Err(e)), lanes: step.1, data: 0, index: 0 },
        Some(Ok(key)) => {
            let stored = live.contains_key(key.uid);
            let checked: int = if m is Off {
                0
            } else {
                1
            };
            let passes = m is Off || (stored && accepts(m, f, live[key.uid].index));
            let fetched: int = if passes {
                1
            } else {
                0
            };
            if passes && stored {
                Fetched {
                    item: Some(Ok(stored_payload(live[key.uid].payload, compress).unwrap())),
                    lanes: step.1,
                    data: fetched,
                    index: checked,
                }
            } else {
                proof {
                    lemma_merge_next_shrinks(lanes, g.reverse, g.and, g.dedup);
                }
                let more = fetch(step.1, g, live, compress, f, m);
                Fetched {
                    item: more.item,
                    lanes: more.lanes,
                    data: more.data + fetched,
                    index: more.index + checked,
                }
            }
        },
    }
}

/// What counting brings: the count or a report, the lanes that are left,
/// and how many index records were fetched on the way.
pub struct Counted {
    pub count: Result<u64, Error>,
    pub lanes: Seq<Seq<Item>>,
    pub index: int,
}

/// Whether `n` results meet the limit.
pub open spec fn limit_met(limit: Option<u64>, n: u64) -> bool {
    limit matches Some(l) && n >= l
}

/// Counting the candidates of `lanes` that pass, from `n` on. Counting ends
/// where the count meets the limit, before another candidate is taken; and
/// where the stream ends or tells of an entry that could not be read.
pub open spec fn tally(
    lanes: Seq<Seq<Item>>,
    g: Merge,
    live: Map<u64, EventView>,
    f: FilterView,
    m: MatchIndex,
    n: u64,
) -> Counted
    decreases total(lanes),
{
    if limit_met(f.limit, n) {
        Counted { count: Ok(n), lanes, index: 0 }
    } else {
        let step = merge_next(lanes, g.reverse, g.and, g.dedup);
        match step.0 {
            None => Counted { count: Ok(n), lanes: step.1, index: 0 },
            Some(Err(e)) => Counted { count: Err(e), lanes: step.1, index: 0 },
            Some(Ok(key)) => {
                let checked: int = if m is Off {
                    0
                } else {
                    1
                };
                let passes = m is Off || (live.contains_key(key.uid) && accepts(
                    m,
                    f,
                    live[key.uid].index,
                ));
                let now = if passes {
                    capped_sum(n, 1)
                } else {
                    n
                };
                proof {
                    lemma_merge_next_shrinks(lanes, g.reverse, g.and, g.dedup);
                }
                let more = tally(step.1, g, live, f, m, now);
                Counted { count: more.count, lanes: more.lanes, index: more.index + checked }
            },
        }
    }
}

/// A pull that brings an item takes at least one item off the lanes.
pub proof fn lemma_fetch_shrinks(
    lanes: Seq<Seq<Item>>,
    g: Merge,
    live: Map<u64, EventView>,
    compress: bool,
    f: FilterView,
    m: MatchIndex,
)
    ensures
        fetch(lanes, g, live, compress, f, m).item is Some ==> total(
            fetch(lanes, g, live, compress, f, m).lanes,
        ) < total(lanes),
        total(fetch(lanes, g, live, compress, f, m).lanes) <= total(lanes),
    decreases total(lanes),
{
    let step = merge_next(lanes, g.reverse, g.and, g.dedup);
    lemma_merge_next_shrinks(lanes, g.reverse, g.and, g.dedup);
    match step.0 {
        Some(Ok(key)) => {
            let stored = live.contains_key(key.uid);
            let ok = m is Off || (stored && accepts(m, f, live[key.uid].index));
            if !(ok && stored) {
                lemma_fetch_shrinks(step.1, g, live, compress, f, m);
            }
        },
        _ => {},
    }
}

/// All that a query yields, one pull after another, after `got` payloads
/// were fetched: it ends where the limit is met and where a pull brings
/// nothing.
pub open spec fn results(
    lanes: Seq<Seq<Item>>,
    g: Merge,
    live: Map<u64, EventView>,
    compress: bool,
    f: FilterView,
    m: MatchIndex,
    got: u64,
) -> Seq<Result<Seq<u8>, Error>>
    decreases total(lanes),
{
    if limit_met(f.limit, got) {
        Seq::empty()
    } else {
        let ft = fetch(lanes, g, live, compress, f, m);
        match ft.item {
            None => Seq::empty(),
            Some(x) => {
                proof {
                    lemma_fetch_shrinks(lanes, g, live, compress, f, m);
                }
                seq![x] + results(ft.lanes, g, live, compress, f, m, capped_sum(got, ft.data))
            },
        }
    }
}

/// A pull that brought nothing brings nothing again.
pub proof fn lemma_fetch_ended(
    lanes: Seq<Seq<Item>>,
    g: Merge,
    live: Map<u64, EventView>,
    compress: bool,
    f: FilterView,
    m: MatchIndex,
)
    requires
        fetch(lanes, g, live, compress, f, m).item is None,
    ensures
        fetch(fetch(lanes, g, live, compress, f, m).lanes, g, live, compress, f, m).item is None,
    decreases total(lanes),
{
    let step = merge_next(lanes, g.reverse, g.and, g.dedup);
    lemma_merge_next_shrinks(lanes, g.reverse, g.and, g.dedup);
    match step.0 {
        None => {
            crate::group::lemma_merge_next_ended(lanes, g.reverse, g.and, g.dedup);
        },
        Some(Ok(key)) => {
            lemma_fetch_ended(step.1, g, live, compress, f, m);
        },
        _ => {},
    }
}

/// After a pull that brought nothing the query yields nothing more.
pub proof fn lemma_results_ended(
    lanes: Seq<Seq<Item>>,
    g: Merge,
    live: Map<u64, EventView>,
    compress: bool,
    f: FilterView,
    m: MatchIndex,
    got: u64,
)
    requires
        fetch(lanes, g, live, compress, f, m).item is None || limit_met(f.limit, got),
    ensures
        results(lanes, g, live, compress, f, m, got).len() == 0,
{
}

/// A query at work: pulls candidates from the merged scans, holds them
/// against the filter where the plan asks for it, and fetches payloads.
pub struct Iter<'a> {
    reader: &'a Store,
    group: Group<'a>,
    get_data: u64,
    get_index: u64,
    filter: Filter,
    match_index: MatchIndex,
}

impl<'a> Iter<'a> {
    pub closed spec fn store(&self) -> Store {
        *self.reader
    }

    pub closed spec fn lanes(&self) -> Seq<Seq<Item>> {
        self.group.lanes()
    }

    pub closed spec fn merge(&self) -> Merge {
        Merge { reverse: self.group.reverse(), and: self.group.and(), dedup: self.group.dedup() }
    }

    pub closed spec fn filter(&self) -> FilterView {
        self.filter@
    }

    pub closed spec fn match_index(&self) -> MatchIndex {
        self.match_index
    }

    /// All that the query still yields, one pull after another.
    pub open spec fn pending(&self) -> Seq<Result<Seq<u8>, Error>> {
        results(
            self.lanes(),
            self.merge(),
            self.store()@.live,
            self.store()@.compress,
            self.filter(),
            self.match_index(),
            self.get_data(),
        )
    }

    /// Payloads fetched so far.
    pub closed spec fn get_data(&self) -> u64 {
        self.get_data
    }

    /// Index records fetched so far.
    pub closed spec fn get_index(&self) -> u64 {
        self.get_index
    }

    pub closed spec fn wf(&self) -> bool {
        &&& self.reader.wf()
        &&& self.group.wf()
    }

    /// The query over the scans of a group.
    pub fn new(reader: &'a Store, filter: &Filter, group: Group<'a>, match_index: MatchIndex) -> (it:
        Iter<'a>)
        requires
            reader.wf(),
            group.wf(),
        ensures
            it.wf(),
            it.store() == *reader,
            it.lanes() == group.lanes(),
            it.merge() == (Merge {
                reverse: group.reverse(),
                and: group.and(),
                dedup: group.dedup(),
            }),
            it.filter() == filter@,
            it.match_index() == match_index,
            it.get_data() == 0,
            it.get_index() == 0,
    {
        Iter { reader, group, get_data: 0, get_index: 0, filter: filter.copy(), match_index }
    }

    /// Whether `num` results meet the limit of the filter.
    fn limit(&self, num: u64) -> (r: bool)
        ensures
            r == limit_met(self.filter@.limit, num),
    {
        match self.filter.limit {
            Some(limit) => num >= limit,
            None => false,
        }
    }

    /// Whether the candidate is stored and its index record passes what is
    /// held against it.
    fn passes(&self, key: &IndexKey) -> (r: bool)
        requires
            self.wf(),
            !(self.match_index is Off),
        ensures
            r == (self.store()@.live.contains_key(key.uid) && accepts(
                self.match_index,
                self.filter@,
                self.store()@.live[key.uid].index,
            )),
    {
        match self.reader.get_index(key.uid) {
            Some(event) => match self.match_index {
                MatchIndex::Pubkey => Filter::match_author(
                    &self.filter.authors,
                    event.pubkey.as_slice(),
                    &event.delegator,
                ),
                _ => self.filter.match_archived(&event),
            },
            None => false,
        }
    }

    fn bump(n: u64) -> (r: u64)
        ensures
            r == capped_sum(n, 1),
    {
        if n < u64::MAX {
            n + 1
        } else {
            n
        }
    }

    /// The next payload, whatever the limit.
    fn next_inner(&mut self) -> (r: Option<Result<Vec<u8>, Error>>)
        requires
            old(self).wf(),
        ensures
            final(self).wf(),
            final(self).store() == old(self).store(),
            final(self).merge() == old(self).merge(),
            final(self).filter() == old(self).filter(),
            final(self).match_index() == old(self).match_index(),
            ({
                let got = fetch(
                    old(self).lanes(),
                    old(self).merge(),
                    old(self).store()@.live,
                    old(self).store()@.compress,
                    old(self).filter(),
                    old(self).match_index(),
                );
                &&& final(self).lanes() == got.lanes
                &&& final(self).get_data() == capped_sum(old(self).get_data(), got.data)
                &&& final(self).get_index() == capped_sum(old(self).get_index(), got.index)
                &&& match got.item {
                    None => r is None,
                    Some(Err(e)) => r == Some(Err::<Vec<u8>, Error>(e)),
                    Some(Ok(b)) => r matches Some(Ok(v)) && v@ == b,
                }
            }),
    {
        let ghost g = self.merge();
        let ghost live = self.store()@.live;
        let ghost c = self.store()@.compress;
        let ghost f = self.filter();
        let ghost m = self.match_index;
        let ghost target = fetch(old(self).lanes(), g, live, c, f, m);
        let ghost mut data: int = 0;
        let ghost mut index: int = 0;
        loop
            invariant
                self.wf(),
                self.reader == old(self).reader,
                self.merge() == g,
                g == old(self).merge(),
                self.filter@ == f,
                self.match_index == m,
                f == old(self).filter@,
                m == old(self).match_index,
                live == self.store()@.live,
                c == self.store()@.compress,
                0 <= data,
                0 <= index,
                self.get_data == capped_sum(old(self).get_data, data),
                self.get_index == capped_sum(old(self).get_index, index),
                target == fetch(old(self).lanes(), old(self).merge(), live, c, f, m),
                ({
                    let rest = fetch(self.lanes(), g, live, c, f, m);
                    &&& target.item == rest.item
                    &&& target.lanes == rest.lanes
                    &&& target.data == rest.data + data
                    &&& target.index == rest.index + index
                }),
            decreases total(self.lanes()),
        {
            let ghost lanes = self.lanes();
            proof {
                lemma_merge_next_shrinks(lanes, g.reverse, g.and, g.dedup);
            }
            match self.group.next() {
                None => {
                    return None;
                },
                Some(Err(e)) => {
                    return Some(Err(e));
                },
                Some(Ok(key)) => {
                    if self.match_index == MatchIndex::Off {
                        self.get_data = Self::bump(self.get_data);
                        proof {
                            data = data + 1;
                        }
                        match self.reader.get_data(key.uid) {
                            Some(event) => {
                                return Some(Ok(event));
                            },
                            None => {},
                        }
                    } else {
                        let ok = self.passes(&key);
                        self.get_index = Self::bump(self.get_index);
                        proof {
                            index = index + 1;
                        }
                        if ok {
                            self.get_data = Self::bump(self.get_data);
                            proof {
                                data = data + 1;
                            }
                            match self.reader.get_data(key.uid) {
                                Some(event) => {
                                    return Some(Ok(event));
                                },
                                None => {},
                            }
                        }
                    }
                },
            }
        }
    }

    /// The next payload of the query, or `None` once the limit of the filter
    /// is met or the candidates have run out.
    pub fn next(&mut self) -> (r: Option<Result<Vec<u8>, Error>>)
        requires
            old(self).wf(),
        ensures
            final(self).wf(),
            final(self).store() == old(self).store(),
            final(self).merge() == old(self).merge(),
            final(self).filter() == old(self).filter(),
            final(self).match_index() == old(self).match_index(),
            r.is_some() == (old(self).pending().len() > 0),
            r matches Some(item) ==> match old(self).pending()[0] {
                Ok(b) => item matches Ok(v) && v@ == b,
                Err(e) => item == Err::<Vec<u8>, Error>(e),
            },
            final(self).pending() == if r.is_some() {
                old(self).pending().skip(1)
            } else {
                old(self).pending()
            },
            limit_met(old(self).filter().limit, old(self).get_data()) ==> r is None
                && final(self).lanes() == old(self).lanes()
                && final(self).get_data() == old(self).get_data()
                && final(self).get_index() == old(self).get_index(),
            !limit_met(old(self).filter().limit, old(self).get_data()) ==> ({
                let got = fetch(
                    old(self).lanes(),
                    old(self).merge(),
                    old(self).store()@.live,
                    old(self).store()@.compress,
                    old(self).filter(),
                    old(self).match_index(),
                );
                &&& final(self).lanes() == got.lanes
                &&& final(self).get_data() == capped_sum(old(self).get_data(), got.data)
                &&& final(self).get_index() == capped_sum(old(self).get_index(), got.index)
                &&& match got.item {
                    None => r is None,
                    Some(Err(e)) => r == Some(Err::<Vec<u8>, Error>(e)),
                    Some(Ok(b)) => r matches Some(Ok(v)) && v@ == b,
                }
            }),
    {
        if self.limit(self.get_data) {
            None
        } else {
            let ghost before = self.pending();
            let ghost lanes = self.lanes();
            let r = self.next_inner();
            proof {
                if r.is_some() {
                    assert(before.skip(1) =~= self.pending());
                } else {
                    lemma_fetch_ended(
                        lanes,
                        self.merge(),
                        self.store()@.live,
                        self.store()@.compress,
                        self.filter(),
                        self.match_index(),
                    );
                    lemma_results_ended(
                        self.lanes(),
                        self.merge(),
                        self.store()@.live,
                        self.store()@.compress,
                        self.filter(),
                        self.match_index(),
                        self.get_data(),
                    );
                }
            }
            r
        }
    }

    /// How many index entries the scans of the query have examined so far.
    pub closed spec fn examined(&self) -> int {
        Group::examined(self.group.scanners())
    }

    /// The counters of the query so far.
    pub fn stats(&self) -> (r: Stats)
        requires
            self.wf(),
        ensures
            r.get_data == self.get_data(),
            r.get_index == self.get_index(),
            r.scan_index == capped_sum(0, self.examined()),
    {
        Stats {
            scan_index: self.group.scan_index(),
            get_data: self.get_data,
            get_index: self.get_index,
        }
    }
}

/// Whether the scans of a matcher can read the entries of a table.
pub open spec fn fits(t: Table, m: MatcherView) -> bool {
    &&& scannable(t)
    &&& m is Tag ==> t is Tag
    &&& m is HexKinds ==> t is PubkeyKind
}

/// Scans over a table of a store in order, with matchers that fit the table,
/// report nothing.
pub proof fn lemma_plan_clean(store: &Store, t: Table, plan: Seq<ScanView>)
    requires
        store.wf(),
        forall|i: int| 0 <= i < plan.len() ==> fits(t, (#[trigger] plan[i]).matcher),
    ensures
        forall|i: int, j: int|
            0 <= i < plan.len() && 0 <= j < plan_lanes(store.table(t)@, plan)[i].len()
                ==> (#[trigger] plan_lanes(store.table(t)@, plan)[i][j]) is Ok,
        forall|i: int| !first_report(plan_lanes(store.table(t)@, plan), i),
{
    let tree = store.table(t)@;
    store.lemma_table_wf(t);
    assert forall|i: int, j: int|
        0 <= i < plan.len() && 0 <= j < plan_lanes(tree, plan)[i].len() implies (
    #[trigger] plan_lanes(tree, plan)[i][j]) is Ok by {
        let scan = plan[i];
        let domain = scan_domain(tree, scan.prefix, scan.reverse);
        let edge = start_edge(tree, scan.prefix, scan.reverse);
        lemma_ranks(tree, scan.prefix);
        if upper_spec(scan.prefix) is Some {
            lemma_ranks(tree, upper_spec(scan.prefix).unwrap());
        }
        assert forall|x: int| 0 <= x < domain.len() implies readable(
            scan.matcher,
            (#[trigger] domain[x]).0,
            domain[x].1,
        ) by {
            let at = if scan.reverse {
                edge - 1 - x
            } else {
                edge + x
            };
            assert(domain[x] == tree[at]);
            store.lemma_table_shaped(t, at);
        }
        scan.lemma_output_clean(domain);
    }
    assert forall|i: int| !first_report(plan_lanes(tree, plan), i) by {
        if first_report(plan_lanes(tree, plan), i) {
            assert(plan_lanes(tree, plan)[i][0] is Ok);
        }
    }
}

impl<'a> Iter<'a> {
    /// The query that the scans of a plan over one table of the store
    /// answer.
    fn over(
        reader: &'a Store,
        filter: &Filter,
        view: Table,
        scans: &Vec<Scan>,
        and: bool,
        dedup: bool,
        match_index: MatchIndex,
    ) -> (r: Result<Iter<'a>, Error>)
        requires
            reader.wf(),
        ensures
            r matches Ok(it) ==> it.answers(
                reader,
                filter@,
                view,
                scans_view(scans@),
                and,
                dedup,
                match_index,
            ),
            r.is_err() == exists|i: int|
                first_report(plan_lanes(reader.table(view)@, scans_view(scans@)), i),
    {
        proof {
            reader.lemma_table_wf(view);
        }
        match build(reader.tree(view), scans, filter.desc, and, dedup) {
            Ok(group) => Ok(Iter::new(reader, filter, group, match_index)),
            Err(e) => Err(e),
        }
    }

    /// The query stands at its start: it reads `reader`, its lanes are what
    /// the scans of `plan` yield from table `view`, and nothing was fetched.
    pub open spec fn answers(
        &self,
        reader: &Store,
        f: FilterView,
        view: Table,
        plan: Seq<ScanView>,
        and: bool,
        dedup: bool,
        match_index: MatchIndex,
    ) -> bool {
        &&& self.wf()
        &&& self.store() == *reader
        &&& self.lanes() == plan_lanes(reader.table(view)@, plan)
        &&& self.merge() == (Merge { reverse: f.desc, and, dedup })
        &&& self.filter() == f
        &&& self.match_index() == match_index
        &&& self.get_data() == 0
        &&& self.get_index() == 0
    }

    /// The query by time over the index by creation time or by expiration.
    pub fn new_time(reader: &'a Store, filter: &Filter, view: Table, match_index: MatchIndex) -> (r:
        Result<Iter<'a>, Error>)
        requires
            reader.wf(),
            view is Time || view is Expiration,
        ensures
            r matches Ok(it) && it.answers(
                reader,
                filter@,
                view,
                time_plan(filter@),
                false,
                false,
                match_index,
            ),
    {
        let scans = filter.plan_time();
        proof {
            lemma_plan_clean(reader, view, scans_view(scans@));
        }
        Iter::over(reader, filter, view, &scans, false, false, match_index)
    }

    /// The query by kind.
    pub fn new_kind(reader: &'a Store, filter: &Filter, match_index: MatchIndex) -> (r: Result<
        Iter<'a>,
        Error,
    >)
        requires
            reader.wf(),
            filter.kinds is Some,
        ensures
            r matches Ok(it) && it.answers(
                reader,
                filter@,
                Table::Kind,
                kind_plan(filter@),
                false,
                false,
                match_index,
            ),
    {
        let scans = filter.plan_kind();
        proof {
            lemma_plan_clean(reader, Table::Kind, scans_view(scans@));
        }
        Iter::over(reader, filter, Table::Kind, &scans, false, false, match_index)
    }

    /// The query by tag: a result of several scans comes out once.
    pub fn new_tag(reader: &'a Store, filter: &Filter, match_index: MatchIndex) -> (r: Result<
        Iter<'a>,
        Error,
    >)
        requires
            reader.wf(),
        ensures
            r matches Ok(it) && it.answers(
                reader,
                filter@,
                Table::Tag,
                tag_plan(filter@),
                false,
                true,
                match_index,
            ),
    {
        let scans = filter.plan_tag();
        proof {
            lemma_tag_plan_matchers(filter@, filter@.tags.len() as int);
            lemma_plan_clean(reader, Table::Tag, scans_view(scans@));
        }
        Iter::over(reader, filter, Table::Tag, &scans, false, true, match_index)
    }

    /// The query by author and kind. It fails where an author is not
    /// hexadecimal.
    pub fn new_author_kind(reader: &'a Store, filter: &Filter, match_index: MatchIndex) -> (r:
        Result<Iter<'a>, Error>)
        requires
            reader.wf(),
            filter.authors is Some,
            filter.kinds is Some,
        ensures
            r.is_ok() == all_hex(filter@.authors.unwrap(), filter.desc),
            r matches Err(e) ==> e == Error::Hex,
            r matches Ok(it) ==> it.answers(
                reader,
                filter@,
                Table::PubkeyKind,
                author_kind_plan(filter@),
                false,
                false,
                match_index,
            ),
    {
        match filter.plan_author_kind() {
            Ok(scans) => {
                proof {
                    lemma_author_kind_plan_matchers(
                        filter@,
                        filter@.authors.unwrap().len() as int,
                    );
                    lemma_plan_clean(reader, Table::PubkeyKind, scans_view(scans@));
                }
                Iter::over(reader, filter, Table::PubkeyKind, &scans, false, false, match_index)
            },
            Err(e) => Err(e),
        }
    }

    /// The query by hexadecimal prefix over the index by id or by public
    /// key. It fails where a prefix is not hexadecimal.
    pub fn new_prefix(
        reader: &'a Store,
        filter: &Filter,
        ids: &Vec<Vec<u8>>,
        view: Table,
        match_index: MatchIndex,
    ) -> (r: Result<Iter<'a>, Error>)
        requires
            reader.wf(),
            view is Id || view is Pubkey,
        ensures
            r.is_ok() == all_hex(words_view(ids@), filter.desc),
            r matches Err(e) ==> e == Error::Hex,
            r matches Ok(it) ==> it.answers(
                reader,
                filter@,
                view,
                prefix_plan(filter@, words_view(ids@)),
                false,
                false,
                match_index,
            ),
    {
        match filter.plan_prefix(ids) {
            Ok(scans) => {
                proof {
                    lemma_plan_clean(reader, view, scans_view(scans@));
                }
                Iter::over(reader, filter, view, &scans, false, false, match_index)
            },
            Err(e) => Err(e),
        }
    }

    /// The query by word: a result must come from the scan of every word.
    pub fn new_word(reader: &'a Store, filter: &Filter, match_index: MatchIndex) -> (r: Result<
        Iter<'a>,
        Error,
    >)
        requires
            reader.wf(),
        ensures
            r matches Ok(it) && it.answers(
                reader,
                filter@,
                Table::Word,
                word_plan(filter@),
                true,
                true,
                match_index,
            ),
    {
        let scans = filter.plan_word();
        proof {
            lemma_plan_clean(reader, Table::Word, scans_view(scans@));
        }
        Iter::over(reader, filter, Table::Word, &scans, true, true, match_index)
    }

    /// The query for a filter: the driving index is picked and its scans
    /// are set to work. It fails where a prefix that the plan decodes is not
    /// hexadecimal.
    pub fn open(reader: &'a Store, filter: &Filter) -> (r: Result<Iter<'a>, Error>)
        requires
            reader.wf(),
        ensures
            r.is_err() == plan_fails(filter@),
            r matches Err(e) ==> e == Error::Hex,
            r matches Ok(it) ==> it.answers(
                reader,
                filter@,
                chosen(filter@).table,
                chosen(filter@).plan,
                chosen(filter@).and,
                chosen(filter@).dedup,
                chosen(filter@).match_index,
            ),
    {
        let other = filter.tags.len() > 0 || filter.authors.is_some() || filter.kinds.is_some();
        if filter.words.is_some() {
            let match_index = if filter.ids.is_some() || other {
                MatchIndex::All
            } else {
                MatchIndex::Off
            };
            Iter::new_word(reader, filter, match_index)
        } else if filter.ids.is_some() {
            let match_index = if other {
                MatchIndex::All
            } else {
                MatchIndex::Off
            };
            match &filter.ids {
                Some(ids) => Iter::new_prefix(reader, filter, ids, Table::Id, match_index),
                None => Err(Error::Hex),
            }
        } else if filter.tags.len() > 0 {
            let match_index = if filter.authors.is_some() && filter.kinds.is_none()
                && filter.tags.len() == 1 {
                MatchIndex::Pubkey
            } else {
                MatchIndex::All
            };
            Iter::new_tag(reader, filter, match_index)
        } else if filter.authors.is_some() && filter.kinds.is_some() {
            Iter::new_author_kind(reader, filter, MatchIndex::Off)
        } else if filter.authors.is_some() {
            match &filter.authors {
                Some(ids) => Iter::new_prefix(reader, filter, ids, Table::Pubkey, MatchIndex::Off),
                None => Err(Error::Hex),
            }
        } else if filter.kinds.is_some() {
            Iter::new_kind(reader, filter, MatchIndex::Off)
        } else {
            Iter::new_time(reader, filter, Table::Time, MatchIndex::Off)
        }
    }

    /// The filter of the sweep for expired events: all up to `until`, in the
    /// order of their expiration.
    pub open spec fn expiration_filter(until: Option<u64>) -> FilterView {
        FilterView {
            ids: None,
            authors: None,
            kinds: None,
            tags: Seq::empty(),
            since: None,
            until,
            limit: None,
            desc: false,
            words: None,
        }
    }

    /// The sweep for expired events: the events whose expiration is `until`
    /// or before it, the first to expire first.
    pub fn open_expiration(reader: &'a Store, until: Option<u64>) -> (r: Result<Iter<'a>, Error>)
        requires
            reader.wf(),
        ensures
            r matches Ok(it) && it.answers(
                reader,
                Self::expiration_filter(until),
                Table::Expiration,
                time_plan(Self::expiration_filter(until)),
                false,
                false,
                MatchIndex::Off,
            ),
    {
        let mut filter = Filter::new();
        filter.until = until;
        Iter::new_time(reader, &filter, Table::Expiration, MatchIndex::Off)
    }

    /// Counts the results of the query without fetching a payload: the
    /// candidates that pass what is held against their index records, and no
    /// more of them than the limit of the filter allows. It is the number of
    /// payloads that the query would yield.
    pub fn size(self) -> (r: Result<(u64, Stats), Error>)
        requires
            self.wf(),
        ensures
            ({
                let t = tally(
                    self.lanes(),
                    self.merge(),
                    self.store()@.live,
                    self.filter(),
                    self.match_index(),
                    0,
                );
                match t.count {
                    Ok(n) => r matches Ok(got) && got.0 == n && got.1.get_data == 0
                        && got.1.get_index == capped_sum(self.get_index(), t.index),
                    Err(e) => r == Err::<(u64, Stats), Error>(e),
                }
            }),
    {
        let mut it = self;
        let ghost g = it.merge();
        let ghost live = it.store()@.live;
        let ghost f = it.filter();
        let ghost m = it.match_index;
        let ghost target = tally(it.lanes(), g, live, f, m, 0);
        let ghost mut index: int = 0;
        let mut len: u64 = 0;
        loop
            invariant
                it.wf(),
                it.reader == self.reader,
                it.merge() == g,
                it.filter@ == f,
                it.match_index == m,
                g == self.merge(),
                f == self.filter@,
                m == self.match_index,
                live == it.store()@.live,
                0 <= index,
                it.get_index == capped_sum(self.get_index, index),
                target == tally(self.lanes(), self.merge(), live, f, m, 0),
                ({
                    let rest = tally(it.lanes(), g, live, f, m, len);
                    &&& target.count == rest.count
                    &&& target.index == rest.index + index
                }),
            decreases total(it.lanes()),
        {
            if it.limit(len) {
                return Ok((len, it.counted()));
            }
            proof {
                lemma_merge_next_shrinks(it.lanes(), g.reverse, g.and, g.dedup);
            }
            match it.group.next() {
                None => {
                    return Ok((len, it.counted()));
                },
                Some(Err(e)) => {
                    return Err(e);
                },
                Some(Ok(key)) => {
                    if it.match_index == MatchIndex::Off {
                        len = Self::bump(len);
                    } else {
                        let ok = it.passes(&key);
                        it.get_index = Self::bump(it.get_index);
                        proof {
                            index = index + 1;
                        }
                        if ok {
                            len = Self::bump(len);
                        }
                    }
                },
            }
        }
    }

    /// The counters of a count: no payload was fetched.
    fn counted(&self) -> (r: Stats)
        requires
            self.wf(),
        ensures
            r.get_data == 0,
            r.get_index == self.get_index(),
    {
        Stats { get_data: 0, get_index: self.get_index, scan_index: self.group.scan_index() }
    }
}

} // verus!
