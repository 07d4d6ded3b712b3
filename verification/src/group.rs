//! A group of scans that share a direction, merged into one ordered
//! stream.

use vstd::prelude::*;
use crate::error::Error;
use crate::key::IndexKey;
use crate::scanner::{capped_sum, Scanner};

verus! {

/// What a scan yields: a result, or the report of an entry that could not
/// be read.
pub type Item = Result<IndexKey, Error>;

/// Whether `a` comes strictly before `b` in a merged stream: by time, then
/// by identifier, upwards or downwards.
pub open spec fn before(a: IndexKey, b: IndexKey, reverse: bool) -> bool {
    if reverse {
        a.time > b.time || (a.time == b.time && a.uid > b.uid)
    } else {
        a.time < b.time || (a.time == b.time && a.uid < b.uid)
    }
}

/// Whether two results stand for the same event at the same time.
pub open spec fn same_key(a: IndexKey, b: IndexKey) -> bool {
    a.time == b.time && a.uid == b.uid
}

/// The lane has a result at its front.
pub open spec fn front_ok(lane: Seq<Item>) -> bool {
    lane.len() > 0 && lane[0] is Ok
}

/// The lane has a report at its front.
pub open spec fn front_err(lane: Seq<Item>) -> bool {
    lane.len() > 0 && lane[0] is Err
}

/// The result at the front of a lane.
pub open spec fn front(lane: Seq<Item>) -> IndexKey {
    lane[0]->Ok_0
}

/// Lane `i` is the first lane with a report at its front.
pub open spec fn is_first_error(lanes: Seq<Seq<Item>>, i: int) -> bool {
    &&& 0 <= i < lanes.len()
    &&& front_err(lanes[i])
    &&& forall|j: int| 0 <= j < i ==> !front_err(#[trigger] lanes[j])
}

/// Lane `j` has the result at its front that comes first of all fronts;
/// among lanes whose fronts are level, it is the first lane.
pub open spec fn is_best(lanes: Seq<Seq<Item>>, j: int, reverse: bool) -> bool {
    &&& 0 <= j < lanes.len()
    &&& front_ok(lanes[j])
    &&& forall|i: int|
        0 <= i < j && front_ok(#[trigger] lanes[i]) ==> before(
            front(lanes[j]),
            front(lanes[i]),
            reverse,
        )
    &&& forall|i: int|
        j < i < lanes.len() && front_ok(#[trigger] lanes[i]) ==> !before(
            front(lanes[i]),
            front(lanes[j]),
            reverse,
        )
}

/// Every lane has at its front a result for the event and time of `k`.
pub open spec fn all_fronts_same(lanes: Seq<Seq<Item>>, k: IndexKey) -> bool {
    forall|i: int|
        0 <= i < lanes.len() ==> front_ok(#[trigger] lanes[i]) && same_key(front(lanes[i]), k)
}

/// Whether taking the front of lane `j` takes the front of lane `i` along.
pub open spec fn taken(lanes: Seq<Seq<Item>>, j: int, i: int, level: bool) -> bool {
    i == j || (level && front_ok(lanes[i]) && same_key(front(lanes[i]), front(lanes[j])))
}

/// The lanes after the front of lane `j` was taken; with `level`, every
/// front for the same event and time goes with it.
pub open spec fn drop_fronts(lanes: Seq<Seq<Item>>, j: int, level: bool) -> Seq<Seq<Item>> {
    Seq::new(
        lanes.len(),
        |i: int|
            if taken(lanes, j, i, level) {
                lanes[i].skip(1)
            } else {
                lanes[i]
            },
    )
}

/// The items of all lanes together.
pub open spec fn total(lanes: Seq<Seq<Item>>) -> nat
    decreases lanes.len(),
{
    if lanes.len() == 0 {
        0
    } else {
        total(lanes.drop_last()) + lanes.last().len()
    }
}

pub proof fn lemma_total_shrinks(a: Seq<Seq<Item>>, b: Seq<Seq<Item>>, j: int)
    requires
        a.len() == b.len(),
        0 <= j < a.len(),
        forall|i: int| 0 <= i < a.len() ==> (#[trigger] b[i]).len() <= a[i].len(),
        b[j].len() < a[j].len(),
    ensures
        total(b) < total(a),
    decreases a.len(),
{
    lemma_total_no_growth(a.drop_last(), b.drop_last());
    if j < a.len() - 1 {
        lemma_total_shrinks(a.drop_last(), b.drop_last(), j);
    }
}

pub proof fn lemma_total_no_growth(a: Seq<Seq<Item>>, b: Seq<Seq<Item>>)
    requires
        a.len() == b.len(),
        forall|i: int| 0 <= i < a.len() ==> (#[trigger] b[i]).len() <= a[i].len(),
    ensures
        total(b) <= total(a),
    decreases a.len(),
{
    if a.len() > 0 {
        lemma_total_no_growth(a.drop_last(), b.drop_last());
    }
}

/// What a group yields next from its lanes, and the lanes that are left.
///
/// A report at the front of a lane comes out first, from the first such
/// lane. Else the front that comes first of all comes out, and with `dedup`
/// or `and` every front for the same event and time goes with it. With
/// `and` it comes out only if every lane had such a front; if not, it is
/// swallowed and the next one is looked for.
pub open spec fn merge_next(lanes: Seq<Seq<Item>>, reverse: bool, and: bool, dedup: bool) -> (
    Option<Item>,
    Seq<Seq<Item>>,
)
    decreases total(lanes),
{
    if exists|i: int| is_first_error(lanes, i) {
        let i = choose|i: int| is_first_error(lanes, i);
        (Some(lanes[i][0]), lanes.update(i, lanes[i].skip(1)))
    } else if exists|j: int| is_best(lanes, j, reverse) {
        let j = choose|j: int| is_best(lanes, j, reverse);
        let k = front(lanes[j]);
        let rest = drop_fronts(lanes, j, and || dedup);
        if and && !all_fronts_same(lanes, k) {
            proof {
                lemma_total_shrinks(lanes, rest, j);
            }
            merge_next(rest, reverse, and, dedup)
        } else {
            (Some(Ok(k)), rest)
        }
    } else {
        (None, lanes)
    }
}

/// Lane `i` of `lanes` is the first with a report at its front, the report
/// is `e`, and `rest` is `lanes` without that report.
pub open spec fn told(lanes: Seq<Seq<Item>>, rest: Seq<Seq<Item>>, i: int, e: Error) -> bool {
    &&& is_first_error(lanes, i)
    &&& lanes[i][0] == Err::<IndexKey, Error>(e)
    &&& rest == lanes.update(i, lanes[i].skip(1))
}

/// Each step of a merge takes at least one item off the lanes; it adds none
/// and keeps the number of lanes.
pub proof fn lemma_merge_next_shrinks(lanes: Seq<Seq<Item>>, reverse: bool, and: bool, dedup: bool)
    ensures
        merge_next(lanes, reverse, and, dedup).1.len() == lanes.len(),
        total(merge_next(lanes, reverse, and, dedup).1) <= total(lanes),
        merge_next(lanes, reverse, and, dedup).0 is Some ==> total(
            merge_next(lanes, reverse, and, dedup).1,
        ) < total(lanes),
    decreases total(lanes),
{
    if exists|i: int| is_first_error(lanes, i) {
        let i = choose|i: int| is_first_error(lanes, i);
        lemma_total_shrinks(lanes, lanes.update(i, lanes[i].skip(1)), i);
    } else if exists|j: int| is_best(lanes, j, reverse) {
        let j = choose|j: int| is_best(lanes, j, reverse);
        let k = front(lanes[j]);
        let rest = drop_fronts(lanes, j, and || dedup);
        lemma_total_shrinks(lanes, rest, j);
        if and && !all_fronts_same(lanes, k) {
            lemma_merge_next_shrinks(rest, reverse, and, dedup);
        }
    }
}

/// A group that yielded nothing yields nothing again.
pub proof fn lemma_merge_next_ended(lanes: Seq<Seq<Item>>, reverse: bool, and: bool, dedup: bool)
    requires
        merge_next(lanes, reverse, and, dedup).0 is None,
    ensures
        merge_next(merge_next(lanes, reverse, and, dedup).1, reverse, and, dedup).0 is None,
    decreases total(lanes),
{
    if exists|i: int| is_first_error(lanes, i) {
    } else if exists|j: int| is_best(lanes, j, reverse) {
        let j = choose|j: int| is_best(lanes, j, reverse);
        let rest = drop_fronts(lanes, j, and || dedup);
        lemma_total_shrinks(lanes, rest, j);
        lemma_merge_next_ended(rest, reverse, and, dedup);
    }
}

pub proof fn lemma_first_error_unique(lanes: Seq<Seq<Item>>, a: int, b: int)
    requires
        is_first_error(lanes, a),
        is_first_error(lanes, b),
    ensures
        a == b,
{
    if a < b {
        assert(!front_err(lanes[a]));
    } else if b < a {
        assert(!front_err(lanes[b]));
    }
}

pub proof fn lemma_best_unique(lanes: Seq<Seq<Item>>, a: int, b: int, reverse: bool)
    requires
        is_best(lanes, a, reverse),
        is_best(lanes, b, reverse),
    ensures
        a == b,
{
    if a < b {
        assert(front_ok(lanes[a]));
        assert(before(front(lanes[b]), front(lanes[a]), reverse));
        assert(front_ok(lanes[b]));
        assert(!before(front(lanes[b]), front(lanes[a]), reverse));
    } else if b < a {
        assert(front_ok(lanes[b]));
        assert(before(front(lanes[a]), front(lanes[b]), reverse));
        assert(front_ok(lanes[a]));
        assert(!before(front(lanes[a]), front(lanes[b]), reverse));
    }
}

/// Whether `a` comes strictly before `b` in a merged stream.
pub fn comes_before(a: &IndexKey, b: &IndexKey, reverse: bool) -> (r: bool)
    ensures
        r == before(*a, *b, reverse),
{
    if reverse {
        a.time > b.time || (a.time == b.time && a.uid > b.uid)
    } else {
        a.time < b.time || (a.time == b.time && a.uid < b.uid)
    }
}

/// Scans that share a direction, merged.
pub struct Group<'a> {
    scanners: Vec<Scanner<'a>>,
    heads: Vec<Option<IndexKey>>,
    reverse: bool,
    and: bool,
    dedup: bool,
}

impl<'a> Group<'a> {
    pub closed spec fn reverse(&self) -> bool {
        self.reverse
    }

    /// Whether a result comes out only if every scan has it.
    pub closed spec fn and(&self) -> bool {
        self.and
    }

    /// Whether a result that several scans have comes out once.
    pub closed spec fn dedup(&self) -> bool {
        self.dedup
    }

    /// The scans of the group, in the order in which they were added.
    pub closed spec fn scanners(&self) -> Seq<Scanner<'a>> {
        self.scanners@
    }

    /// What scan `i` still yields, with the result that the group holds
    /// for it at its front.
    pub closed spec fn lane(&self, i: int) -> Seq<Item> {
        match self.heads@[i] {
            Some(h) => seq![Ok(h)] + self.scanners@[i].pending(),
            None => self.scanners@[i].pending(),
        }
    }

    /// What the scans still yield, one lane for each.
    pub closed spec fn lanes(&self) -> Seq<Seq<Item>> {
        Seq::new(self.scanners@.len(), |i: int| self.lane(i))
    }

    pub closed spec fn wf(&self) -> bool {
        &&& self.heads@.len() == self.scanners@.len()
        &&& forall|i: int| 0 <= i < self.scanners@.len() ==> (#[trigger] self.scanners@[i]).wf()
    }

    /// The group holds the front of every lane that has one, and no front
    /// is a report.
    closed spec fn filled(&self) -> bool {
        forall|i: int|
            0 <= i < self.heads@.len() ==> ((#[trigger] self.heads@[i]) is None
                ==> self.scanners@[i].pending().len() == 0)
    }

    /// How many entries the scans of the group have examined.
    pub open spec fn examined(scanners: Seq<Scanner<'a>>) -> int
        decreases scanners.len(),
    {
        if scanners.len() == 0 {
            0
        } else {
            Self::examined(scanners.drop_last()) + scanners.last().scanned()
        }
    }

/// A group without scans.
    pub fn new(reverse: bool, and: bool, dedup: bool) -> (g: Group<'a>)
        ensures
            g.wf(),
            g.reverse() == reverse,
            g.and() == and,
            g.dedup() == dedup,
            g.lanes() == Seq::<Seq<Item>>::empty(),
            g.scanners() == Seq::<Scanner<'a>>::empty(),
    {
        let g = Group { scanners: Vec::new(), heads: Vec::new(), reverse, and, dedup };
        assert(g.lanes() =~= Seq::<Seq<Item>>::empty());
        g
    }

    /// Adds a scan. Its first result is fetched at once: where the first
    /// entry that the scan comes upon cannot be read, that is told and
    /// the scan is not added.
    pub fn add(&mut self, scanner: Scanner<'a>) -> (r: Result<(), Error>)
        requires
            old(self).wf(),
            scanner.wf(),
        ensures
            final(self).wf(),
            final(self).reverse() == old(self).reverse(),
            final(self).and() == old(self).and(),
            final(self).dedup() == old(self).dedup(),
            r.is_err() == front_err(scanner.pending()),
            r matches Err(e) ==> scanner.pending()[0] == Err::<IndexKey, Error>(e)
                && final(self).lanes() == old(self).lanes(),
            r.is_ok() ==> final(self).lanes() == old(self).lanes().push(scanner.pending()),
    {
        let mut scanner = scanner;
        let ghost lanes0 = self.lanes();
        let ghost stream = scanner.pending();
        match scanner.next() {
            Some(Err(e)) => Err(e),
            Some(Ok(k)) => {
                self.scanners.push(scanner);
                self.heads.push(Some(k));
                proof {
                    assert(seq![Ok::<IndexKey, Error>(k)] + stream.skip(1) =~= stream);
                    assert forall|i: int| 0 <= i < lanes0.len() implies self.lane(i)
                        == lanes0[i] by {
                        assert(self.lane(i) == old(self).lane(i));
                    }
                    assert(self.lanes() =~= lanes0.push(stream));
                }
                Ok(())
            },
            None => {
                self.scanners.push(scanner);
                self.heads.push(None);
                proof {
                    assert forall|i: int| 0 <= i < lanes0.len() implies self.lane(i)
                        == lanes0[i] by {
                        assert(self.lane(i) == old(self).lane(i));
                    }
                    assert(self.lanes() =~= lanes0.push(stream));
                }
                Ok(())
            },
        }
    }

    /// Fetches the front of every lane whose front the group does not hold.
    /// A report that turns up is handed back at once.
    fn refill(&mut self) -> (r: Option<Error>)
        requires
            old(self).wf(),
        ensures
            final(self).wf(),
            final(self).reverse() == old(self).reverse(),
            final(self).and() == old(self).and(),
            final(self).dedup() == old(self).dedup(),
            r is None ==> final(self).lanes() == old(self).lanes() && final(self).filled(),
            r matches Some(e) ==> exists|i: int|
                told(old(self).lanes(), final(self).lanes(), i, e),
    {
        let ghost lanes0 = self.lanes();
        let n = self.scanners.len();
        let mut i: usize = 0;
        while i < n
            invariant
                i <= n,
                n == self.scanners@.len(),
                self.wf(),
                self.reverse == old(self).reverse,
                self.and == old(self).and,
                self.dedup == old(self).dedup,
                self.lanes() == lanes0,
                lanes0 == old(self).lanes(),
                lanes0.len() == n,
                forall|j: int|
                    0 <= j < i ==> ((#[trigger] self.heads@[j]) is None
                        ==> self.scanners@[j].pending().len() == 0),
                forall|j: int| 0 <= j < i ==> !front_err(#[trigger] lanes0[j]),
            decreases n - i,
        {
            let ghost cur = *self;
            if self.heads[i].is_none() {
                let got = self.scanners[i].next();
                match got {
                    Some(Ok(k)) => {
                        self.heads[i] = Some(k);
                        proof {
                            let stream = cur.scanners@[i as int].pending();
                            assert(seq![Ok::<IndexKey, Error>(k)] + stream.skip(1) =~= stream);
                            assert forall|j: int| 0 <= j < n implies self.lane(j) == lanes0[j] by {
                                assert(cur.lane(j) == lanes0[j]);
                            }
                            assert(self.lanes() =~= lanes0);
                        }
                    },
                    Some(Err(e)) => {
                        proof {
                            assert(cur.lane(i as int) == lanes0[i as int]);
                            assert forall|j: int| 0 <= j < n implies self.lane(j) == lanes0.update(
                                i as int,
                                lanes0[i as int].skip(1),
                            )[j] by {
                                assert(cur.lane(j) == lanes0[j]);
                            }
                            assert(self.lanes() =~= lanes0.update(
                                i as int,
                                lanes0[i as int].skip(1),
                            ));
                            assert(is_first_error(lanes0, i as int));
                            assert(lanes0[i as int][0] == Err::<IndexKey, Error>(e));
                            assert(told(lanes0, self.lanes(), i as int, e));
                        }
                        return Some(e);
                    },
                    None => {
                        proof {
                            assert forall|j: int| 0 <= j < n implies self.lane(j) == lanes0[j] by {
                                assert(cur.lane(j) == lanes0[j]);
                            }
                            assert(self.lanes() =~= lanes0);
                        }
                    },
                }
            }
            proof {
                assert(self.lane(i as int) == lanes0[i as int]);
            }
            i += 1;
        }
        None
    }

    /// The lane whose front comes first of all, if any lane has a front.
    fn pick(&self) -> (r: Option<usize>)
        requires
            self.wf(),
            self.filled(),
        ensures
            r matches Some(j) ==> is_best(self.lanes(), j as int, self.reverse())
                && self.heads@[j as int] == Some(front(self.lanes()[j as int])),
            r is None ==> forall|j: int| !is_best(self.lanes(), j, self.reverse()),
            forall|i: int| !is_first_error(self.lanes(), i),
    {
        let ghost lanes = self.lanes();
        let n = self.heads.len();
        let mut best: Option<usize> = None;
        let mut i: usize = 0;
        proof {
            assert forall|j: int| 0 <= j < n implies (front_ok(#[trigger] lanes[j])
                == self.heads@[j] is Some && !front_err(lanes[j]) && (self.heads@[j] matches Some(
                h,
            ) ==> front(lanes[j]) == h)) by {
                assert(lanes[j] == self.lane(j));
            }
        }
        while i < n
            invariant
                i <= n,
                n == self.heads@.len(),
                lanes == self.lanes(),
                lanes.len() == n,
                forall|j: int|
                    0 <= j < n ==> (front_ok(#[trigger] lanes[j]) == self.heads@[j] is Some && (
                    self.heads@[j] matches Some(h) ==> front(lanes[j]) == h)),
                best matches Some(b) ==> b < i && front_ok(lanes[b as int]) && (forall|j: int|
                    0 <= j < b && front_ok(#[trigger] lanes[j]) ==> before(
                        front(lanes[b as int]),
                        front(lanes[j]),
                        self.reverse,
                    )) && (forall|j: int|
                    b < j < i && front_ok(#[trigger] lanes[j]) ==> !before(
                        front(lanes[j]),
                        front(lanes[b as int]),
                        self.reverse,
                    )),
                best is None ==> forall|j: int| 0 <= j < i ==> !front_ok(#[trigger] lanes[j]),
            decreases n - i,
        {
            match &self.heads[i] {
                Some(k) => {
                    match best {
                        Some(b) => {
                            let cur = self.heads[b].unwrap();
                            if comes_before(k, &cur, self.reverse) {
                                proof {
                                    assert forall|j: int|
                                        0 <= j < i && front_ok(#[trigger] lanes[j]) implies before(
                                        *k,
                                        front(lanes[j]),
                                        self.reverse,
                                    ) by {
                                        if j < b {
                                            assert(before(cur, front(lanes[j]), self.reverse));
                                        } else if j > b {
                                            assert(!before(front(lanes[j]), cur, self.reverse));
                                        }
                                    }
                                }
                                best = Some(i);
                            }
                        },
                        None => {
                            best = Some(i);
                        },
                    }
                },
                None => {},
            }
            i += 1;
        }
        proof {
            if best is None {
                assert forall|j: int| !is_best(lanes, j, self.reverse) by {
                    if 0 <= j < n {
                        assert(!front_ok(lanes[j]));
                    }
                }
            }
        }
        best
    }

    /// Takes the front of lane `j` and, where fronts for the same event and
    /// time go together, those fronts with it. Returns the front and whether
    /// every lane had such a front.
    fn take(&mut self, j: usize) -> (r: (IndexKey, bool))
        requires
            old(self).wf(),
            old(self).filled(),
            is_best(old(self).lanes(), j as int, old(self).reverse()),
        ensures
            final(self).wf(),
            final(self).reverse() == old(self).reverse(),
            final(self).and() == old(self).and(),
            final(self).dedup() == old(self).dedup(),
            r.0 == front(old(self).lanes()[j as int]),
            r.1 == all_fronts_same(old(self).lanes(), r.0),
            final(self).lanes() == drop_fronts(
                old(self).lanes(),
                j as int,
                old(self).and() || old(self).dedup(),
            ),
    {
        let ghost lanes0 = self.lanes();
        let n = self.heads.len();
        let level = self.and || self.dedup;
        proof {
            assert(lanes0[j as int] == self.lane(j as int));
        }
        let k = self.heads[j].unwrap();
        proof {
            assert forall|i: int| 0 <= i < n implies (front_ok(#[trigger] lanes0[i])
                == self.heads@[i] is Some && (self.heads@[i] matches Some(h) ==> front(lanes0[i])
                == h && lanes0[i].skip(1) =~= self.scanners@[i].pending()) && (self.heads@[i]
                is None ==> lanes0[i] == self.scanners@[i].pending())) by {
                assert(lanes0[i] == self.lane(i));
            }
        }
        let mut all = true;
        let mut i: usize = 0;
        while i < n
            invariant
                i <= n,
                n == self.heads@.len(),
                n == lanes0.len(),
                j < n,
                self.wf(),
                self.reverse == old(self).reverse,
                self.and == old(self).and,
                self.dedup == old(self).dedup,
                level == (old(self).and || old(self).dedup),
                self.scanners@ == old(self).scanners@,
                front_ok(lanes0[j as int]),
                k == front(lanes0[j as int]),
                forall|x: int| i <= x < n ==> self.heads@[x] == old(self).heads@[x],
                forall|x: int|
                    0 <= x < n ==> (front_ok(#[trigger] lanes0[x]) == old(self).heads@[x] is Some
                        && (old(self).heads@[x] matches Some(h) ==> front(lanes0[x]) == h
                        && lanes0[x].skip(1) == self.scanners@[x].pending()) && (old(
                        self,
                    ).heads@[x] is None ==> lanes0[x] == self.scanners@[x].pending())),
                forall|x: int|
                    0 <= x < i ==> self.lane(x) == #[trigger] drop_fronts(lanes0, j as int, level)[x],
                all == forall|x: int|
                    0 <= x < i ==> front_ok(#[trigger] lanes0[x]) && same_key(front(lanes0[x]), k),
            decreases n - i,
        {
            let same = match &self.heads[i] {
                Some(h) => h.time == k.time && h.uid == k.uid,
                None => false,
            };
            if !same {
                all = false;
            }
            if i == j || (level && same) {
                self.heads[i] = None;
            }
            proof {
                assert(taken(lanes0, j as int, i as int, level) == (i == j || (level && same)));
            }
            i += 1;
        }
        proof {
            assert(self.lanes() =~= drop_fronts(lanes0, j as int, level));
        }
        (k, all)
    }

    /// The next result of the merged stream, or `None` once every scan has
    /// ended.
    pub fn next(&mut self) -> (r: Option<Result<IndexKey, Error>>)
        requires
            old(self).wf(),
        ensures
            final(self).wf(),
            final(self).reverse() == old(self).reverse(),
            final(self).and() == old(self).and(),
            final(self).dedup() == old(self).dedup(),
            (r, final(self).lanes()) == merge_next(
                old(self).lanes(),
                old(self).reverse(),
                old(self).and(),
                old(self).dedup(),
            ),
    {
        loop
            invariant
                self.wf(),
                self.reverse == old(self).reverse,
                self.and == old(self).and,
                self.dedup == old(self).dedup,
                merge_next(self.lanes(), self.reverse, self.and, self.dedup) == merge_next(
                    old(self).lanes(),
                    old(self).reverse(),
                    old(self).and(),
                    old(self).dedup(),
                ),
            decreases total(self.lanes()),
        {
            let ghost lanes = self.lanes();
            match self.refill() {
                Some(e) => {
                    proof {
                        let i = choose|i: int| told(lanes, self.lanes(), i, e);
                        let c = choose|c: int| is_first_error(lanes, c);
                        lemma_first_error_unique(lanes, i, c);
                    }
                    return Some(Err(e));
                },
                None => {},
            }
            match self.pick() {
                Some(j) => {
                    let taken = self.take(j);
                    proof {
                        let c = choose|c: int| is_best(lanes, c, self.reverse);
                        lemma_best_unique(lanes, j as int, c, self.reverse);
                        assert(!exists|i: int| is_first_error(lanes, i));
                    }
                    if self.and && !taken.1 {
                        proof {
                            lemma_total_shrinks(lanes, self.lanes(), j as int);
                        }
                    } else {
                        return Some(Ok(taken.0));
                    }
                },
                None => {
                    proof {
                        assert(!exists|i: int| is_first_error(lanes, i));
                        assert(!exists|j: int| is_best(lanes, j, self.reverse));
                    }
                    return None;
                },
            }
        }
    }

    /// How many entries the scans of the group have examined so far, or the
    /// largest number where they were more.
    pub fn scan_index(&self) -> (r: u64)
        requires
            self.wf(),
        ensures
            r == capped_sum(0, Self::examined(self.scanners())),
    {
        let mut sum: u64 = 0;
        let mut i: usize = 0;
        assert(self.scanners@.take(0) =~= Seq::<Scanner<'a>>::empty());
        while i < self.scanners.len()
            invariant
                i <= self.scanners@.len(),
                Self::examined(self.scanners@.take(i as int)) >= 0,
                sum == capped_sum(0, Self::examined(self.scanners@.take(i as int))),
            decreases self.scanners@.len() - i,
        {
            let n = self.scanners[i].count();
            proof {
                assert(self.scanners@.take(i + 1).drop_last() =~= self.scanners@.take(i as int));
            }
            if n > u64::MAX - sum {
                sum = u64::MAX;
            } else {
                sum = sum + n;
            }
            i += 1;
        }
        assert(self.scanners@.take(i as int) =~= self.scanners@);
        sum
    }
}

} // verus!
