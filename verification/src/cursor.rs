//! A positioned, directional walk over one table.
//!
//! The walk is driven by cursor operations: an operation for the first step,
//! chosen when the walk is placed with `seek`, and `Next` or `Prev` for every
//! later step.

use vstd::prelude::*;
use crate::bytes::{bytes_equal, lex_le, lex_lt, lemma_lex_trichotomy, lemma_lex_transitive, lemma_lex_irreflexive};
use crate::tree::{Pair, Tree, pair_lt, rank_below, rank_upto, sorted, keys_distinct, lemma_ranks};

verus! {

/// Where a walk starts.
pub enum Bound {
    Included(Vec<u8>),
    Excluded(Vec<u8>),
    Unbounded,
}

/// A move of the cursor.
#[derive(Clone, Copy, PartialEq, Eq, Structural, Debug)]
pub enum CursorOp {
    First,
    Last,
    GetCurrent,
    Next,
    Prev,
    NextNoDup,
    PrevNoDup,
    LastDup,
}

/// Whether a walk from `from` in the given direction admits `key`.
pub open spec fn admits(from: Bound, rev: bool, key: Seq<u8>) -> bool {
    match from {
        Bound::Unbounded => true,
        Bound::Included(s) => if rev {
            lex_le(key, s@)
        } else {
            lex_le(s@, key)
        },
        Bound::Excluded(s) => if rev {
            lex_lt(key, s@)
        } else {
            lex_lt(s@, key)
        },
    }
}

/// `edge` parts the entries of `s` that a walk from `from` admits from the rest.
pub open spec fn placed(s: Seq<Pair>, from: Bound, rev: bool, edge: int) -> bool {
    &&& 0 <= edge <= s.len()
    &&& forall|i: int|
        0 <= i < s.len() ==> (admits(from, rev, (#[trigger] s[i]).0) <==> if rev {
            i < edge
        } else {
            i >= edge
        })
}

/// The entry at which `op` leaves a cursor that stood at `at` (`None`: at no
/// entry), or `None` where there is no such entry.
pub open spec fn cursor_step(s: Seq<Pair>, at: Option<int>, op: CursorOp) -> Option<int> {
    let first = if s.len() > 0 {
        Some(0int)
    } else {
        None
    };
    let last = if s.len() > 0 {
        Some(s.len() - 1)
    } else {
        None
    };
    match op {
        CursorOp::First => first,
        CursorOp::Last => last,
        CursorOp::GetCurrent => at,
        CursorOp::Next => match at {
            Some(i) => if i + 1 < s.len() {
                Some(i + 1)
            } else {
                None
            },
            None => first,
        },
        CursorOp::Prev => match at {
            Some(i) => if i > 0 {
                Some(i - 1)
            } else {
                None
            },
            None => last,
        },
        CursorOp::NextNoDup => match at {
            Some(i) => if rank_upto(s, s[i].0) < s.len() {
                Some(rank_upto(s, s[i].0))
            } else {
                None
            },
            None => first,
        },
        CursorOp::PrevNoDup => match at {
            Some(i) => if rank_below(s, s[i].0) > 0 {
                Some(rank_below(s, s[i].0) - 1)
            } else {
                None
            },
            None => last,
        },
        CursorOp::LastDup => match at {
            Some(i) => Some(rank_upto(s, s[i].0) - 1),
            None => None,
        },
    }
}

/// What a cursor found that was put at the first key at the start of a walk
/// or above it.
#[derive(Clone, Copy, PartialEq, Eq, Structural, Debug)]
pub enum Probe {
    /// A key above the start.
    Above,
    /// The start itself.
    Same,
    /// No key: the start is above every key.
    Nothing,
}

/// How the start of a walk is bounded.
#[derive(Clone, Copy, PartialEq, Eq, Structural, Debug)]
pub enum Edge {
    Included,
    Excluded,
    Unbounded,
}

/// How a walk takes its first step.
#[derive(Clone, Copy, PartialEq, Eq, Structural, Debug)]
pub struct SeekPlan {
    /// The move of the first step.
    pub op: CursorOp,
    /// Whether the cursor goes to the last value of its key before that.
    pub last_dup: bool,
}

/// The first step of a walk, from what the probe found.
///
/// Downwards: from a start that is included, a key above it is stepped back
/// from, the start itself is taken, at the last of its values; from a start
/// that is excluded, whatever was found is stepped back from, past all its
/// values; with nothing found, and with no bound, the walk starts at the
/// last entry. Upwards: what was found is taken, but the start itself where
/// it is excluded, which is stepped over with all its values; with no bound
/// the walk starts at the first entry.
pub open spec fn first_op_spec(rev: bool, edge: Edge, dup: bool, probe: Probe) -> SeekPlan {
    let still = SeekPlan { op: CursorOp::GetCurrent, last_dup: false };
    if rev {
        match edge {
            Edge::Included => match probe {
                Probe::Above => SeekPlan { op: CursorOp::Prev, last_dup: false },
                Probe::Same => SeekPlan { op: CursorOp::GetCurrent, last_dup: dup },
                Probe::Nothing => SeekPlan { op: CursorOp::Last, last_dup: false },
            },
            Edge::Excluded => match probe {
                Probe::Nothing => SeekPlan { op: CursorOp::Last, last_dup: false },
                _ => SeekPlan {
                    op: if dup {
                        CursorOp::PrevNoDup
                    } else {
                        CursorOp::Prev
                    },
                    last_dup: false,
                },
            },
            Edge::Unbounded => SeekPlan { op: CursorOp::Last, last_dup: false },
        }
    } else {
        match edge {
            Edge::Included => still,
            Edge::Excluded => match probe {
                Probe::Same => SeekPlan {
                    op: if dup {
                        CursorOp::NextNoDup
                    } else {
                        CursorOp::Next
                    },
                    last_dup: false,
                },
                _ => still,
            },
            Edge::Unbounded => SeekPlan { op: CursorOp::First, last_dup: false },
        }
    }
}

/// The first step of a walk, from what the probe found.
pub fn first_op(rev: bool, edge: Edge, dup: bool, probe: Probe) -> (r: SeekPlan)
    ensures
        r == first_op_spec(rev, edge, dup, probe),
{
    let still = SeekPlan { op: CursorOp::GetCurrent, last_dup: false };
    if rev {
        match edge {
            Edge::Included => match probe {
                Probe::Above => SeekPlan { op: CursorOp::Prev, last_dup: false },
                Probe::Same => SeekPlan { op: CursorOp::GetCurrent, last_dup: dup },
                Probe::Nothing => SeekPlan { op: CursorOp::Last, last_dup: false },
            },
            Edge::Excluded => match probe {
                Probe::Nothing => SeekPlan { op: CursorOp::Last, last_dup: false },
                _ => SeekPlan {
                    op: if dup {
                        CursorOp::PrevNoDup
                    } else {
                        CursorOp::Prev
                    },
                    last_dup: false,
                },
            },
            Edge::Unbounded => SeekPlan { op: CursorOp::Last, last_dup: false },
        }
    } else {
        match edge {
            Edge::Included => still,
            Edge::Excluded => match probe {
                Probe::Same => SeekPlan {
                    op: if dup {
                        CursorOp::NextNoDup
                    } else {
                        CursorOp::Next
                    },
                    last_dup: false,
                },
                _ => still,
            },
            Edge::Unbounded => SeekPlan { op: CursorOp::First, last_dup: false },
        }
    }
}

/// A cursor: a table and the entry it stands at, if any.
pub struct InnerIter<'a> {
    tree: &'a Tree,
    at: Option<usize>,
}

impl<'a> InnerIter<'a> {
    pub closed spec fn tree(&self) -> Tree {
        *self.tree
    }

    pub closed spec fn at(&self) -> Option<int> {
        match self.at {
            Some(i) => Some(i as int),
            None => None,
        }
    }

    pub open spec fn wf(&self) -> bool {
        &&& self.tree().wf()
        &&& self.at() matches Some(i) ==> 0 <= i < self.tree()@.len()
    }

/// A cursor over `tree` that stands at no entry.
    pub fn new(tree: &'a Tree) -> (c: InnerIter<'a>)
        requires
            tree.wf(),
        ensures
            c.wf(),
            c.tree() == *tree,
            c.at().is_none(),
    {
        InnerIter { tree, at: None }
    }

    /// Places the cursor at the first entry whose key is `key` or above.
    pub fn get_by_key(&mut self, key: &[u8]) -> (r: Option<usize>)
        requires
            old(self).wf(),
        ensures
            final(self).wf(),
            final(self).tree() == old(self).tree(),
            final(self).at() == if rank_below(old(self).tree()@, key@) < old(self).tree()@.len() {
                Some(rank_below(old(self).tree()@, key@))
            } else {
                None
            },
            r.is_some() == final(self).at().is_some(),
            r matches Some(i) ==> final(self).at() == Some(i as int),
    {
        let n = self.tree.lower_bound_key(key);
        if n < self.tree.len() {
            self.at = Some(n);
        } else {
            self.at = None;
        }
        self.at
    }

    /// Moves the cursor by `op` and returns where it stands.
    pub fn get(&mut self, op: CursorOp) -> (r: Option<usize>)
        requires
            old(self).wf(),
        ensures
            final(self).wf(),
            final(self).tree() == old(self).tree(),
            final(self).at() == cursor_step(old(self).tree()@, old(self).at(), op),
            r.is_some() == final(self).at().is_some(),
            r matches Some(i) ==> final(self).at() == Some(i as int),
    {
        let len = self.tree.len();
        let first: Option<usize> = if len > 0 {
            Some(0)
        } else {
            None
        };
        let last: Option<usize> = if len > 0 {
            Some(len - 1)
        } else {
            None
        };
        let next: Option<usize> = match op {
            CursorOp::First => first,
            CursorOp::Last => last,
            CursorOp::GetCurrent => self.at,
            CursorOp::Next => match self.at {
                Some(i) => if i + 1 < len {
                    Some(i + 1)
                } else {
                    None
                },
                None => first,
            },
            CursorOp::Prev => match self.at {
                Some(i) => if i > 0 {
                    Some(i - 1)
                } else {
                    None
                },
                None => last,
            },
            CursorOp::NextNoDup => match self.at {
                Some(i) => {
                    let j = self.tree.upper_bound_key(self.tree.key_at(i).as_slice());
                    if j < len {
                        Some(j)
                    } else {
                        None
                    }
                },
                None => first,
            },
            CursorOp::PrevNoDup => match self.at {
                Some(i) => {
                    let j = self.tree.lower_bound_key(self.tree.key_at(i).as_slice());
                    if j > 0 {
                        Some(j - 1)
                    } else {
                        None
                    }
                },
                None => last,
            },
            CursorOp::LastDup => match self.at {
                Some(i) => {
                    let j = self.tree.upper_bound_key(self.tree.key_at(i).as_slice());
                    proof {
                        lemma_lex_irreflexive(self.tree@[i as int].0);
                        assert(j > i);
                    }
                    Some(j - 1)
                },
                None => None,
            },
        };
        self.at = next;
        next
    }
}

/// A walk over a table in one direction.
pub struct Iter<'a> {
    inner: InnerIter<'a>,
    rev: bool,
    op: CursorOp,
    next_op: CursorOp,
    dup: bool,
    done: bool,
}

impl<'a> Iter<'a> {
    pub closed spec fn tree(&self) -> Tree {
        self.inner.tree()
    }

    /// Whether the walk goes from larger keys to smaller ones.
    pub closed spec fn rev(&self) -> bool {
        self.rev
    }

    /// The entry that the next step yields, if any.
    pub closed spec fn target(&self) -> Option<int> {
        if self.done {
            None
        } else {
            cursor_step(self.tree()@, self.inner.at(), self.op)
        }
    }

    /// The boundary between the entries already passed and those to come: a
    /// walk upwards still yields the entries from `edge` on, a walk downwards
    /// those before `edge`.
    pub closed spec fn edge(&self) -> int {
        match self.target() {
            Some(i) => if self.rev {
                i + 1
            } else {
                i
            },
            None => if self.rev {
                0
            } else {
                self.tree()@.len() as int
            },
        }
    }

    /// The entries still to come, in the order of the walk.
    pub open spec fn pending(&self) -> Seq<Pair> {
        if self.rev() {
            self.tree()@.take(self.edge()).reverse()
        } else {
            self.tree()@.skip(self.edge())
        }
    }

    pub closed spec fn wf(&self) -> bool {
        &&& self.inner.wf()
        &&& self.dup == self.tree().dup()
        &&& self.next_op == if self.rev {
            CursorOp::Prev
        } else {
            CursorOp::Next
        }
        &&& self.target() matches Some(i) ==> 0 <= i < self.tree()@.len()
    }

    /// A walk over `tree` from `from` in the given direction.
    pub fn new(tree: &'a Tree, from: Bound, rev: bool) -> (it: Iter<'a>)
        requires
            tree.wf(),
        ensures
            it.wf(),
            it.tree() == *tree,
            it.rev() == rev,
            placed(tree@, from, rev, it.edge()),
    {
        let mut it = Iter {
            inner: InnerIter::new(tree),
            rev: false,
            op: CursorOp::First,
            next_op: CursorOp::Next,
            dup: tree.is_dup(),
            done: false,
        };
        it.seek(from, rev);
        it
    }

    /// Places the walk: afterwards it yields, in the given direction, exactly
    /// the entries whose key `from` admits.
    ///
    /// The cursor is first put at the first key that is the start or above
    /// it; what it finds there decides, with the bound and the direction,
    /// by which move the walk takes its first step.
    pub fn seek(&mut self, from: Bound, rev: bool)
        requires
            old(self).wf(),
        ensures
            final(self).wf(),
            final(self).tree() == old(self).tree(),
            final(self).rev() == rev,
            placed(old(self).tree()@, from, rev, final(self).edge()),
    {
        let ghost s = self.tree()@;
        self.rev = rev;
        self.done = false;
        self.next_op = if rev {
            CursorOp::Prev
        } else {
            CursorOp::Next
        };
        match from {
            Bound::Included(start) => {
                proof {
                    lemma_ranks(s, start@);
                    assert forall|i: int| 0 <= i < s.len() implies (lex_le(
                        start@,
                        (#[trigger] s[i]).0,
                    ) <==> !lex_lt(s[i].0, start@)) by {
                        lemma_lex_trichotomy(start@, s[i].0);
                    }
                }
                let probe = self.probe(start.as_slice());
                let plan = first_op(rev, Edge::Included, self.dup, probe);
                if plan.last_dup {
                    // the last value of the same key
                    let _r = self.inner.get(CursorOp::LastDup);
                }
                self.op = plan.op;
            },
            Bound::Excluded(start) => {
                proof {
                    lemma_ranks(s, start@);
                }
                let probe = self.probe(start.as_slice());
                let plan = first_op(rev, Edge::Excluded, self.dup, probe);
                self.op = plan.op;
            },
            Bound::Unbounded => {
                let plan = first_op(rev, Edge::Unbounded, self.dup, Probe::Nothing);
                self.op = plan.op;
            },
        }
    }

    /// Puts the cursor at the first key that is `start` or above it and
    /// says what it found there.
    fn probe(&mut self, start: &[u8]) -> (r: Probe)
        requires
            old(self).inner.wf(),
        ensures
            final(self).inner.wf(),
            final(self).inner.tree() == old(self).inner.tree(),
            final(self).rev == old(self).rev,
            final(self).dup == old(self).dup,
            final(self).done == old(self).done,
            final(self).next_op == old(self).next_op,
            final(self).inner.at() == if rank_below(old(self).inner.tree()@, start@) < old(
                self,
            ).inner.tree()@.len() {
                Some(rank_below(old(self).inner.tree()@, start@))
            } else {
                None
            },
            r is Nothing <==> final(self).inner.at() is None,
            r is Same <==> (final(self).inner.at() matches Some(at) && old(
                self,
            ).inner.tree()@[at].0 == start@),
            final(self).inner.at() matches Some(at) ==> {
                let s = old(self).inner.tree()@;
                &&& rank_below(s, s[at].0) == at
                &&& r is Above ==> forall|i: int| at <= i < s.len() ==> lex_lt(
                    start@,
                    (#[trigger] s[i]).0,
                )
                &&& !old(self).inner.tree().dup() ==> forall|i: int|
                    at < i < s.len() ==> lex_lt(s[at].0, (#[trigger] s[i]).0)
            },
    {
        let ghost s = self.inner.tree()@;
        proof {
            lemma_ranks(s, start@);
        }
        match self.inner.get_by_key(start) {
            Some(at) => {
                let key = self.inner.tree.key_at(at);
                proof {
                    lemma_ranks(s, key@);
                    lemma_lex_trichotomy(start@, key@);
                    lemma_first_of_key(s, at as int, start@);
                    if !self.inner.tree().dup() {
                        lemma_distinct_above(s, at as int);
                    }
                }
                if bytes_equal(start, key.as_slice()) {
                    Probe::Same
                } else {
                    proof {
                        lemma_above(s, at as int, start@);
                    }
                    Probe::Above
                }
            },
            None => Probe::Nothing,
        }
    }

    /// The next entry of the walk, or `None` once it has ended.
    pub fn next(&mut self) -> (r: Option<(&'a Vec<u8>, &'a Vec<u8>)>)
        requires
            old(self).wf(),
        ensures
            final(self).wf(),
            final(self).tree() == old(self).tree(),
            final(self).rev() == old(self).rev(),
            r.is_some() == (old(self).pending().len() > 0),
            r matches Some(kv) ==> (kv.0@, kv.1@) == old(self).pending()[0],
            final(self).pending() == if r.is_some() {
                old(self).pending().skip(1)
            } else {
                old(self).pending()
            },
            final(self).edge() == if r.is_none() {
                old(self).edge()
            } else if old(self).rev() {
                old(self).edge() - 1
            } else {
                old(self).edge() + 1
            },
    {
        let ghost s = self.tree()@;
        let ghost e = self.edge();
        if self.done {
            return None;
        }
        let tree: &'a Tree = self.inner.tree;
        let r = self.inner.get(self.op);
        self.op = self.next_op;
        match r {
            Some(i) => {
                proof {
                    if self.rev {
                        assert(s.take(e).reverse()[0] == s[i as int]);
                        assert(s.take(e).reverse().skip(1) =~= s.take(e - 1).reverse());
                    } else {
                        assert(s.skip(e).skip(1) =~= s.skip(e + 1));
                    }
                }
                Some((tree.key_at(i), tree.value_at(i)))
            },
            None => {
                self.done = true;
                None
            },
        }
    }
}

/// Keys from an entry above `k` on are above `k`.
proof fn lemma_above(s: Seq<Pair>, at: int, k: Seq<u8>)
    requires
        sorted(s),
        0 <= at < s.len(),
        lex_lt(k, s[at].0),
    ensures
        forall|i: int| at <= i < s.len() ==> lex_lt(k, (#[trigger] s[i]).0),
{
    assert forall|i: int| at <= i < s.len() implies lex_lt(k, (#[trigger] s[i]).0) by {
        if i > at {
            assert(pair_lt(s[at], s[i]));
            if s[at].0 != s[i].0 {
                lemma_lex_transitive(k, s[at].0, s[i].0);
            }
        }
    }
}

/// Where keys are distinct, the entries after one have larger keys.
proof fn lemma_distinct_above(s: Seq<Pair>, at: int)
    requires
        sorted(s),
        keys_distinct(s),
        0 <= at < s.len(),
    ensures
        forall|i: int| at < i < s.len() ==> lex_lt(s[at].0, (#[trigger] s[i]).0),
{
    assert forall|i: int| at < i < s.len() implies lex_lt(s[at].0, (#[trigger] s[i]).0) by {
        assert(pair_lt(s[at], s[i]));
        assert(s[at].0 != s[i].0);
    }
}

/// The first entry whose key is not below `k` is the first entry of its own key.
proof fn lemma_first_of_key(s: Seq<Pair>, at: int, k: Seq<u8>)
    requires
        sorted(s),
        0 <= at < s.len(),
        at == rank_below(s, k),
    ensures
        rank_below(s, s[at].0) == at,
{
    lemma_ranks(s, k);
    lemma_ranks(s, s[at].0);
    lemma_lex_irreflexive(s[at].0);
    let m = rank_below(s, s[at].0);
    if m < at {
        assert(lex_lt(s[m].0, k));
        assert(!lex_lt(s[m].0, s[at].0));
        assert(pair_lt(s[m], s[at]));
    } else if m > at {
        assert(lex_lt(s[at].0, s[at].0));
    }
}

} // verus!
