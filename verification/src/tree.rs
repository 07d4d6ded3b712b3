//! An ordered table of byte pairs: keys in lexicographic order and, under
//! one key, values in lexicographic order. A table either admits several
//! values per key (duplicate-sorted) or holds at most one.

use vstd::prelude::*;
use crate::bytes::{bytes_equal, bytes_less, copy_bytes, lex_le, lex_lt, lemma_lex_irreflexive, lemma_lex_le_transitive, lemma_lex_transitive, lemma_lex_trichotomy, lemma_mismatch_is};

verus! {

/// One entry of a table as contracts see it: key and value.
pub type Pair = (Seq<u8>, Seq<u8>);

/// Entries are ordered by key, then by value.
pub open spec fn pair_lt(a: Pair, b: Pair) -> bool {
    lex_lt(a.0, b.0) || (a.0 == b.0 && lex_lt(a.1, b.1))
}

pub proof fn lemma_pair_trichotomy(a: Pair, b: Pair)
    ensures
        pair_lt(a, b) || a == b || pair_lt(b, a),
        !(pair_lt(a, b) && pair_lt(b, a)),
        !(pair_lt(a, b) && a == b),
{
    lemma_lex_trichotomy(a.0, b.0);
    lemma_lex_trichotomy(a.1, b.1);
}

pub proof fn lemma_pair_transitive(a: Pair, b: Pair, c: Pair)
    requires
        pair_lt(a, b) || a == b,
        pair_lt(b, c) || b == c,
    ensures
        pair_lt(a, c) || a == c,
        pair_lt(a, b) || pair_lt(b, c) ==> pair_lt(a, c),
{
    if a != b && b != c {
        lemma_lex_trichotomy(a.0, b.0);
        lemma_lex_trichotomy(b.0, c.0);
        if lex_lt(a.0, b.0) && lex_lt(b.0, c.0) {
            lemma_lex_transitive(a.0, b.0, c.0);
        } else if a.0 == b.0 && b.0 == c.0 {
            lemma_lex_transitive(a.1, b.1, c.1);
        }
    }
}

/// The empty value comes before every other value of the same key.
pub proof fn lemma_empty_value_least(k: Seq<u8>, p: Pair)
    ensures
        pair_lt(p, (k, Seq::<u8>::empty())) <==> lex_lt(p.0, k),
{
    lemma_mismatch_is(p.1, Seq::<u8>::empty(), 0, 0);
}

/// Strictly increasing by key, then value; so no entry occurs twice.
pub open spec fn sorted(s: Seq<Pair>) -> bool {
    forall|i: int, j: int| 0 <= i < j < s.len() ==> pair_lt(#[trigger] s[i], #[trigger] s[j])
}

/// No two entries share a key.
pub open spec fn keys_distinct(s: Seq<Pair>) -> bool {
    forall|i: int, j: int| 0 <= i < j < s.len() ==> (#[trigger] s[i]).0 != (#[trigger] s[j]).0
}

/// Whether the entry `(k1, v1)` comes before the entry `(k2, v2)`.
pub fn pair_less(k1: &[u8], v1: &[u8], k2: &[u8], v2: &[u8]) -> (r: bool)
    ensures
        r == pair_lt((k1@, v1@), (k2@, v2@)),
{
    if bytes_less(k1, k2) {
        true
    } else if bytes_equal(k1, k2) {
        bytes_less(v1, v2)
    } else {
        false
    }
}

/// The entries of `s` whose key is not `k`.
pub open spec fn without_key(s: Set<Pair>, k: Seq<u8>) -> Set<Pair> {
    Set::new(|p: Pair| s.contains(p) && p.0 != k)
}

/// Putting `p` at its place in a sorted sequence keeps it sorted and adds `p`.
pub proof fn lemma_insert_sorted(s: Seq<Pair>, n: int, p: Pair)
    requires
        sorted(s),
        0 <= n <= s.len(),
        forall|i: int| 0 <= i < n ==> pair_lt(#[trigger] s[i], p),
        forall|i: int| n <= i < s.len() ==> pair_lt(p, #[trigger] s[i]),
    ensures
        sorted(s.insert(n, p)),
        forall|q: Pair| s.insert(n, p).contains(q) <==> (s.contains(q) || q == p),
{
    let t = s.insert(n, p);
    assert forall|i: int, j: int| 0 <= i < j < t.len() implies pair_lt(
        #[trigger] t[i],
        #[trigger] t[j],
    ) by {
        let a = if i < n { i } else { i - 1 };
        let b = if j < n { j } else { j - 1 };
        if i != n && j != n {
            assert(t[i] == s[a] && t[j] == s[b]);
        } else if i == n {
            assert(t[j] == s[b]);
        } else {
            assert(t[i] == s[a]);
        }
    }
    assert forall|q: Pair| t.contains(q) <==> (s.contains(q) || q == p) by {
        if t.contains(q) {
            let i = choose|i: int| 0 <= i < t.len() && t[i] == q;
            if i < n {
                assert(s[i] == q);
            } else if i > n {
                assert(s[i - 1] == q);
            }
        }
        if s.contains(q) {
            let i = choose|i: int| 0 <= i < s.len() && s[i] == q;
            if i < n {
                assert(t[i] == q);
            } else {
                assert(t[i + 1] == q);
            }
        }
        if q == p {
            assert(t[n] == q);
        }
    }
}

/// Taking one entry out of a sorted sequence keeps it sorted and removes
/// exactly that entry.
pub proof fn lemma_remove_sorted(s: Seq<Pair>, n: int)
    requires
        sorted(s),
        0 <= n < s.len(),
    ensures
        sorted(s.remove(n)),
        forall|q: Pair| s.remove(n).contains(q) <==> (s.contains(q) && q != s[n]),
{
    let t = s.remove(n);
    assert forall|i: int, j: int| 0 <= i < j < t.len() implies pair_lt(
        #[trigger] t[i],
        #[trigger] t[j],
    ) by {
        let a = if i < n { i } else { i + 1 };
        let b = if j < n { j } else { j + 1 };
        assert(t[i] == s[a] && t[j] == s[b]);
    }
    assert forall|q: Pair| t.contains(q) <==> (s.contains(q) && q != s[n]) by {
        if t.contains(q) {
            let i = choose|i: int| 0 <= i < t.len() && t[i] == q;
            let a = if i < n { i } else { i + 1 };
            assert(s[a] == q);
            lemma_pair_trichotomy(s[a], s[n]);
            if a < n {
                assert(pair_lt(s[a], s[n]));
            } else {
                assert(pair_lt(s[n], s[a]));
            }
        }
        if s.contains(q) && q != s[n] {
            let i = choose|i: int| 0 <= i < s.len() && s[i] == q;
            if i < n {
                assert(t[i] == q);
            } else {
                assert(t[i - 1] == q);
            }
        }
    }
}

/// In a sorted sequence with distinct keys the entries of one key are one.
pub proof fn lemma_key_unique(s: Seq<Pair>, i: int, q: Pair)
    requires
        keys_distinct(s),
        0 <= i < s.len(),
        s.contains(q),
        q.0 == s[i].0,
    ensures
        q == s[i],
{
    let j = choose|j: int| 0 <= j < s.len() && s[j] == q;
    if j < i {
        assert(s[j].0 != s[i].0);
    } else if j > i {
        assert(s[i].0 != s[j].0);
    }
}

/// `n` entries of `s` have a key below `k`, and they are its first `n`.
pub open spec fn is_rank_below(s: Seq<Pair>, k: Seq<u8>, n: int) -> bool {
    &&& 0 <= n <= s.len()
    &&& forall|i: int| 0 <= i < n ==> lex_lt((#[trigger] s[i]).0, k)
    &&& forall|i: int| n <= i < s.len() ==> !lex_lt((#[trigger] s[i]).0, k)
}

/// `n` entries of `s` have a key that is `k` or below, and they are its first `n`.
pub open spec fn is_rank_upto(s: Seq<Pair>, k: Seq<u8>, n: int) -> bool {
    &&& 0 <= n <= s.len()
    &&& forall|i: int| 0 <= i < n ==> !lex_lt(k, (#[trigger] s[i]).0)
    &&& forall|i: int| n <= i < s.len() ==> lex_lt(k, (#[trigger] s[i]).0)
}

/// How many entries of a sorted `s` have a key below `k`.
pub open spec fn rank_below(s: Seq<Pair>, k: Seq<u8>) -> int {
    choose|n: int| is_rank_below(s, k, n)
}

/// How many entries of a sorted `s` have a key that is `k` or below.
pub open spec fn rank_upto(s: Seq<Pair>, k: Seq<u8>) -> int {
    choose|n: int| is_rank_upto(s, k, n)
}

pub proof fn lemma_rank_below_unique(s: Seq<Pair>, k: Seq<u8>, n: int)
    requires
        is_rank_below(s, k, n),
    ensures
        rank_below(s, k) == n,
{
    let m = rank_below(s, k);
    assert(is_rank_below(s, k, m));
    if m < n {
        assert(lex_lt(s[m].0, k));
    } else if n < m {
        assert(lex_lt(s[n].0, k));
    }
}

pub proof fn lemma_rank_upto_unique(s: Seq<Pair>, k: Seq<u8>, n: int)
    requires
        is_rank_upto(s, k, n),
    ensures
        rank_upto(s, k) == n,
{
    let m = rank_upto(s, k);
    assert(is_rank_upto(s, k, m));
    if m < n {
        assert(!lex_lt(k, s[m].0));
    } else if n < m {
        assert(!lex_lt(k, s[n].0));
    }
}

/// In a sorted sequence the entries with a key below `k` come first, those
/// with a key above `k` last: both ranks are what their names say.
pub proof fn lemma_ranks(s: Seq<Pair>, k: Seq<u8>)
    requires
        sorted(s),
    ensures
        is_rank_below(s, k, rank_below(s, k)),
        is_rank_upto(s, k, rank_upto(s, k)),
        rank_below(s, k) <= rank_upto(s, k),
    decreases s.len(),
{
    lemma_lex_irreflexive(k);
    if s.len() == 0 {
        assert(is_rank_below(s, k, 0));
        assert(is_rank_upto(s, k, 0));
    } else {
        let t = s.drop_last();
        let z = s.last();
        assert forall|i: int, j: int| 0 <= i < j < t.len() implies pair_lt(
            #[trigger] t[i],
            #[trigger] t[j],
        ) by {
            assert(t[i] == s[i] && t[j] == s[j]);
        }
        lemma_ranks(t, k);
        let m = rank_below(t, k);
        let u = rank_upto(t, k);
        assert forall|i: int| 0 <= i < t.len() implies lex_le((#[trigger] s[i]).0, z.0) by {
            assert(pair_lt(s[i], s[s.len() - 1]));
        }
        if lex_lt(z.0, k) {
            assert forall|i: int| 0 <= i < s.len() implies lex_lt((#[trigger] s[i]).0, k) by {
                if i < t.len() {
                    assert(lex_le(s[i].0, z.0));
                    lemma_lex_le_transitive(s[i].0, z.0, k);
                }
            }
            assert(is_rank_below(s, k, s.len() as int));
        } else {
            assert forall|i: int| 0 <= i < m implies lex_lt((#[trigger] s[i]).0, k) by {
                assert(s[i] == t[i]);
            }
            assert forall|i: int| m <= i < s.len() implies !lex_lt((#[trigger] s[i]).0, k) by {
                if i < t.len() {
                    assert(s[i] == t[i]);
                }
            }
            assert(is_rank_below(s, k, m));
        }
        if !lex_lt(k, z.0) {
            assert forall|i: int| 0 <= i < s.len() implies !lex_lt(k, (#[trigger] s[i]).0) by {
                if i < t.len() && lex_lt(k, s[i].0) {
                    assert(lex_le(s[i].0, z.0));
                    lemma_lex_le_transitive(k, s[i].0, z.0);
                }
            }
            assert(is_rank_upto(s, k, s.len() as int));
        } else {
            assert forall|i: int| 0 <= i < u implies !lex_lt(k, (#[trigger] s[i]).0) by {
                assert(s[i] == t[i]);
            }
            assert forall|i: int| u <= i < s.len() implies lex_lt(k, (#[trigger] s[i]).0) by {
                if i < t.len() {
                    assert(s[i] == t[i]);
                }
            }
            assert(is_rank_upto(s, k, u));
        }
        let a = rank_below(s, k);
        let b = rank_upto(s, k);
        if b < a {
            assert(lex_lt(s[b].0, k));
            assert(lex_lt(k, s[b].0));
            lemma_lex_trichotomy(k, s[b].0);
        }
    }
}

/// No key of `s` has two values.
pub open spec fn single_valued(s: Set<Pair>) -> bool {
    forall|k: Seq<u8>, v: Seq<u8>, w: Seq<u8>|
        #![trigger s.contains((k, v)), s.contains((k, w))]
        s.contains((k, v)) && s.contains((k, w)) ==> v == w
}

/// Taking the one entry of a key out of a set with one value per key is
/// taking the key out.
pub proof fn lemma_without_key_single(s: Set<Pair>, k: Seq<u8>, v: Seq<u8>)
    requires
        single_valued(s),
        s.contains((k, v)),
    ensures
        without_key(s, k) == s.remove((k, v)),
{
    assert forall|p: Pair| without_key(s, k).contains(p) <==> s.remove((k, v)).contains(p) by {
        if s.contains(p) && p.0 == k {
            assert(s.contains((k, p.1)));
        }
    }
    assert(without_key(s, k) =~= s.remove((k, v)));
}

pub struct Tree {
    entries: Vec<(Vec<u8>, Vec<u8>)>,
    dup: bool,
}

impl Tree {
    /// The entries in table order.
    pub closed spec fn view(&self) -> Seq<Pair> {
        Seq::new(self.entries@.len(), |i: int| (self.entries@[i].0@, self.entries@[i].1@))
    }

    /// Whether a key may carry several values.
    pub closed spec fn dup(&self) -> bool {
        self.dup
    }

    pub open spec fn wf(&self) -> bool {
        &&& sorted(self@)
        &&& !self.dup() ==> keys_distinct(self@)
    }

    /// The entries as a set.
    pub open spec fn pairs(&self) -> Set<Pair> {
        Set::new(|p: Pair| self@.contains(p))
    }

    pub open spec fn has_key(&self, k: Seq<u8>) -> bool {
        exists|v: Seq<u8>| self@.contains((k, v))
    }

/// An empty table.
    pub fn new(dup: bool) -> (t: Tree)
        ensures
            t.wf(),
            t@ == Seq::<Pair>::empty(),
            t.dup() == dup,
    {
        let t = Tree { entries: Vec::new(), dup };
        assert(t@ =~= Seq::<Pair>::empty());
        t
    }

/// Whether a key may carry several values.
    pub fn is_dup(&self) -> (r: bool)
        ensures
            r == self.dup(),
    {
        self.dup
    }

/// The number of entries.
    pub fn len(&self) -> (n: usize)
        ensures
            n == self@.len(),
    {
        self.entries.len()
    }

/// The key of entry `i` in table order.
    pub fn key_at(&self, i: usize) -> (k: &Vec<u8>)
        requires
            i < self@.len(),
        ensures
            k@ == self@[i as int].0,
    {
        &self.entries[i].0
    }

/// The value of entry `i` in table order.
    pub fn value_at(&self, i: usize) -> (v: &Vec<u8>)
        requires
            i < self@.len(),
        ensures
            v@ == self@[i as int].1,
    {
        &self.entries[i].1
    }

    /// The number of entries that come before `(key, value)`.
    pub fn lower_bound(&self, key: &[u8], value: &[u8]) -> (n: usize)
        requires
            self.wf(),
        ensures
            n <= self@.len(),
            forall|i: int| 0 <= i < n ==> pair_lt(#[trigger] self@[i], (key@, value@)),
            forall|i: int| n <= i < self@.len() ==> !pair_lt(#[trigger] self@[i], (key@, value@)),
    {
        let ghost target: Pair = (key@, value@);
        let mut lo: usize = 0;
        let mut hi: usize = self.entries.len();
        while lo < hi
            invariant
                self.wf(),
                target == (key@, value@),
                lo <= hi <= self@.len(),
                forall|i: int| 0 <= i < lo ==> pair_lt(#[trigger] self@[i], target),
                forall|i: int| hi <= i < self@.len() ==> !pair_lt(#[trigger] self@[i], target),
            decreases hi - lo,
        {
            let mid: usize = lo + (hi - lo) / 2;
            let e = &self.entries[mid];
            if pair_less(e.0.as_slice(), e.1.as_slice(), key, value) {
                proof {
                    assert forall|i: int| 0 <= i < mid + 1 implies pair_lt(
                        #[trigger] self@[i],
                        target,
                    ) by {
                        if i < mid {
                            lemma_pair_transitive(self@[i], self@[mid as int], target);
                        }
                    }
                }
                lo = mid + 1;
            } else {
                proof {
                    assert forall|i: int| mid <= i < self@.len() implies !pair_lt(
                        #[trigger] self@[i],
                        target,
                    ) by {
                        if i > mid && pair_lt(self@[i], target) {
                            lemma_pair_transitive(self@[mid as int], self@[i], target);
                        }
                    }
                }
                hi = mid;
            }
        }
        lo
    }

    /// The number of entries whose key comes before `key`.
    pub fn lower_bound_key(&self, key: &[u8]) -> (n: usize)
        requires
            self.wf(),
        ensures
            n <= self@.len(),
            forall|i: int| 0 <= i < n ==> lex_lt((#[trigger] self@[i]).0, key@),
            forall|i: int| n <= i < self@.len() ==> !lex_lt((#[trigger] self@[i]).0, key@),
            n == rank_below(self@, key@),
    {
        let empty: Vec<u8> = Vec::new();
        let n = self.lower_bound(key, empty.as_slice());
        proof {
            assert(empty@ =~= Seq::<u8>::empty());
            assert forall|i: int| 0 <= i < self@.len() implies (pair_lt(
                #[trigger] self@[i],
                (key@, empty@),
            ) <==> lex_lt(self@[i].0, key@)) by {
                lemma_empty_value_least(key@, self@[i]);
            }
            lemma_rank_below_unique(self@, key@, n as int);
        }
        n
    }

    /// The number of entries whose key is `key` or comes before it.
    pub fn upper_bound_key(&self, key: &[u8]) -> (n: usize)
        requires
            self.wf(),
        ensures
            n <= self@.len(),
            forall|i: int| 0 <= i < n ==> !lex_lt(key@, (#[trigger] self@[i]).0),
            forall|i: int| n <= i < self@.len() ==> lex_lt(key@, (#[trigger] self@[i]).0),
            n == rank_upto(self@, key@),
    {
        let mut lo: usize = 0;
        let mut hi: usize = self.entries.len();
        while lo < hi
            invariant
                self.wf(),
                lo <= hi <= self@.len(),
                forall|i: int| 0 <= i < lo ==> !lex_lt(key@, (#[trigger] self@[i]).0),
                forall|i: int| hi <= i < self@.len() ==> lex_lt(key@, (#[trigger] self@[i]).0),
            decreases hi - lo,
        {
            let mid: usize = lo + (hi - lo) / 2;
            if bytes_less(key, self.entries[mid].0.as_slice()) {
                proof {
                    assert forall|i: int| mid <= i < self@.len() implies lex_lt(
                        key@,
                        (#[trigger] self@[i]).0,
                    ) by {
                        if i > mid {
                            assert(pair_lt(self@[mid as int], self@[i]));
                            if self@[mid as int].0 != self@[i].0 {
                                lemma_lex_transitive(key@, self@[mid as int].0, self@[i].0);
                            }
                        }
                    }
                }
                hi = mid;
            } else {
                proof {
                    assert forall|i: int| 0 <= i < mid + 1 implies !lex_lt(
                        key@,
                        (#[trigger] self@[i]).0,
                    ) by {
                        if i < mid && lex_lt(key@, self@[i].0) {
                            assert(pair_lt(self@[i], self@[mid as int]));
                            if self@[mid as int].0 != self@[i].0 {
                                lemma_lex_transitive(key@, self@[i].0, self@[mid as int].0);
                            }
                        }
                    }
                }
                lo = mid + 1;
            }
        }
        proof {
            lemma_rank_upto_unique(self@, key@, lo as int);
        }
        lo
    }

    /// The first value stored under `key`, if there is one.
    pub fn get(&self, key: &[u8]) -> (r: Option<Vec<u8>>)
        requires
            self.wf(),
        ensures
            r.is_some() == self.has_key(key@),
            r matches Some(v) ==> self@.contains((key@, v@)) && forall|w: Seq<u8>|
                self@.contains((key@, w)) ==> lex_le(v@, w),
    {
        let n = self.lower_bound_key(key);
        proof {
            lemma_lex_irreflexive(key@);
        }
        if n < self.entries.len() && bytes_equal(self.entries[n].0.as_slice(), key) {
            let v = copy_bytes(self.entries[n].1.as_slice());
            proof {
                assert(self@[n as int] == (key@, v@));
                assert(self@.contains((key@, v@)));
                assert forall|w: Seq<u8>| self@.contains((key@, w)) implies lex_le(v@, w) by {
                    let j = choose|j: int| 0 <= j < self@.len() && self@[j] == (key@, w);
                    if j < n {
                        assert(lex_lt(self@[j].0, key@));
                    } else if j > n {
                        assert(pair_lt(self@[n as int], self@[j]));
                    }
                }
            }
            Some(v)
        } else {
            proof {
                if self.has_key(key@) {
                    let w = choose|w: Seq<u8>| self@.contains((key@, w));
                    let j = choose|j: int| 0 <= j < self@.len() && self@[j] == (key@, w);
                    if j < n {
                        assert(lex_lt(self@[j].0, key@));
                    } else if j > n {
                        assert(pair_lt(self@[n as int], self@[j]));
                        assert(!lex_lt(self@[n as int].0, key@));
                    }
                }
            }
            None
        }
    }
    /// Stores `value` under `key`. A duplicate-sorted table gains the entry
    /// unless it holds it already; any other table holds `value` as the one
    /// value of `key` afterwards.
    pub fn put(&mut self, key: &[u8], value: &[u8])
        requires
            old(self).wf(),
        ensures
            final(self).wf(),
            final(self).dup() == old(self).dup(),
            old(self).dup() ==> final(self).pairs() == old(self).pairs().insert((key@, value@)),
            !old(self).dup() ==> final(self).pairs() == without_key(old(self).pairs(), key@).insert(
                (key@, value@),
            ),
    {
        let ghost before = self@;
        let ghost p: Pair = (key@, value@);
        if self.dup {
            let n = self.lower_bound(key, value);
            if n < self.entries.len() && bytes_equal(self.entries[n].0.as_slice(), key)
                && bytes_equal(self.entries[n].1.as_slice(), value) {
                proof {
                    assert(before[n as int] == p);
                    assert(self.pairs() =~= self.pairs().insert(p));
                }
            } else {
                self.entries.insert(n, (copy_bytes(key), copy_bytes(value)));
                proof {
                    assert(self@ =~= before.insert(n as int, p));
                    assert forall|i: int| n <= i < before.len() implies pair_lt(
                        p,
                        #[trigger] before[i],
                    ) by {
                        lemma_pair_trichotomy(p, before[i]);
                        if i > n {
                            assert(pair_lt(before[n as int], before[i]));
                        }
                    }
                    lemma_insert_sorted(before, n as int, p);
                    assert forall|q: Pair|
                        self.pairs().contains(q) <==> old(self).pairs().insert(p).contains(
                            q,
                        ) by {
                        assert(self@.contains(q) <==> (before.contains(q) || q == p));
                    }
                    assert(self.pairs() =~= old(self).pairs().insert(p));
                }
            }
        } else {
            let n = self.lower_bound_key(key);
            proof {
                lemma_lex_irreflexive(key@);
            }
            if n < self.entries.len() && bytes_equal(self.entries[n].0.as_slice(), key) {
                let _gone = self.entries.remove(n);
                let ghost mid = self@;
                proof {
                    assert(mid =~= before.remove(n as int));
                    lemma_remove_sorted(before, n as int);
                }
                self.entries.insert(n, (copy_bytes(key), copy_bytes(value)));
                proof {
                    assert(self@ =~= mid.insert(n as int, p));
                    assert forall|i: int| 0 <= i < n implies pair_lt(#[trigger] mid[i], p) by {
                        assert(mid[i] == before[i]);
                    }
                    assert forall|i: int| n <= i < mid.len() implies pair_lt(
                        p,
                        #[trigger] mid[i],
                    ) by {
                        assert(mid[i] == before[i + 1]);
                        assert(pair_lt(before[n as int], before[i + 1]));
                        assert(before[n as int].0 != before[i + 1].0);
                    }
                    lemma_insert_sorted(mid, n as int, p);
                    assert forall|i: int, j: int| 0 <= i < j < self@.len() implies (
                    #[trigger] self@[i]).0 != (#[trigger] self@[j]).0 by {
                        assert(self@[i].0 == before[i].0);
                        assert(self@[j].0 == before[j].0);
                    }
                    assert forall|q: Pair|
                        self.pairs().contains(q) <==> without_key(old(self).pairs(), key@).insert(
                            p,
                        ).contains(q) by {
                        if before.contains(q) && q.0 == key@ {
                            lemma_key_unique(before, n as int, q);
                        }
                    }
                    assert(self.pairs() =~= without_key(old(self).pairs(), key@).insert(p));
                }
            } else {
                self.entries.insert(n, (copy_bytes(key), copy_bytes(value)));
                proof {
                    assert(self@ =~= before.insert(n as int, p));
                    assert forall|i: int| 0 <= i < before.len() implies (
                    #[trigger] before[i]).0 != key@ by {
                        if i < n {
                            assert(lex_lt(before[i].0, key@));
                        } else if i > n {
                            assert(pair_lt(before[n as int], before[i]));
                            assert(!lex_lt(before[n as int].0, key@));
                            assert(!lex_lt(before[i].0, key@));
                            lemma_lex_trichotomy(before[n as int].0, key@);
                            if before[i].0 == key@ {
                                lemma_lex_trichotomy(before[n as int].0, before[i].0);
                            }
                        }
                    }
                    assert forall|i: int| n <= i < before.len() implies pair_lt(
                        p,
                        #[trigger] before[i],
                    ) by {
                        lemma_lex_trichotomy(before[i].0, key@);
                    }
                    lemma_insert_sorted(before, n as int, p);
                    assert forall|i: int, j: int| 0 <= i < j < self@.len() implies (
                    #[trigger] self@[i]).0 != (#[trigger] self@[j]).0 by {
                        let a = if i < n { i } else { i - 1 };
                        let b = if j < n { j } else { j - 1 };
                        if i != n && j != n {
                            assert(self@[i] == before[a] && self@[j] == before[b]);
                        } else if i == n {
                            assert(self@[j] == before[b]);
                        } else {
                            assert(self@[i] == before[a]);
                        }
                    }
                    assert forall|q: Pair|
                        self.pairs().contains(q) <==> without_key(old(self).pairs(), key@).insert(
                            p,
                        ).contains(q) by {
                        if before.contains(q) {
                            let i = choose|i: int| 0 <= i < before.len() && before[i] == q;
                            assert(before[i].0 != key@);
                        }
                    }
                    assert(self.pairs() =~= without_key(old(self).pairs(), key@).insert(p));
                }
            }
        }
    }

    /// Removes entries of `key`: from a duplicate-sorted table the one with
    /// `value`, where a value is given; in every other case all of them.
    /// Missing entries are no error.
    pub fn del(&mut self, key: &[u8], value: Option<&[u8]>)
        requires
            old(self).wf(),
        ensures
            final(self).wf(),
            final(self).dup() == old(self).dup(),
            old(self).dup() && value.is_some() ==> final(self).pairs() == old(self).pairs().remove(
                (key@, value.unwrap()@),
            ),
            !(old(self).dup() && value.is_some()) ==> final(self).pairs() == without_key(
                old(self).pairs(),
                key@,
            ),
    {
        let ghost before = self@;
        if self.dup && value.is_some() {
            let v = value.unwrap();
            let ghost p: Pair = (key@, v@);
            let n = self.lower_bound(key, v);
            if n < self.entries.len() && bytes_equal(self.entries[n].0.as_slice(), key)
                && bytes_equal(self.entries[n].1.as_slice(), v) {
                let _gone = self.entries.remove(n);
                proof {
                    assert(self@ =~= before.remove(n as int));
                    lemma_remove_sorted(before, n as int);
                    assert(before[n as int] == p);
                    assert(self.pairs() =~= old(self).pairs().remove(p));
                }
            } else {
                proof {
                    if before.contains(p) {
                        let i = choose|i: int| 0 <= i < before.len() && before[i] == p;
                        lemma_pair_trichotomy(p, p);
                        if i < n {
                            assert(pair_lt(before[i], p));
                        } else if i > n {
                            assert(pair_lt(before[n as int], before[i]));
                            lemma_pair_trichotomy(before[n as int], p);
                        }
                    }
                    assert(self.pairs() =~= old(self).pairs().remove(p));
                }
            }
        } else {
            let n = self.lower_bound_key(key);
            proof {
                lemma_lex_irreflexive(key@);
            }
            let ghost dup = self.dup;
            while n < self.entries.len() && bytes_equal(self.entries[n].0.as_slice(), key)
                invariant
                    sorted(self@),
                    self.dup == dup,
                    !dup ==> keys_distinct(self@),
                    n <= self@.len(),
                    forall|i: int| 0 <= i < n ==> lex_lt((#[trigger] self@[i]).0, key@),
                    forall|i: int| n <= i < self@.len() ==> !lex_lt((#[trigger] self@[i]).0, key@),
                    forall|q: Pair| self@.contains(q) ==> before.contains(q),
                    forall|q: Pair| before.contains(q) && q.0 != key@ ==> self@.contains(q),
                decreases self@.len() - n,
            {
                let ghost cur = self@;
                let _gone = self.entries.remove(n);
                proof {
                    assert(self@ =~= cur.remove(n as int));
                    lemma_remove_sorted(cur, n as int);
                    assert forall|i: int| 0 <= i < n implies lex_lt(
                        (#[trigger] self@[i]).0,
                        key@,
                    ) by {
                        assert(self@[i] == cur[i]);
                    }
                    assert forall|i: int| n <= i < self@.len() implies !lex_lt(
                        (#[trigger] self@[i]).0,
                        key@,
                    ) by {
                        assert(self@[i] == cur[i + 1]);
                    }
                    if !dup {
                        assert forall|i: int, j: int| 0 <= i < j < self@.len() implies (
                        #[trigger] self@[i]).0 != (#[trigger] self@[j]).0 by {
                            let a = if i < n { i } else { i + 1 };
                            let b = if j < n { j } else { j + 1 };
                            assert(self@[i] == cur[a] && self@[j] == cur[b]);
                        }
                    }
                }
            }
            proof {
                assert forall|q: Pair| self@.contains(q) implies q.0 != key@ by {
                    let i = choose|i: int| 0 <= i < self@.len() && self@[i] == q;
                    if i < n {
                        assert(lex_lt(self@[i].0, key@));
                    } else if i > n {
                        assert(self@[n as int].0 == self.entries@[n as int].0@);
                        assert(pair_lt(self@[n as int], self@[i]));
                        assert(!lex_lt(self@[n as int].0, key@));
                        lemma_lex_trichotomy(self@[n as int].0, key@);
                        lemma_lex_trichotomy(self@[n as int].0, self@[i].0);
                    } else {
                        assert(self@[n as int].0 == self.entries@[n as int].0@);
                    }
                }
                assert(self.pairs() =~= without_key(old(self).pairs(), key@));
            }
        }
    }

    /// A table that keeps one value per key holds no second value for a key.
    pub proof fn lemma_single_value(&self, k: Seq<u8>, v: Seq<u8>, w: Seq<u8>)
        requires
            self.wf(),
            !self.dup(),
            self.pairs().contains((k, v)),
            self.pairs().contains((k, w)),
        ensures
            v == w,
    {
        let i = choose|i: int| 0 <= i < self@.len() && self@[i] == (k, v);
        lemma_key_unique(self@, i, (k, w));
    }

    /// `has_key` in terms of the set of entries.
    pub proof fn lemma_has_key(&self, k: Seq<u8>)
        ensures
            self.has_key(k) <==> exists|v: Seq<u8>| self.pairs().contains((k, v)),
    {
        if self.has_key(k) {
            let v = choose|v: Seq<u8>| self@.contains((k, v));
            assert(self.pairs().contains((k, v)));
        }
        if exists|v: Seq<u8>| self.pairs().contains((k, v)) {
            let v = choose|v: Seq<u8>| self.pairs().contains((k, v));
            assert(self@.contains((k, v)));
        }
    }

    /// A table that keeps one value per key has one value per key.
    pub proof fn lemma_single_valued(&self)
        requires
            self.wf(),
            !self.dup(),
        ensures
            single_valued(self.pairs()),
    {
        assert forall|k: Seq<u8>, v: Seq<u8>, w: Seq<u8>|
            #![trigger self.pairs().contains((k, v)), self.pairs().contains((k, w))]
            self.pairs().contains((k, v)) && self.pairs().contains((k, w)) implies v == w by {
            self.lemma_single_value(k, v, w);
        }
    }

    /// A table with the same entries.
    pub fn copy(&self) -> (r: Tree)
        ensures
            r@ == self@,
            r.dup() == self.dup(),
    {
        let mut entries: Vec<(Vec<u8>, Vec<u8>)> = Vec::new();
        let mut i: usize = 0;
        while i < self.entries.len()
            invariant
                i <= self.entries.len(),
                entries@.len() == i,
                forall|j: int|
                    0 <= j < i ==> (#[trigger] entries@[j]).0@ == self.entries@[j].0@
                        && entries@[j].1@ == self.entries@[j].1@,
            decreases self.entries.len() - i,
        {
            let k = copy_bytes(self.entries[i].0.as_slice());
            let v = copy_bytes(self.entries[i].1.as_slice());
            entries.push((k, v));
            i += 1;
        }
        let r = Tree { entries, dup: self.dup };
        assert(r@ =~= self@);
        r
    }
}

} // verus!
