//! A scan: a walk over one index from a prefix on, in one direction,
//! inside a window of time, that reads an `IndexKey` from each entry that its
//! matcher accepts.

use vstd::prelude::*;
use crate::bytes::{be64_value, bytes_start_with, copy_bytes, lex_le, lex_lt, lemma_lex_trichotomy, starts_with, upper, upper_spec};
use crate::cursor::{admits, Bound, Iter};
use crate::error::Error;
use crate::filter::contains_u64;
use crate::hexcodec::{encode_hex, hex_encoded};
use crate::key::{index_key_of, read_u64, IndexKey};
use crate::tree::{lemma_rank_below_unique, rank_below, Pair, Tree};

verus! {

/// What a scan makes of one entry.
#[derive(Clone, Copy, PartialEq, Eq, Structural, Debug)]
pub enum MatchResult {
    /// The entry is a result.
    Found(IndexKey),
    /// The entry is none, the scan goes on.
    Continue,
    /// The entry is past the last one that could be a result.
    Stop,
}

/// How a scan tells the entries of its prefix from the rest.
#[allow(inconsistent_fields)]
pub enum Matcher {
    /// Every entry is a result.
    Any,
    /// The key starts with the prefix.
    Prefix,
    /// The key is the prefix followed by the time and nothing else.
    Exact,
    /// As `Exact`; and where kinds are given, the kind carried in the value
    /// is one of them.
    Tag { kinds: Option<Vec<u64>> },
    /// The key starts with the prefix; for a hexadecimal text of odd length,
    /// the text of the key starts with that text.
    Hex { odd: bool },
    /// As `Hex`; and the kind that follows the 32 bytes of the public key is
    /// one of `kinds`.
    HexKinds { odd: bool, kinds: Vec<u64> },
}

/// All that defines a scan but the table.
pub struct Scan {
    /// The hexadecimal text that the prefix was decoded from, if any.
    pub key: Vec<u8>,
    pub prefix: Vec<u8>,
    pub reverse: bool,
    pub since: Option<u64>,
    pub until: Option<u64>,
    pub matcher: Matcher,
}

/// A matcher as contracts see it.
#[allow(inconsistent_fields)]
pub enum MatcherView {
    Any,
    Prefix,
    Exact,
    Tag { kinds: Option<Seq<u64>> },
    Hex { odd: bool },
    HexKinds { odd: bool, kinds: Seq<u64> },
}

/// A scan as contracts see it.
pub struct ScanView {
    pub key: Seq<u8>,
    pub prefix: Seq<u8>,
    pub reverse: bool,
    pub since: Option<u64>,
    pub until: Option<u64>,
    pub matcher: MatcherView,
}

impl View for Matcher {
    type V = MatcherView;

    open spec fn view(&self) -> MatcherView {
        match *self {
            Matcher::Any => MatcherView::Any,
            Matcher::Prefix => MatcherView::Prefix,
            Matcher::Exact => MatcherView::Exact,
            Matcher::Tag { kinds } => MatcherView::Tag {
                kinds: match kinds {
                    Some(ks) => Some(ks@),
                    None => None,
                },
            },
            Matcher::Hex { odd } => MatcherView::Hex { odd },
            Matcher::HexKinds { odd, kinds } => MatcherView::HexKinds { odd, kinds: kinds@ },
        }
    }
}

impl View for Scan {
    type V = ScanView;

    open spec fn view(&self) -> ScanView {
        ScanView {
            key: self.key@,
            prefix: self.prefix@,
            reverse: self.reverse,
            since: self.since,
            until: self.until,
            matcher: self.matcher@,
        }
    }
}

/// What is read from an entry that is a result.
pub open spec fn found(k: Seq<u8>, v: Seq<u8>) -> Result<MatchResult, Error> {
    match index_key_of(k, v) {
        Some(key) => Ok(MatchResult::Found(key)),
        None => Err(Error::InvalidLength),
    }
}

impl ScanView {
    /// Whether the key belongs to the prefix, as text or as bytes.
    pub open spec fn hex_ok(&self, odd: bool, k: Seq<u8>) -> bool {
        if odd {
            starts_with(hex_encoded(k), self.key)
        } else {
            starts_with(k, self.prefix)
        }
    }

    /// The key is the prefix followed by the eight bytes of the time.
    pub open spec fn exact(&self, k: Seq<u8>) -> bool {
        k.len() == self.prefix.len() + 8 && starts_with(k, self.prefix)
    }

    /// What the matcher makes of an entry.
    pub open spec fn classify(&self, k: Seq<u8>, v: Seq<u8>) -> Result<MatchResult, Error> {
        match self.matcher {
            MatcherView::Any => found(k, v),
            MatcherView::Prefix => if starts_with(k, self.prefix) {
                found(k, v)
            } else {
                Ok(MatchResult::Stop)
            },
            MatcherView::Exact => if self.exact(k) {
                found(k, v)
            } else {
                Ok(MatchResult::Stop)
            },
            MatcherView::Tag { kinds } => if self.exact(k) {
                match kinds {
                    Some(ks) => if v.len() < 16 {
                        Err(Error::InvalidLength)
                    } else if !ks.contains(be64_value(v.subrange(8, 16)) as u64) {
                        Ok(MatchResult::Continue)
                    } else {
                        found(k, v)
                    },
                    None => found(k, v),
                }
            } else {
                Ok(MatchResult::Stop)
            },
            MatcherView::Hex { odd } => if self.hex_ok(odd, k) {
                found(k, v)
            } else {
                Ok(MatchResult::Stop)
            },
            MatcherView::HexKinds { odd, kinds } => if self.hex_ok(odd, k) {
                if k.len() < 40 {
                    Err(Error::InvalidLength)
                } else if !kinds.contains(be64_value(k.subrange(32, 40)) as u64) {
                    Ok(MatchResult::Continue)
                } else {
                    found(k, v)
                }
            } else {
                Ok(MatchResult::Stop)
            },
        }
    }

    /// What the scan makes of an entry: the time at the end of the key is
    /// held against the window first. A scan upwards skips what comes before
    /// the window and stops after it; a scan downwards skips what comes
    /// after the window and stops before it. Inside the window the matcher
    /// decides.
    pub open spec fn examine(&self, k: Seq<u8>, v: Seq<u8>) -> Result<MatchResult, Error> {
        if k.len() < 8 {
            Err(Error::InvalidLength)
        } else {
            let time = be64_value(k.subrange(k.len() - 8, k.len() as int)) as u64;
            let early = self.since matches Some(s) && time < s;
            let late = self.until matches Some(u) && time > u;
            if self.reverse {
                if late {
                    Ok(MatchResult::Continue)
                } else if early {
                    Ok(MatchResult::Stop)
                } else {
                    self.classify(k, v)
                }
            } else {
                if early {
                    Ok(MatchResult::Continue)
                } else if late {
                    Ok(MatchResult::Stop)
                } else {
                    self.classify(k, v)
                }
            }
        }
    }

    /// All that the scan yields from the entries `p`, taken in their order.
    pub open spec fn output(&self, p: Seq<Pair>) -> Seq<Result<IndexKey, Error>>
        decreases p.len(),
    {
        if p.len() == 0 {
            Seq::empty()
        } else {
            match self.examine(p[0].0, p[0].1) {
                Ok(MatchResult::Found(key)) => seq![Ok(key)] + self.output(p.skip(1)),
                Ok(MatchResult::Continue) => self.output(p.skip(1)),
                Ok(MatchResult::Stop) => Seq::empty(),
                Err(e) => seq![Err(e)] + self.output(p.skip(1)),
            }
        }
    }
}

impl Scan {
    fn hex_check(&self, odd: bool, k: &[u8]) -> (r: bool)
        ensures
            r == self@.hex_ok(odd, k@),
    {
        if odd {
            let text = encode_hex(k);
            bytes_start_with(text.as_slice(), self.key.as_slice())
        } else {
            bytes_start_with(k, self.prefix.as_slice())
        }
    }

    fn is_exact(&self, k: &[u8]) -> (r: bool)
        ensures
            r == self@.exact(k@),
    {
        k.len() >= 8 && k.len() - 8 == self.prefix.len() && bytes_start_with(
            k,
            self.prefix.as_slice(),
        )
    }

    fn emit(k: &[u8], v: &[u8]) -> (r: Result<MatchResult, Error>)
        ensures
            r == found(k@, v@),
    {
        match IndexKey::from(k, v) {
            Ok(key) => Ok(MatchResult::Found(key)),
            Err(e) => Err(e),
        }
    }

    fn run_matcher(&self, k: &[u8], v: &[u8]) -> (r: Result<MatchResult, Error>)
        ensures
            r == self@.classify(k@, v@),
    {
        match &self.matcher {
            Matcher::Any => Scan::emit(k, v),
            Matcher::Prefix => {
                if bytes_start_with(k, self.prefix.as_slice()) {
                    Scan::emit(k, v)
                } else {
                    Ok(MatchResult::Stop)
                }
            },
            Matcher::Exact => {
                if self.is_exact(k) {
                    Scan::emit(k, v)
                } else {
                    Ok(MatchResult::Stop)
                }
            },
            Matcher::Tag { kinds } => {
                if self.is_exact(k) {
                    match kinds {
                        Some(ks) => {
                            if v.len() < 16 {
                                Err(Error::InvalidLength)
                            } else if !contains_u64(ks, read_u64(v, 8)) {
                                Ok(MatchResult::Continue)
                            } else {
                                Scan::emit(k, v)
                            }
                        },
                        None => Scan::emit(k, v),
                    }
                } else {
                    Ok(MatchResult::Stop)
                }
            },
            Matcher::Hex { odd } => {
                if self.hex_check(*odd, k) {
                    Scan::emit(k, v)
                } else {
                    Ok(MatchResult::Stop)
                }
            },
            Matcher::HexKinds { odd, kinds } => {
                if self.hex_check(*odd, k) {
                    if k.len() < 40 {
                        Err(Error::InvalidLength)
                    } else if !contains_u64(kinds, read_u64(k, 32)) {
                        Ok(MatchResult::Continue)
                    } else {
                        Scan::emit(k, v)
                    }
                } else {
                    Ok(MatchResult::Stop)
                }
            },
        }
    }

    /// What the scan makes of an entry.
    pub fn check(&self, k: &[u8], v: &[u8]) -> (r: Result<MatchResult, Error>)
        ensures
            r == self@.examine(k@, v@),
    {
        if k.len() < 8 {
            return Err(Error::InvalidLength);
        }
        let time = read_u64(k, k.len() - 8);
        let early = match self.since {
            Some(s) => time < s,
            None => false,
        };
        let late = match self.until {
            Some(u) => time > u,
            None => false,
        };
        if self.reverse {
            if late {
                Ok(MatchResult::Continue)
            } else if early {
                Ok(MatchResult::Stop)
            } else {
                self.run_matcher(k, v)
            }
        } else {
            if early {
                Ok(MatchResult::Continue)
            } else if late {
                Ok(MatchResult::Stop)
            } else {
                self.run_matcher(k, v)
            }
        }
    }
}

/// Where the walk for a prefix starts: upwards at the first entry whose key
/// is the prefix or above; downwards just below the first entry whose key is
/// above all that starts with the prefix, or at the end of the table where no
/// byte string is above all that.
pub open spec fn start_edge(tree: Seq<Pair>, prefix: Seq<u8>, reverse: bool) -> int {
    if reverse {
        match upper_spec(prefix) {
            Some(u) => rank_below(tree, u),
            None => tree.len() as int,
        }
    } else {
        rank_below(tree, prefix)
    }
}

/// The entries of a table from an edge on, in the order of the walk.
pub open spec fn reach(tree: Seq<Pair>, reverse: bool, edge: int) -> Seq<Pair> {
    if reverse {
        tree.take(edge).reverse()
    } else {
        tree.skip(edge)
    }
}

/// The entries that the walk for a prefix passes, in its order.
pub open spec fn scan_domain(tree: Seq<Pair>, prefix: Seq<u8>, reverse: bool) -> Seq<Pair> {
    reach(tree, reverse, start_edge(tree, prefix, reverse))
}

/// The walk over `tree` for the entries of `prefix`, in the given direction.
pub fn create_iter<'a>(tree: &'a Tree, prefix: &Vec<u8>, reverse: bool) -> (it: Iter<'a>)
    requires
        tree.wf(),
    ensures
        it.wf(),
        it.tree() == *tree,
        it.rev() == reverse,
        it.edge() == start_edge(tree@, prefix@, reverse),
        it.pending() == scan_domain(tree@, prefix@, reverse),
{
    if reverse {
        match upper(copy_bytes(prefix.as_slice())) {
            Some(p) => {
                let ghost u = p@;
                let it = Iter::new(tree, Bound::Excluded(p), true);
                proof {
                    lemma_rank_below_unique(tree@, u, it.edge());
                }
                it
            },
            None => {
                let it = Iter::new(tree, Bound::Unbounded, true);
                proof {
                    if it.edge() < tree@.len() {
                        assert(admits(Bound::Unbounded, true, tree@[it.edge()].0));
                    }
                }
                it
            },
        }
    } else {
        let it = Iter::new(tree, Bound::Included(copy_bytes(prefix.as_slice())), false);
        proof {
            assert forall|i: int| 0 <= i < tree@.len() implies (lex_le(
                prefix@,
                (#[trigger] tree@[i]).0,
            ) <==> !lex_lt(tree@[i].0, prefix@)) by {
                lemma_lex_trichotomy(prefix@, tree@[i].0);
            }
            lemma_rank_below_unique(tree@, prefix@, it.edge());
        }
        it
    }
}

/// A scan at work on a table.
pub struct Scanner<'a> {
    iter: Iter<'a>,
    scan: Scan,
    stopped: bool,
    scanned: u64,
}

/// `a + b`, or the largest number where that is too large.
pub open spec fn capped_sum(a: u64, b: int) -> u64 {
    if a + b > u64::MAX {
        u64::MAX
    } else {
        (a + b) as u64
    }
}

impl<'a> Scanner<'a> {
    pub closed spec fn scan(&self) -> ScanView {
        self.scan@
    }

    /// The entries that the walk has not reached yet.
    pub closed spec fn remaining(&self) -> Seq<Pair> {
        if self.stopped {
            Seq::empty()
        } else {
            self.iter.pending()
        }
    }

    /// How many entries of the table the walk has not fetched yet.
    pub closed spec fn unread(&self) -> nat {
        self.iter.pending().len()
    }

    /// How many entries the scan has examined.
    pub closed spec fn scanned(&self) -> u64 {
        self.scanned
    }

    /// All that the scan still yields.
    pub open spec fn pending(&self) -> Seq<Result<IndexKey, Error>> {
        self.scan().output(self.remaining())
    }

    pub closed spec fn wf(&self) -> bool {
        self.iter.wf()
    }

    /// The table that the scan walks.
    pub closed spec fn tree(&self) -> Tree {
        self.iter.tree()
    }

/// A scan at the start of its walk.
    pub fn new(
        iter: Iter<'a>,
        key: Vec<u8>,
        prefix: Vec<u8>,
        reverse: bool,
        since: Option<u64>,
        until: Option<u64>,
        matcher: Matcher,
    ) -> (s: Scanner<'a>)
        requires
            iter.wf(),
        ensures
            s.wf(),
            s.tree() == iter.tree(),
            s.scan() == (ScanView {
                key: key@,
                prefix: prefix@,
                reverse,
                since,
                until,
                matcher: matcher@,
            }),
            s.remaining() == iter.pending(),
            s.unread() == iter.pending().len(),
            s.scanned() == 0,
    {
        Scanner {
            iter,
            scan: Scan { key, prefix, reverse, since, until, matcher },
            stopped: false,
            scanned: 0,
        }
    }

    /// How many entries the scan has examined.
    pub fn count(&self) -> (r: u64)
        ensures
            r == self.scanned(),
    {
        self.scanned
    }

    /// The next result of the scan, or `None` once it has ended. An entry
    /// that cannot be read is told and passed over.
    pub fn next(&mut self) -> (r: Option<Result<IndexKey, Error>>)
        requires
            old(self).wf(),
        ensures
            final(self).wf(),
            final(self).tree() == old(self).tree(),
            final(self).scan() == old(self).scan(),
            r.is_some() == (old(self).pending().len() > 0),
            r matches Some(item) ==> item == old(self).pending()[0],
            final(self).pending() == if r.is_some() {
                old(self).pending().skip(1)
            } else {
                old(self).pending()
            },
            final(self).unread() <= old(self).unread(),
            final(self).scanned() == capped_sum(
                old(self).scanned(),
                old(self).unread() - final(self).unread(),
            ),
    {
        if self.stopped {
            return None;
        }
        let ghost start = self.iter.pending();
        let ghost count0 = self.scanned;
        loop
            invariant
                self.iter.wf(),
                !self.stopped,
                self.iter.tree() == old(self).iter.tree(),
                self.scan@ == old(self).scan@,
                self.scan@.output(self.iter.pending()) == old(self).pending(),
                self.iter.pending().len() <= start.len(),
                start == old(self).iter.pending(),
                count0 == old(self).scanned,
                self.scanned == capped_sum(count0, start.len() - self.iter.pending().len()),
            decreases self.iter.pending().len(),
        {
            let ghost before = self.iter.pending();
            match self.iter.next() {
                Some(kv) => {
                    if self.scanned < u64::MAX {
                        self.scanned = self.scanned + 1;
                    }
                    let verdict = self.scan.check(kv.0.as_slice(), kv.1.as_slice());
                    proof {
                        assert(before[0] == (kv.0@, kv.1@));
                    }
                    match verdict {
                        Ok(MatchResult::Found(key)) => {
                            proof {
                                assert(old(self).pending().skip(1) =~= self.scan@.output(
                                    before.skip(1),
                                ));
                            }
                            return Some(Ok(key));
                        },
                        Ok(MatchResult::Continue) => {},
                        Ok(MatchResult::Stop) => {
                            self.stopped = true;
                            return None;
                        },
                        Err(e) => {
                            proof {
                                assert(old(self).pending().skip(1) =~= self.scan@.output(
                                    before.skip(1),
                                ));
                            }
                            return Some(Err(e));
                        },
                    }
                },
                None => {
                    return None;
                },
            }
        }
    }
}

impl Scan {
    /// A scan that is defined alike.
    pub fn copy(&self) -> (r: Scan)
        ensures
            r@ == self@,
    {
        let matcher = match &self.matcher {
            Matcher::Any => Matcher::Any,
            Matcher::Prefix => Matcher::Prefix,
            Matcher::Exact => Matcher::Exact,
            Matcher::Tag { kinds } => Matcher::Tag {
                kinds: match kinds {
                    Some(ks) => Some(crate::filter::copy_kinds(ks)),
                    None => None,
                },
            },
            Matcher::Hex { odd } => Matcher::Hex { odd: *odd },
            Matcher::HexKinds { odd, kinds } => Matcher::HexKinds {
                odd: *odd,
                kinds: crate::filter::copy_kinds(kinds),
            },
        };
        Scan {
            key: copy_bytes(self.key.as_slice()),
            prefix: copy_bytes(self.prefix.as_slice()),
            reverse: self.reverse,
            since: self.since,
            until: self.until,
            matcher,
        }
    }
}

/// What a matcher needs of an entry to read it.
pub open spec fn readable(m: MatcherView, k: Seq<u8>, v: Seq<u8>) -> bool {
    &&& k.len() >= 8
    &&& v.len() >= 8
    &&& m is Tag ==> v.len() >= 16
    &&& m is HexKinds ==> k.len() >= 40
}

impl ScanView {
    /// An entry that the matcher can read is read without an error.
    pub proof fn lemma_readable(self, k: Seq<u8>, v: Seq<u8>)
        requires
            readable(self.matcher, k, v),
        ensures
            self.examine(k, v) is Ok,
    {
    }

    /// Where every entry can be read, the scan reports none.
    pub proof fn lemma_output_clean(self, p: Seq<Pair>)
        requires
            forall|i: int| 0 <= i < p.len() ==> readable(self.matcher, (#[trigger] p[i]).0, p[i].1),
        ensures
            forall|j: int| 0 <= j < self.output(p).len() ==> (#[trigger] self.output(p)[j]) is Ok,
        decreases p.len(),
    {
        if p.len() > 0 {
            self.lemma_readable(p[0].0, p[0].1);
            assert forall|i: int| 0 <= i < p.skip(1).len() implies readable(
                self.matcher,
                (#[trigger] p.skip(1)[i]).0,
                p.skip(1)[i].1,
            ) by {
                assert(p.skip(1)[i] == p[i + 1]);
            }
            self.lemma_output_clean(p.skip(1));
        }
    }
}

} // verus!
