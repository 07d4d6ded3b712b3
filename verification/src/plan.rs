//! From a filter to the scans that answer it.

use vstd::prelude::*;
use crate::bytes::{be64, concat, concat_sep, copy_bytes, sep_spec, u64_to_ver};
use crate::error::Error;
use crate::event::words_view;
use crate::filter::{copy_kinds, opt_kinds_view, Filter, FilterView};
use crate::hexcodec::{decode_hex, hex_decoded, hex_valid};
use crate::model::Table;
use crate::scanner::{Matcher, MatcherView, Scan, ScanView};

verus! {

/// How much of the filter is held against the index record of a candidate
/// before its payload is fetched.
#[derive(Clone, Copy, PartialEq, Eq, Structural, Debug)]
pub enum MatchIndex {
    /// The whole filter.
    All,
    /// The authors only.
    Pubkey,
    /// Nothing: the driving index has answered the filter.
    Off,
}

/// The views of a list of scans.
pub open spec fn scans_view(s: Seq<Scan>) -> Seq<ScanView> {
    Seq::new(s.len(), |i: int| s[i]@)
}

/// A scan with the direction and the window of the filter.
pub open spec fn base(f: FilterView, key: Seq<u8>, prefix: Seq<u8>, matcher: MatcherView) -> ScanView {
    ScanView { key, prefix, reverse: f.desc, since: f.since, until: f.until, matcher }
}

/// One scan over all times: downwards from the end of the table, upwards
/// from its start. The prefix of the last time of all has no byte string
/// above it, so the walk downwards starts at the last entry.
pub open spec fn time_plan(f: FilterView) -> Seq<ScanView> {
    seq![
        base(
            f,
            Seq::empty(),
            be64(
                if f.desc {
                    u64::MAX
                } else {
                    0
                },
            ),
            MatcherView::Any,
        ),
    ]
}

/// One scan for each kind.
pub open spec fn kind_plan(f: FilterView) -> Seq<ScanView> {
    let kinds = f.kinds.unwrap();
    Seq::new(kinds.len(), |i: int| base(f, Seq::empty(), be64(kinds[i]), MatcherView::Prefix))
}

/// The scan for one value of one tag.
pub open spec fn tag_scan(f: FilterView, name: Seq<u8>, value: Seq<u8>) -> ScanView {
    base(
        f,
        Seq::empty(),
        sep_spec(sep_spec(name, value), Seq::empty()),
        MatcherView::Tag { kinds: f.kinds },
    )
}

/// One scan for each value of the first `n` tag entries, entry by entry.
pub open spec fn tag_plan_upto(f: FilterView, n: int) -> Seq<ScanView>
    decreases n,
{
    if n <= 0 {
        Seq::empty()
    } else {
        tag_plan_upto(f, n - 1) + Seq::new(
            f.tags[n - 1].1.len(),
            |j: int| tag_scan(f, f.tags[n - 1].0, f.tags[n - 1].1[j]),
        )
    }
}

pub open spec fn tag_plan(f: FilterView) -> Seq<ScanView> {
    tag_plan_upto(f, f.tags.len() as int)
}

/// One scan for each word.
pub open spec fn word_plan(f: FilterView) -> Seq<ScanView> {
    match f.words {
        Some(words) => Seq::new(
            words.len(),
            |i: int| base(f, Seq::empty(), sep_spec(words[i], Seq::empty()), MatcherView::Exact),
        ),
        None => Seq::empty(),
    }
}

/// A hexadecimal text made even: a text of odd length gets the digit that
/// makes it the first of its range for a scan upwards, the last for a scan
/// downwards.
pub open spec fn padded(text: Seq<u8>, desc: bool) -> Seq<u8> {
    if text.len() % 2 == 1 {
        text.push(
            if desc {
                0x66u8
            } else {
                0x30u8
            },
        )
    } else {
        text
    }
}

/// Every text of the list, made even, is hexadecimal.
pub open spec fn all_hex(texts: Seq<Seq<u8>>, desc: bool) -> bool {
    forall|i: int| 0 <= i < texts.len() ==> hex_valid(padded(#[trigger] texts[i], desc))
}

/// The scan for one hexadecimal prefix of an id or a public key.
pub open spec fn prefix_scan(f: FilterView, text: Seq<u8>) -> ScanView {
    base(
        f,
        text,
        hex_decoded(padded(text, f.desc)),
        MatcherView::Hex { odd: text.len() % 2 == 1 },
    )
}

/// One scan for each prefix.
pub open spec fn prefix_plan(f: FilterView, texts: Seq<Seq<u8>>) -> Seq<ScanView> {
    Seq::new(texts.len(), |i: int| prefix_scan(f, texts[i]))
}

/// The scans for one author together with kinds: for a whole public key one
/// scan for each kind; for a shorter prefix one scan that holds the kind of
/// each entry against the kinds.
pub open spec fn author_scans(f: FilterView, text: Seq<u8>) -> Seq<ScanView> {
    let kinds = f.kinds.unwrap();
    let prefix = hex_decoded(padded(text, f.desc));
    if text.len() == 64 {
        Seq::new(kinds.len(), |j: int| base(f, text, prefix + be64(kinds[j]), MatcherView::Prefix))
    } else {
        seq![base(f, text, prefix, MatcherView::HexKinds { odd: text.len() % 2 == 1, kinds })]
    }
}

/// The scans for the first `n` authors, author by author.
pub open spec fn author_kind_plan_upto(f: FilterView, n: int) -> Seq<ScanView>
    decreases n,
{
    if n <= 0 {
        Seq::empty()
    } else {
        author_kind_plan_upto(f, n - 1) + author_scans(f, f.authors.unwrap()[n - 1])
    }
}

pub open spec fn author_kind_plan(f: FilterView) -> Seq<ScanView> {
    author_kind_plan_upto(f, f.authors.unwrap().len() as int)
}

/// A list that starts with `done` and goes on with `tail`.
proof fn lemma_appended(out: Seq<Scan>, done: Seq<ScanView>, tail: Seq<ScanView>)
    requires
        out.len() == done.len() + tail.len(),
        forall|x: int| 0 <= x < done.len() ==> (#[trigger] out[x])@ == done[x],
        forall|x: int| 0 <= x < tail.len() ==> (#[trigger] out[done.len() + x])@ == tail[x],
    ensures
        scans_view(out) == done + tail,
{
    assert forall|y: int| 0 <= y < out.len() implies scans_view(out)[y] == (done + tail)[y] by {
        if y >= done.len() {
            let x = y - done.len();
            assert(out[done.len() + x]@ == tail[x]);
        }
    }
    assert(scans_view(out) =~= done + tail);
}

impl Filter {
    /// Adds the scans for the values of one tag entry.
    fn tag_scans_into(&self, out: &mut Vec<Scan>, n: usize)
        requires
            n < self.tags@.len(),
        ensures
            scans_view(final(out)@) == scans_view(old(out)@) + Seq::new(
                self@.tags[n as int].1.len(),
                |j: int| tag_scan(self@, self@.tags[n as int].0, self@.tags[n as int].1[j]),
            ),
    {
        let ghost f = self@;
        let ghost done = scans_view(out@);
        let name = &self.tags[n].0;
        let values = &self.tags[n].1;
        let mut j: usize = 0;
        while j < values.len()
            invariant
                j <= values.len(),
                n < self.tags.len(),
                f == self@,
                name@ == f.tags[n as int].0,
                words_view(values@) == f.tags[n as int].1,
                out@.len() == done.len() + j,
                forall|x: int| 0 <= x < done.len() ==> (#[trigger] out@[x])@ == done[x],
                forall|x: int|
                    0 <= x < j ==> (#[trigger] out@[done.len() + x])@ == tag_scan(
                        f,
                        f.tags[n as int].0,
                        f.tags[n as int].1[x],
                    ),
            decreases values.len() - j,
        {
            let empty: Vec<u8> = Vec::new();
            let head = concat_sep(name.as_slice(), values[j].as_slice());
            let prefix = concat_sep(head.as_slice(), empty.as_slice());
            let ghost prev = out@;
            assert(empty@ =~= Seq::<u8>::empty());
            assert(words_view(values@)[j as int] == values@[j as int]@);
            out.push(self.scan(Vec::new(), prefix, Matcher::Tag { kinds: self.kinds_copy() }));
            proof {
                assert forall|x: int| 0 <= x < j + 1 implies (#[trigger] out@[done.len() + x])@
                    == tag_scan(f, f.tags[n as int].0, f.tags[n as int].1[x]) by {
                    if x < j {
                        assert(out@[done.len() + x] == prev[done.len() + x]);
                    }
                }
                assert forall|x: int| 0 <= x < done.len() implies (#[trigger] out@[x])@
                    == done[x] by {
                    assert(out@[x] == prev[x]);
                }
            }
            j += 1;
        }
        proof {
            lemma_appended(
                out@,
                done,
                Seq::new(
                    f.tags[n as int].1.len(),
                    |x: int| tag_scan(f, f.tags[n as int].0, f.tags[n as int].1[x]),
                ),
            );
        }
    }

    /// Adds the scans for one author together with kinds.
    fn author_scans_into(&self, out: &mut Vec<Scan>, key: &Vec<u8>, prefix: Vec<u8>)
        requires
            self.kinds is Some,
            prefix@ == hex_decoded(padded(key@, self.desc)),
        ensures
            scans_view(final(out)@) == scans_view(old(out)@) + author_scans(self@, key@),
    {
        let ghost f = self@;
        let ghost done = scans_view(out@);
        let odd = key.len() % 2 == 1;
        match &self.kinds {
            Some(kinds) => {
                if key.len() == 64 {
                    // a whole public key
                    let mut j: usize = 0;
                    while j < kinds.len()
                        invariant
                            j <= kinds.len(),
                            f == self@,
                            self.kinds == Some(*kinds),
                            out@.len() == done.len() + j,
                            forall|x: int| 0 <= x < done.len() ==> (#[trigger] out@[x])@ == done[x],
                            forall|x: int|
                                0 <= x < j ==> (#[trigger] out@[done.len() + x])@ == base(
                                    f,
                                    key@,
                                    prefix@ + be64(kinds@[x]),
                                    MatcherView::Prefix,
                                ),
                        decreases kinds.len() - j,
                    {
                        let full = concat(prefix.as_slice(), u64_to_ver(kinds[j]).as_slice());
                        let ghost prev = out@;
                        out.push(self.scan(copy_bytes(key.as_slice()), full, Matcher::Prefix));
                        proof {
                            assert forall|x: int| 0 <= x < j + 1 implies (
                            #[trigger] out@[done.len() + x])@ == base(
                                f,
                                key@,
                                prefix@ + be64(kinds@[x]),
                                MatcherView::Prefix,
                            ) by {
                                if x < j {
                                    assert(out@[done.len() + x] == prev[done.len() + x]);
                                }
                            }
                            assert forall|x: int| 0 <= x < done.len() implies (#[trigger] out@[x])@
                                == done[x] by {
                                assert(out@[x] == prev[x]);
                            }
                        }
                        j += 1;
                    }
                    proof {
                        lemma_appended(out@, done, author_scans(f, key@));
                    }
                } else {
                    // a prefix: the kind is held against the kinds entry by entry
                    let ghost prev = out@;
                    out.push(
                        self.scan(
                            copy_bytes(key.as_slice()),
                            prefix,
                            Matcher::HexKinds { odd, kinds: copy_kinds(kinds) },
                        ),
                    );
                    proof {
                        assert forall|x: int| 0 <= x < done.len() implies (#[trigger] out@[x])@
                            == done[x] by {
                            assert(out@[x] == prev[x]);
                        }
                        lemma_appended(out@, done, author_scans(f, key@));
                    }
                }
            },
            None => {},
        }
    }

    fn scan(&self, key: Vec<u8>, prefix: Vec<u8>, matcher: Matcher) -> (r: Scan)
        ensures
            r@ == base(self@, key@, prefix@, matcher@),
    {
        Scan {
            key,
            prefix,
            reverse: self.desc,
            since: self.since,
            until: self.until,
            matcher,
        }
    }

    fn kinds_copy(&self) -> (r: Option<Vec<u64>>)
        ensures
            opt_kinds_view(r) == self@.kinds,
    {
        match &self.kinds {
            Some(k) => Some(copy_kinds(k)),
            None => None,
        }
    }

    /// The prefix that a hexadecimal text stands for.
    fn hex_prefix(&self, text: &Vec<u8>) -> (r: Result<Vec<u8>, Error>)
        ensures
            r.is_ok() == hex_valid(padded(text@, self.desc)),
            r matches Ok(p) ==> p@ == hex_decoded(padded(text@, self.desc)),
            r matches Err(e) ==> e == Error::Hex,
    {
        if text.len() % 2 == 1 {
            let mut even = copy_bytes(text.as_slice());
            if self.desc {
                even.push(0x66u8);
            } else {
                even.push(0x30u8);
            }
            decode_hex(even.as_slice())
        } else {
            decode_hex(text.as_slice())
        }
    }

    /// The scan over the index by time.
    pub fn plan_time(&self) -> (r: Vec<Scan>)
        ensures
            scans_view(r@) == time_plan(self@),
    {
        let prefix = if self.desc {
            u64_to_ver(u64::MAX)
        } else {
            u64_to_ver(0)
        };
        let mut out: Vec<Scan> = Vec::new();
        out.push(self.scan(Vec::new(), prefix, Matcher::Any));
        assert(scans_view(out@) =~= time_plan(self@));
        out
    }

    /// The scans over the index by kind.
    pub fn plan_kind(&self) -> (r: Vec<Scan>)
        requires
            self.kinds is Some,
        ensures
            scans_view(r@) == kind_plan(self@),
    {
        let mut out: Vec<Scan> = Vec::new();
        match &self.kinds {
            Some(kinds) => {
                let mut i: usize = 0;
                while i < kinds.len()
                    invariant
                        i <= kinds.len(),
                        self.kinds == Some(*kinds),
                        out@.len() == i,
                        forall|j: int| 0 <= j < i ==> (#[trigger] out@[j])@ == kind_plan(self@)[j],
                    decreases kinds.len() - i,
                {
                    out.push(self.scan(Vec::new(), u64_to_ver(kinds[i]), Matcher::Prefix));
                    i += 1;
                }
            },
            None => {},
        }
        assert(scans_view(out@) =~= kind_plan(self@));
        out
    }

    /// The scans over the index by tag.
    pub fn plan_tag(&self) -> (r: Vec<Scan>)
        ensures
            scans_view(r@) == tag_plan(self@),
    {
        let ghost f = self@;
        let mut out: Vec<Scan> = Vec::new();
        let mut n: usize = 0;
        assert(scans_view(out@) =~= tag_plan_upto(f, 0));
        while n < self.tags.len()
            invariant
                n <= self.tags.len(),
                f == self@,
                scans_view(out@) == tag_plan_upto(f, n as int),
            decreases self.tags.len() - n,
        {
            self.tag_scans_into(&mut out, n);
            n += 1;
        }
        out
    }

    /// The scans over the index by word.
    pub fn plan_word(&self) -> (r: Vec<Scan>)
        ensures
            scans_view(r@) == word_plan(self@),
    {
        let mut out: Vec<Scan> = Vec::new();
        match &self.words {
            Some(words) => {
                let mut i: usize = 0;
                while i < words.len()
                    invariant
                        i <= words.len(),
                        self.words == Some(*words),
                        out@.len() == i,
                        forall|j: int| 0 <= j < i ==> (#[trigger] out@[j])@ == word_plan(self@)[j],
                    decreases words.len() - i,
                {
                    let empty: Vec<u8> = Vec::new();
                    assert(empty@ =~= Seq::<u8>::empty());
                    let prefix = concat_sep(words[i].as_slice(), empty.as_slice());
                    out.push(self.scan(Vec::new(), prefix, Matcher::Exact));
                    i += 1;
                }
            },
            None => {},
        }
        assert(scans_view(out@) =~= word_plan(self@));
        out
    }

    /// The scans over an index by id or by public key, one for each
    /// hexadecimal prefix. It fails where a prefix is not hexadecimal.
    pub fn plan_prefix(&self, texts: &Vec<Vec<u8>>) -> (r: Result<Vec<Scan>, Error>)
        ensures
            r.is_ok() == all_hex(words_view(texts@), self.desc),
            r matches Ok(s) ==> scans_view(s@) == prefix_plan(self@, words_view(texts@)),
            r matches Err(e) ==> e == Error::Hex,
    {
        let ghost tv = words_view(texts@);
        let mut out: Vec<Scan> = Vec::new();
        let mut i: usize = 0;
        while i < texts.len()
            invariant
                i <= texts.len(),
                tv == words_view(texts@),
                out@.len() == i,
                forall|j: int| 0 <= j < i ==> hex_valid(padded(#[trigger] tv[j], self.desc)),
                forall|j: int| 0 <= j < i ==> (#[trigger] out@[j])@ == prefix_scan(self@, tv[j]),
            decreases texts.len() - i,
        {
            let odd = texts[i].len() % 2 == 1;
            match self.hex_prefix(&texts[i]) {
                Ok(prefix) => {
                    out.push(
                        self.scan(copy_bytes(texts[i].as_slice()), prefix, Matcher::Hex { odd }),
                    );
                },
                Err(e) => {
                    assert(!hex_valid(padded(tv[i as int], self.desc)));
                    return Err(e);
                },
            }
            i += 1;
        }
        assert(scans_view(out@) =~= prefix_plan(self@, tv));
        Ok(out)
    }

    /// The scans over the index by public key and kind. It fails where an
    /// author is not hexadecimal.
    pub fn plan_author_kind(&self) -> (r: Result<Vec<Scan>, Error>)
        requires
            self.authors is Some,
            self.kinds is Some,
        ensures
            r.is_ok() == all_hex(self@.authors.unwrap(), self.desc),
            r matches Ok(s) ==> scans_view(s@) == author_kind_plan(self@),
            r matches Err(e) ==> e == Error::Hex,
    {
        let ghost f = self@;
        let mut out: Vec<Scan> = Vec::new();
        match &self.authors {
            Some(authors) => {
                let ghost av = words_view(authors@);
                let mut n: usize = 0;
                assert(scans_view(out@) =~= author_kind_plan_upto(f, 0));
                while n < authors.len()
                    invariant
                        n <= authors.len(),
                        f == self@,
                        self.authors == Some(*authors),
                        self.kinds is Some,
                        av == words_view(authors@),
                        forall|j: int| 0 <= j < n ==> hex_valid(padded(#[trigger] av[j], self.desc)),
                        scans_view(out@) == author_kind_plan_upto(f, n as int),
                    decreases authors.len() - n,
                {
                    let key = &authors[n];
                    match self.hex_prefix(key) {
                        Ok(prefix) => {
                            self.author_scans_into(&mut out, key, prefix);
                        },
                        Err(e) => {
                            assert(!hex_valid(padded(av[n as int], self.desc)));
                            return Err(e);
                        },
                    }
                    n += 1;
                }
                Ok(out)
            },
            None => Ok(out),
        }
    }
}

/// Every scan of a plan by tag holds kinds against the value.
pub proof fn lemma_tag_plan_matchers(f: FilterView, n: int)
    ensures
        forall|i: int|
            0 <= i < tag_plan_upto(f, n).len() ==> (#[trigger] tag_plan_upto(f, n)[i]).matcher
                is Tag,
    decreases n,
{
    if n > 0 {
        lemma_tag_plan_matchers(f, n - 1);
    }
}

/// No scan of a plan by author and kind reads the value for a kind.
pub proof fn lemma_author_kind_plan_matchers(f: FilterView, n: int)
    ensures
        forall|i: int|
            0 <= i < author_kind_plan_upto(f, n).len() ==> !((#[trigger] author_kind_plan_upto(
                f,
                n,
            )[i]).matcher is Tag),
    decreases n,
{
    if n > 0 {
        lemma_author_kind_plan_matchers(f, n - 1);
    }
}

/// What a query is answered with: the driving index, the scans over it, how
/// they are merged, and what is held against the index record of a
/// candidate.
pub struct Choice {
    pub table: Table,
    pub plan: Seq<ScanView>,
    pub and: bool,
    pub dedup: bool,
    pub match_index: MatchIndex,
}

/// The driving index is picked in a fixed order: words, ids, tags, authors
/// with kinds, authors, kinds, and time where the filter names none of
/// these.
///
/// Words are merged so that a result must come from every word. Under words
/// and under ids the whole filter is held against the index record where the
/// filter names anything else. Under tags the authors alone are held against
/// it where the filter names one tag and authors and no kinds; in every other
/// case the whole filter is.
pub open spec fn chosen(f: FilterView) -> Choice {
    let other = f.tags.len() > 0 || f.authors is Some || f.kinds is Some;
    if f.words is Some {
        Choice {
            table: Table::Word,
            plan: word_plan(f),
            and: true,
            dedup: true,
            match_index: if f.ids is Some || other {
                MatchIndex::All
            } else {
                MatchIndex::Off
            },
        }
    } else if f.ids is Some {
        Choice {
            table: Table::Id,
            plan: prefix_plan(f, f.ids.unwrap()),
            and: false,
            dedup: false,
            match_index: if other {
                MatchIndex::All
            } else {
                MatchIndex::Off
            },
        }
    } else if f.tags.len() > 0 {
        Choice {
            table: Table::Tag,
            plan: tag_plan(f),
            and: false,
            dedup: true,
            match_index: if f.authors is Some && f.kinds is None && f.tags.len() == 1 {
                MatchIndex::Pubkey
            } else {
                MatchIndex::All
            },
        }
    } else if f.authors is Some && f.kinds is Some {
        Choice {
            table: Table::PubkeyKind,
            plan: author_kind_plan(f),
            and: false,
            dedup: false,
            match_index: MatchIndex::Off,
        }
    } else if f.authors is Some {
        Choice {
            table: Table::Pubkey,
            plan: prefix_plan(f, f.authors.unwrap()),
            and: false,
            dedup: false,
            match_index: MatchIndex::Off,
        }
    } else if f.kinds is Some {
        Choice {
            table: Table::Kind,
            plan: kind_plan(f),
            and: false,
            dedup: false,
            match_index: MatchIndex::Off,
        }
    } else {
        Choice {
            table: Table::Time,
            plan: time_plan(f),
            and: false,
            dedup: false,
            match_index: MatchIndex::Off,
        }
    }
}

/// The texts that the plan decodes: the ids where they drive the query, the
/// authors where they do.
pub open spec fn decoded_texts(f: FilterView) -> Option<Seq<Seq<u8>>> {
    if f.words is Some {
        None
    } else if f.ids is Some {
        f.ids
    } else if f.tags.len() > 0 {
        None
    } else {
        f.authors
    }
}

/// Whether no plan can be made: a text that the plan decodes is not
/// hexadecimal.
pub open spec fn plan_fails(f: FilterView) -> bool {
    decoded_texts(f) matches Some(texts) && !all_hex(texts, f.desc)
}

} // verus!
