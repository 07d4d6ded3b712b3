//! What a query asks for, and whether an index record answers it.

use vstd::prelude::*;
use crate::bytes::{bytes_equal, bytes_start_with, copy_bytes, starts_with};
use crate::event::{opt_bytes_view, tags_view, words_view, EventIndex, EventIndexView, TagView};
use crate::hexcodec::{decode_hex, encode_hex, hex_decoded, hex_encoded, hex_valid};

verus! {

/// A query. Ids and authors are hexadecimal text, as bytes of ASCII, and
/// stand for every id or public key that starts with them. A tag entry names
/// a tag and the values of which the event must carry one.
pub struct Filter {
    pub ids: Option<Vec<Vec<u8>>>,
    pub authors: Option<Vec<Vec<u8>>>,
    pub kinds: Option<Vec<u64>>,
    pub tags: Vec<(Vec<u8>, Vec<Vec<u8>>)>,
    pub since: Option<u64>,
    pub until: Option<u64>,
    pub limit: Option<u64>,
    pub desc: bool,
    pub words: Option<Vec<Vec<u8>>>,
}

pub struct FilterView {
    pub ids: Option<Seq<Seq<u8>>>,
    pub authors: Option<Seq<Seq<u8>>>,
    pub kinds: Option<Seq<u64>>,
    pub tags: Seq<(Seq<u8>, Seq<Seq<u8>>)>,
    pub since: Option<u64>,
    pub until: Option<u64>,
    pub limit: Option<u64>,
    pub desc: bool,
    pub words: Option<Seq<Seq<u8>>>,
}

pub open spec fn opt_list_view(l: Option<Vec<Vec<u8>>>) -> Option<Seq<Seq<u8>>> {
    match l {
        Some(v) => Some(words_view(v@)),
        None => None,
    }
}

pub open spec fn opt_kinds_view(l: Option<Vec<u64>>) -> Option<Seq<u64>> {
    match l {
        Some(v) => Some(v@),
        None => None,
    }
}

pub open spec fn filter_tags_view(t: Seq<(Vec<u8>, Vec<Vec<u8>>)>) -> Seq<(Seq<u8>, Seq<Seq<u8>>)> {
    Seq::new(t.len(), |i: int| (t[i].0@, words_view(t[i].1@)))
}

impl View for Filter {
    type V = FilterView;

    open spec fn view(&self) -> FilterView {
        FilterView {
            ids: opt_list_view(self.ids),
            authors: opt_list_view(self.authors),
            kinds: opt_kinds_view(self.kinds),
            tags: filter_tags_view(self.tags@),
            since: self.since,
            until: self.until,
            limit: self.limit,
            desc: self.desc,
            words: opt_list_view(self.words),
        }
    }
}

/// Whether `bytes` starts with what the hexadecimal text `p` spells. A text
/// of odd length is held against the lower-case hexadecimal text of `bytes`;
/// a text of even length must be valid hexadecimal and is held, decoded,
/// against `bytes` itself.
pub open spec fn prefix_matches(p: Seq<u8>, bytes: Seq<u8>) -> bool {
    if p.len() % 2 == 1 {
        starts_with(hex_encoded(bytes), p)
    } else {
        hex_valid(p) && starts_with(bytes, hex_decoded(p))
    }
}

pub open spec fn any_prefix_matches(ps: Seq<Seq<u8>>, bytes: Seq<u8>) -> bool {
    exists|i: int| 0 <= i < ps.len() && prefix_matches(#[trigger] ps[i], bytes)
}

pub open spec fn id_matches(ids: Option<Seq<Seq<u8>>>, id: Seq<u8>) -> bool {
    match ids {
        Some(ps) => any_prefix_matches(ps, id),
        None => true,
    }
}

/// An author matches through the signer's key or through the delegator's.
pub open spec fn author_matches(
    authors: Option<Seq<Seq<u8>>>,
    pubkey: Seq<u8>,
    delegator: Option<Seq<u8>>,
) -> bool {
    match authors {
        Some(ps) => any_prefix_matches(ps, pubkey) || (delegator matches Some(d)
            && any_prefix_matches(ps, d)),
        None => true,
    }
}

pub open spec fn kind_matches(kinds: Option<Seq<u64>>, kind: u64) -> bool {
    match kinds {
        Some(ks) => ks.contains(kind),
        None => true,
    }
}

/// The event carries tag `name` with one of `values`.
pub open spec fn tag_matches(name: Seq<u8>, values: Seq<Seq<u8>>, tags: Seq<TagView>) -> bool {
    exists|i: int, j: int|
        0 <= i < tags.len() && 0 <= j < values.len() && (#[trigger] tags[i]).0 == name
            && tags[i].1 == #[trigger] values[j]
}

/// The event answers every tag entry of the filter.
pub open spec fn tags_match(want: Seq<(Seq<u8>, Seq<Seq<u8>>)>, tags: Seq<TagView>) -> bool {
    forall|n: int| 0 <= n < want.len() ==> tag_matches((#[trigger] want[n]).0, want[n].1, tags)
}

pub open spec fn time_matches(since: Option<u64>, until: Option<u64>, at: u64) -> bool {
    &&& since matches Some(s) ==> s <= at
    &&& until matches Some(u) ==> at <= u
}

/// Whether an index record answers all of the filter that an index record
/// can answer: everything but the words.
pub open spec fn record_matches(f: FilterView, e: EventIndexView) -> bool {
    &&& id_matches(f.ids, e.id)
    &&& author_matches(f.authors, e.pubkey, e.delegator)
    &&& kind_matches(f.kinds, e.kind)
    &&& tags_match(f.tags, e.tags)
    &&& time_matches(f.since, f.until, e.created_at)
}

fn prefix_match(p: &[u8], bytes: &[u8]) -> (r: bool)
    ensures
        r == prefix_matches(p@, bytes@),
{
    if p.len() % 2 == 1 {
        let text = encode_hex(bytes);
        bytes_start_with(text.as_slice(), p)
    } else {
        match decode_hex(p) {
            Ok(b) => bytes_start_with(bytes, b.as_slice()),
            Err(_) => false,
        }
    }
}

fn any_prefix_match(ps: &Vec<Vec<u8>>, bytes: &[u8]) -> (r: bool)
    ensures
        r == any_prefix_matches(words_view(ps@), bytes@),
{
    let ghost pv = words_view(ps@);
    let mut i: usize = 0;
    while i < ps.len()
        invariant
            i <= ps.len(),
            pv == words_view(ps@),
            forall|j: int| 0 <= j < i ==> !prefix_matches(#[trigger] pv[j], bytes@),
        decreases ps.len() - i,
    {
        if prefix_match(ps[i].as_slice(), bytes) {
            assert(prefix_matches(pv[i as int], bytes@));
            return true;
        }
        i += 1;
    }
    false
}

fn tag_match(name: &[u8], values: &Vec<Vec<u8>>, tags: &Vec<(Vec<u8>, Vec<u8>)>) -> (r: bool)
    ensures
        r == tag_matches(name@, words_view(values@), tags_view(tags@)),
{
    let ghost vv = words_view(values@);
    let ghost tv = tags_view(tags@);
    let mut i: usize = 0;
    while i < tags.len()
        invariant
            i <= tags.len(),
            vv == words_view(values@),
            tv == tags_view(tags@),
            forall|a: int, b: int|
                0 <= a < i && 0 <= b < vv.len() ==> !((#[trigger] tv[a]).0 == name@ && tv[a].1
                    == #[trigger] vv[b]),
        decreases tags.len() - i,
    {
        if bytes_equal(tags[i].0.as_slice(), name) {
            let mut j: usize = 0;
            while j < values.len()
                invariant
                    j <= values.len(),
                    i < tags.len(),
                    vv == words_view(values@),
                    tv == tags_view(tags@),
                    tv[i as int].0 == name@,
                    forall|b: int| 0 <= b < j ==> tv[i as int].1 != #[trigger] vv[b],
                decreases values.len() - j,
            {
                if bytes_equal(tags[i].1.as_slice(), values[j].as_slice()) {
                    assert(tv[i as int].0 == name@ && tv[i as int].1 == vv[j as int]);
                    return true;
                }
                j += 1;
            }
        }
        i += 1;
    }
    false
}

fn tags_all_match(want: &Vec<(Vec<u8>, Vec<Vec<u8>>)>, tags: &Vec<(Vec<u8>, Vec<u8>)>) -> (r: bool)
    ensures
        r == tags_match(filter_tags_view(want@), tags_view(tags@)),
{
    let ghost wv = filter_tags_view(want@);
    let mut n: usize = 0;
    while n < want.len()
        invariant
            n <= want.len(),
            wv == filter_tags_view(want@),
            forall|m: int|
                0 <= m < n ==> tag_matches((#[trigger] wv[m]).0, wv[m].1, tags_view(tags@)),
        decreases want.len() - n,
    {
        if !tag_match(want[n].0.as_slice(), &want[n].1, tags) {
            assert(!tag_matches(wv[n as int].0, wv[n as int].1, tags_view(tags@)));
            return false;
        }
        n += 1;
    }
    true
}

/// Whether a list of numbers holds `x`.
pub fn contains_u64(list: &Vec<u64>, x: u64) -> (r: bool)
    ensures
        r == list@.contains(x),
{
    let mut i: usize = 0;
    while i < list.len()
        invariant
            i <= list.len(),
            forall|j: int| 0 <= j < i ==> list@[j] != x,
        decreases list.len() - i,
    {
        if list[i] == x {
            return true;
        }
        i += 1;
    }
    false
}

/// A copy of a list of byte strings.
pub fn copy_list(l: &Vec<Vec<u8>>) -> (r: Vec<Vec<u8>>)
    ensures
        words_view(r@) == words_view(l@),
{
    let mut out: Vec<Vec<u8>> = Vec::new();
    let mut i: usize = 0;
    while i < l.len()
        invariant
            i <= l.len(),
            out@.len() == i,
            forall|j: int| 0 <= j < i ==> (#[trigger] out@[j])@ == l@[j]@,
        decreases l.len() - i,
    {
        out.push(copy_bytes(l[i].as_slice()));
        i += 1;
    }
    assert(words_view(out@) =~= words_view(l@));
    out
}

/// A copy of a list of numbers.
pub fn copy_kinds(l: &Vec<u64>) -> (r: Vec<u64>)
    ensures
        r@ == l@,
{
    let mut out: Vec<u64> = Vec::new();
    let mut i: usize = 0;
    while i < l.len()
        invariant
            i <= l.len(),
            out@ == l@.take(i as int),
        decreases l.len() - i,
    {
        out.push(l[i]);
        i += 1;
        assert(out@ =~= l@.take(i as int));
    }
    assert(l@.take(l@.len() as int) =~= l@);
    out
}

impl Filter {
/// Whether the id answers the ids of a filter.
    pub fn match_id(ids: &Option<Vec<Vec<u8>>>, id: &[u8]) -> (r: bool)
        ensures
            r == id_matches(opt_list_view(*ids), id@),
    {
        match ids {
            Some(ps) => any_prefix_match(ps, id),
            None => true,
        }
    }

/// Whether the signer or the delegator answers the authors of a filter.
    pub fn match_author(
        authors: &Option<Vec<Vec<u8>>>,
        pubkey: &[u8],
        delegator: &Option<Vec<u8>>,
    ) -> (r: bool)
        ensures
            r == author_matches(opt_list_view(*authors), pubkey@, opt_bytes_view(*delegator)),
    {
        match authors {
            Some(ps) => {
                if any_prefix_match(ps, pubkey) {
                    true
                } else {
                    match delegator {
                        Some(d) => any_prefix_match(ps, d.as_slice()),
                        None => false,
                    }
                }
            },
            None => true,
        }
    }

/// Whether the kind answers the kinds of a filter.
    pub fn match_kind(kinds: &Option<Vec<u64>>, kind: u64) -> (r: bool)
        ensures
            r == kind_matches(opt_kinds_view(*kinds), kind),
    {
        match kinds {
            Some(ks) => contains_u64(ks, kind),
            None => true,
        }
    }

    /// Whether an index record answers the filter, words aside.
    pub fn match_archived(&self, e: &EventIndex) -> (r: bool)
        ensures
            r == record_matches(self@, e@),
    {
        let since_ok = match self.since {
            Some(s) => s <= e.created_at,
            None => true,
        };
        let until_ok = match self.until {
            Some(u) => e.created_at <= u,
            None => true,
        };
        since_ok && until_ok && Filter::match_kind(&self.kinds, e.kind) && Filter::match_id(
            &self.ids,
            e.id.as_slice(),
        ) && Filter::match_author(&self.authors, e.pubkey.as_slice(), &e.delegator)
            && tags_all_match(&self.tags, &e.tags)
    }
}

impl Filter {
    /// A filter that asks for the same.
    pub fn copy(&self) -> (r: Filter)
        ensures
            r@ == self@,
    {
        let ids = match &self.ids {
            Some(l) => Some(copy_list(l)),
            None => None,
        };
        let authors = match &self.authors {
            Some(l) => Some(copy_list(l)),
            None => None,
        };
        let kinds = match &self.kinds {
            Some(l) => Some(copy_kinds(l)),
            None => None,
        };
        let words = match &self.words {
            Some(l) => Some(copy_list(l)),
            None => None,
        };
        let mut tags: Vec<(Vec<u8>, Vec<Vec<u8>>)> = Vec::new();
        let mut i: usize = 0;
        while i < self.tags.len()
            invariant
                i <= self.tags.len(),
                tags@.len() == i,
                forall|j: int|
                    0 <= j < i ==> (#[trigger] tags@[j]).0@ == self.tags@[j].0@ && words_view(
                        tags@[j].1@,
                    ) == words_view(self.tags@[j].1@),
            decreases self.tags.len() - i,
        {
            tags.push((copy_bytes(self.tags[i].0.as_slice()), copy_list(&self.tags[i].1)));
            i += 1;
        }
        assert(filter_tags_view(tags@) =~= filter_tags_view(self.tags@));
        Filter {
            ids,
            authors,
            kinds,
            tags,
            since: self.since,
            until: self.until,
            limit: self.limit,
            desc: self.desc,
            words,
        }
    }

    /// A filter that asks for everything, oldest first.
    pub fn new() -> (r: Filter)
        ensures
            r@ == (FilterView {
                ids: None,
                authors: None,
                kinds: None,
                tags: Seq::empty(),
                since: None,
                until: None,
                limit: None,
                desc: false,
                words: None,
            }),
    {
        let r = Filter {
            ids: None,
            authors: None,
            kinds: None,
            tags: Vec::new(),
            since: None,
            until: None,
            limit: None,
            desc: false,
            words: None,
        };
        assert(filter_tags_view(r.tags@) =~= Seq::empty());
        r
    }
}

} // verus!
