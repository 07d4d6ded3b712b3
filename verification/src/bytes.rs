//! Byte strings: lexicographic order, prefixes, concatenation and the
//! fixed-width big-endian integers used inside keys.

use vstd::prelude::*;
use crate::error::Error;

verus! {

/// The first position from `i` on at which `a` and `b` differ or one of them ends.
pub open spec fn mismatch_from(a: Seq<u8>, b: Seq<u8>, i: int) -> int
    decreases a.len() - i,
{
    if 0 <= i < a.len() && i < b.len() && a[i] == b[i] {
        mismatch_from(a, b, i + 1)
    } else {
        i
    }
}

/// Strict lexicographic order: at the first mismatch either `a` has ended
/// and `b` has not, or `a` holds the smaller byte.
pub open spec fn lex_lt(a: Seq<u8>, b: Seq<u8>) -> bool {
    let m = mismatch_from(a, b, 0);
    m < b.len() && (m == a.len() || a[m] < b[m])
}

pub open spec fn lex_le(a: Seq<u8>, b: Seq<u8>) -> bool {
    a == b || lex_lt(a, b)
}

pub open spec fn starts_with(k: Seq<u8>, p: Seq<u8>) -> bool {
    p.len() <= k.len() && k.subrange(0, p.len() as int) == p
}

/// What `mismatch_from` returns: the bytes before it agree, and it is a
/// position where the strings part.
pub proof fn lemma_mismatch(a: Seq<u8>, b: Seq<u8>, i: int)
    requires
        0 <= i <= a.len(),
        i <= b.len(),
    ensures
        i <= mismatch_from(a, b, i) <= a.len(),
        mismatch_from(a, b, i) <= b.len(),
        forall|j: int| i <= j < mismatch_from(a, b, i) ==> a[j] == b[j],
        mismatch_from(a, b, i) < a.len() && mismatch_from(a, b, i) < b.len() ==> a[mismatch_from(
            a,
            b,
            i,
        )] != b[mismatch_from(a, b, i)],
    decreases a.len() - i,
{
    if i < a.len() && i < b.len() && a[i] == b[i] {
        lemma_mismatch(a, b, i + 1);
    }
}

/// A position where the strings part after agreeing from `i` is the mismatch.
pub proof fn lemma_mismatch_is(a: Seq<u8>, b: Seq<u8>, i: int, k: int)
    requires
        0 <= i <= k,
        k <= a.len(),
        k <= b.len(),
        forall|j: int| i <= j < k ==> a[j] == b[j],
        k == a.len() || k == b.len() || a[k] != b[k],
    ensures
        mismatch_from(a, b, i) == k,
    decreases k - i,
{
    if i < k {
        lemma_mismatch_is(a, b, i + 1, k);
    }
}

pub proof fn lemma_lex_irreflexive(a: Seq<u8>)
    ensures
        !lex_lt(a, a),
{
    lemma_mismatch_is(a, a, 0, a.len() as int);
}

/// Of two byte strings exactly one holds: the first is smaller, they are
/// equal, or the second is smaller.
pub proof fn lemma_lex_trichotomy(a: Seq<u8>, b: Seq<u8>)
    ensures
        lex_lt(a, b) || a == b || lex_lt(b, a),
        !(lex_lt(a, b) && lex_lt(b, a)),
        !(lex_lt(a, b) && a == b),
{
    lemma_mismatch(a, b, 0);
    let m = mismatch_from(a, b, 0);
    lemma_mismatch_is(b, a, 0, m);
    if m == a.len() && m == b.len() {
        assert(a =~= b);
    }
    lemma_lex_irreflexive(a);
}

pub proof fn lemma_lex_transitive(a: Seq<u8>, b: Seq<u8>, c: Seq<u8>)
    requires
        lex_lt(a, b),
        lex_lt(b, c),
    ensures
        lex_lt(a, c),
{
    lemma_mismatch(a, b, 0);
    lemma_mismatch(b, c, 0);
    let m1 = mismatch_from(a, b, 0);
    let m2 = mismatch_from(b, c, 0);
    let k = if m1 <= m2 { m1 } else { m2 };
    lemma_mismatch_is(a, c, 0, k);
}

/// `lex_le` is transitive too, in each mix with `lex_lt`.
pub proof fn lemma_lex_le_transitive(a: Seq<u8>, b: Seq<u8>, c: Seq<u8>)
    requires
        lex_le(a, b),
        lex_le(b, c),
    ensures
        lex_le(a, c),
        lex_lt(a, b) || lex_lt(b, c) ==> lex_lt(a, c),
{
    if a != b && b != c {
        lemma_lex_transitive(a, b, c);
    }
}

/// Whether `a` comes strictly before `b` in lexicographic order.
pub fn bytes_less(a: &[u8], b: &[u8]) -> (r: bool)
    ensures
        r == lex_lt(a@, b@),
{
    let mut i: usize = 0;
    while i < a.len() && i < b.len() && a[i] == b[i]
        invariant
            i <= a.len(),
            i <= b.len(),
            forall|j: int| 0 <= j < i ==> a@[j] == b@[j],
        decreases a.len() - i,
    {
        i += 1;
    }
    proof {
        lemma_mismatch_is(a@, b@, 0, i as int);
    }
    i < b.len() && (i == a.len() || a[i] < b[i])
}

/// Whether two byte strings are the same.
pub fn bytes_equal(a: &[u8], b: &[u8]) -> (r: bool)
    ensures
        r == (a@ == b@),
{
    if a.len() != b.len() {
        return false;
    }
    let mut i: usize = 0;
    while i < a.len()
        invariant
            i <= a.len(),
            a.len() == b.len(),
            forall|j: int| 0 <= j < i ==> a@[j] == b@[j],
        decreases a.len() - i,
    {
        if a[i] != b[i] {
            return false;
        }
        i += 1;
    }
    assert(a@ =~= b@);
    true
}

/// Whether `k` starts with `p`.
pub fn bytes_start_with(k: &[u8], p: &[u8]) -> (r: bool)
    ensures
        r == starts_with(k@, p@),
{
    if p.len() > k.len() {
        return false;
    }
    let mut i: usize = 0;
    while i < p.len()
        invariant
            i <= p.len(),
            p.len() <= k.len(),
            forall|j: int| 0 <= j < i ==> k@[j] == p@[j],
        decreases p.len() - i,
    {
        if k[i] != p[i] {
            assert(k@.subrange(0, p@.len() as int)[i as int] == k@[i as int]);
            return false;
        }
        i += 1;
    }
    assert(k@.subrange(0, p@.len() as int) =~= p@);
    true
}

/// A fresh copy of a byte string.
pub fn copy_bytes(a: &[u8]) -> (r: Vec<u8>)
    ensures
        r@ == a@,
{
    let mut out: Vec<u8> = Vec::new();
    let mut i: usize = 0;
    while i < a.len()
        invariant
            i <= a.len(),
            out@ == a@.subrange(0, i as int),
        decreases a.len() - i,
    {
        out.push(a[i]);
        i += 1;
        assert(out@ =~= a@.subrange(0, i as int));
    }
    assert(a@.subrange(0, a@.len() as int) =~= a@);
    out
}

/// `a` followed by `b`.
pub fn concat(a: &[u8], b: &[u8]) -> (r: Vec<u8>)
    ensures
        r@ == a@ + b@,
{
    let mut out = copy_bytes(a);
    let mut i: usize = 0;
    while i < b.len()
        invariant
            i <= b.len(),
            out@ == a@ + b@.subrange(0, i as int),
        decreases b.len() - i,
    {
        out.push(b[i]);
        i += 1;
        assert(out@ =~= a@ + b@.subrange(0, i as int));
    }
    assert(b@.subrange(0, b@.len() as int) =~= b@);
    out
}

/// `a`, a zero byte, then `b`.
pub open spec fn sep_spec(a: Seq<u8>, b: Seq<u8>) -> Seq<u8> {
    a.push(0u8) + b
}

/// `a`, a zero byte, then `b`.
pub fn concat_sep(a: &[u8], b: &[u8]) -> (r: Vec<u8>)
    ensures
        r@ == sep_spec(a@, b@),
{
    let mut out = copy_bytes(a);
    out.push(0u8);
    let mut i: usize = 0;
    while i < b.len()
        invariant
            i <= b.len(),
            out@ == a@.push(0u8) + b@.subrange(0, i as int),
        decreases b.len() - i,
    {
        out.push(b[i]);
        i += 1;
        assert(out@ =~= a@.push(0u8) + b@.subrange(0, i as int));
    }
    assert(b@.subrange(0, b@.len() as int) =~= b@);
    out
}

/// The least byte string above every string that starts with `key`: `key`
/// without its trailing `0xFF` bytes and with the byte before them raised by
/// one. There is none where `key` holds `0xFF` bytes only.
pub open spec fn upper_spec(key: Seq<u8>) -> Option<Seq<u8>>
    decreases key.len(),
{
    if key.len() == 0 {
        None
    } else if key.last() < 255 {
        Some(key.drop_last().push((key.last() + 1) as u8))
    } else {
        upper_spec(key.drop_last())
    }
}

/// The least byte string above every string that starts with `key`, if
/// there is one.
pub fn upper(key: Vec<u8>) -> (r: Option<Vec<u8>>)
    ensures
        r.is_some() == upper_spec(key@).is_some(),
        r.is_some() ==> r.unwrap()@ == upper_spec(key@).unwrap(),
{
    let mut rest = key;
    loop
        invariant
            upper_spec(rest@) == upper_spec(key@),
        decreases rest.len(),
    {
        let ghost before = rest@;
        match rest.pop() {
            Some(last) => {
                assert(rest@ == before.drop_last());
                assert(last == before.last());
                if last < u8::MAX {
                    rest.push(last + 1);
                    return Some(rest);
                }
            },
            None => {
                return None;
            },
        }
    }
}

/// The eight bytes of `n`, most significant first.
pub open spec fn be64(n: u64) -> Seq<u8> {
    seq![
        (n / 0x100_0000_0000_0000) as u8,
        ((n / 0x1_0000_0000_0000) % 256) as u8,
        ((n / 0x100_0000_0000) % 256) as u8,
        ((n / 0x1_0000_0000) % 256) as u8,
        ((n / 0x100_0000) % 256) as u8,
        ((n / 0x1_0000) % 256) as u8,
        ((n / 0x100) % 256) as u8,
        (n % 256) as u8,
    ]
}

/// The number whose eight bytes, most significant first, are `b`.
pub open spec fn be64_value(b: Seq<u8>) -> int
    recommends
        b.len() == 8,
{
    b[0] * 0x100_0000_0000_0000 + b[1] * 0x1_0000_0000_0000 + b[2] * 0x100_0000_0000 + b[3]
        * 0x1_0000_0000 + b[4] * 0x100_0000 + b[5] * 0x1_0000 + b[6] * 0x100 + b[7]
}

pub proof fn lemma_be64_roundtrip(n: u64)
    ensures
        be64(n).len() == 8,
        be64_value(be64(n)) == n,
{
    assert(n == (n / 0x100_0000_0000_0000) * 0x100_0000_0000_0000 + ((n / 0x1_0000_0000_0000)
        % 256) * 0x1_0000_0000_0000 + ((n / 0x100_0000_0000) % 256) * 0x100_0000_0000 + ((n
        / 0x1_0000_0000) % 256) * 0x1_0000_0000 + ((n / 0x100_0000) % 256) * 0x100_0000 + ((n
        / 0x1_0000) % 256) * 0x1_0000 + ((n / 0x100) % 256) * 0x100 + (n % 256)) by (bit_vector);
    assert(n / 0x100_0000_0000_0000 < 256) by (bit_vector);
}

pub proof fn lemma_be64_value_roundtrip(b: Seq<u8>)
    requires
        b.len() == 8,
    ensures
        0 <= be64_value(b) <= u64::MAX,
        be64(be64_value(b) as u64) == b,
{
    let b0 = b[0] as u64;
    let b1 = b[1] as u64;
    let b2 = b[2] as u64;
    let b3 = b[3] as u64;
    let b4 = b[4] as u64;
    let b5 = b[5] as u64;
    let b6 = b[6] as u64;
    let b7 = b[7] as u64;
    let v = be64_value(b) as u64;
    assert(v == b0 * 0x100_0000_0000_0000 + b1 * 0x1_0000_0000_0000 + b2 * 0x100_0000_0000 + b3
        * 0x1_0000_0000 + b4 * 0x100_0000 + b5 * 0x1_0000 + b6 * 0x100 + b7);
    assert(v / 0x100_0000_0000_0000 == b0 && (v / 0x1_0000_0000_0000) % 256 == b1 && (v
        / 0x100_0000_0000) % 256 == b2 && (v / 0x1_0000_0000) % 256 == b3 && (v / 0x100_0000) % 256
        == b4 && (v / 0x1_0000) % 256 == b5 && (v / 0x100) % 256 == b6 && v % 256 == b7)
        by (bit_vector)
        requires
            b0 < 256,
            b1 < 256,
            b2 < 256,
            b3 < 256,
            b4 < 256,
            b5 < 256,
            b6 < 256,
            b7 < 256,
            v == b0 * 0x100_0000_0000_0000 + b1 * 0x1_0000_0000_0000 + b2 * 0x100_0000_0000 + b3
                * 0x1_0000_0000 + b4 * 0x100_0000 + b5 * 0x1_0000 + b6 * 0x100 + b7,
    ;
    assert(be64(v) =~= b);
}

/// Different numbers have different bytes.
pub proof fn lemma_be64_injective(a: u64, b: u64)
    ensures
        be64(a) == be64(b) <==> a == b,
{
    lemma_be64_roundtrip(a);
    lemma_be64_roundtrip(b);
}

/// The eight big-endian bytes of `n`.
pub fn u64_to_ver(n: u64) -> (r: Vec<u8>)
    ensures
        r@ == be64(n),
{
    let mut out: Vec<u8> = Vec::new();
    out.push((n / 0x100_0000_0000_0000) as u8);
    out.push(((n / 0x1_0000_0000_0000) % 256) as u8);
    out.push(((n / 0x100_0000_0000) % 256) as u8);
    out.push(((n / 0x1_0000_0000) % 256) as u8);
    out.push(((n / 0x100_0000) % 256) as u8);
    out.push(((n / 0x1_0000) % 256) as u8);
    out.push(((n / 0x100) % 256) as u8);
    out.push((n % 256) as u8);
    assert(out@ =~= be64(n));
    out
}

/// Reads eight big-endian bytes; any other length is an error.
pub fn u64_from_bytes(b: &[u8]) -> (r: Result<u64, Error>)
    ensures
        b@.len() == 8 ==> r == Ok::<u64, Error>(be64_value(b@) as u64) && b@ == be64(r.unwrap()),
        b@.len() != 8 ==> r == Err::<u64, Error>(Error::InvalidLength),
{
    if b.len() != 8 {
        return Err(Error::InvalidLength);
    }
    let mut n: u64 = 0;
    let mut i: usize = 0;
    while i < 8
        invariant
            i <= 8,
            b@.len() == 8,
            i == 0 ==> n == 0,
            i == 1 ==> n == b@[0],
            i == 2 ==> n == b@[0] * 0x100 + b@[1],
            i == 3 ==> n == b@[0] * 0x1_0000 + b@[1] * 0x100 + b@[2],
            i == 4 ==> n == b@[0] * 0x100_0000 + b@[1] * 0x1_0000 + b@[2] * 0x100 + b@[3],
            i == 5 ==> n == b@[0] * 0x1_0000_0000 + b@[1] * 0x100_0000 + b@[2] * 0x1_0000 + b@[3]
                * 0x100 + b@[4],
            i == 6 ==> n == b@[0] * 0x100_0000_0000 + b@[1] * 0x1_0000_0000 + b@[2] * 0x100_0000
                + b@[3] * 0x1_0000 + b@[4] * 0x100 + b@[5],
            i == 7 ==> n == b@[0] * 0x1_0000_0000_0000 + b@[1] * 0x100_0000_0000 + b@[2]
                * 0x1_0000_0000 + b@[3] * 0x100_0000 + b@[4] * 0x1_0000 + b@[5] * 0x100 + b@[6],
            i == 8 ==> n == be64_value(b@),
        decreases 8 - i,
    {
        n = n * 256 + b[i] as u64;
        i += 1;
    }
    proof {
        lemma_be64_value_roundtrip(b@);
    }
    Ok(n)
}

/// A common start does not change the order of what follows it.
pub proof fn lemma_lex_common_prefix(p: Seq<u8>, x: Seq<u8>, y: Seq<u8>)
    ensures
        lex_lt(p + x, p + y) <==> lex_lt(x, y),
{
    lemma_mismatch(x, y, 0);
    let m = mismatch_from(x, y, 0);
    let a = p + x;
    let b = p + y;
    assert forall|j: int| 0 <= j < p.len() + m implies a[j] == b[j] by {
        if j >= p.len() {
            assert(a[j] == x[j - p.len()]);
            assert(b[j] == y[j - p.len()]);
        }
    }
    if m < x.len() {
        assert(a[p.len() + m] == x[m]);
    }
    if m < y.len() {
        assert(b[p.len() + m] == y[m]);
    }
    lemma_mismatch_is(a, b, 0, p.len() + m);
}

/// The bytes of numbers are in the order of the numbers.
pub proof fn lemma_be64_order(a: u64, b: u64)
    ensures
        lex_lt(be64(a), be64(b)) <==> a < b,
{
    let x = be64(a);
    let y = be64(b);
    lemma_be64_roundtrip(a);
    lemma_be64_roundtrip(b);
    lemma_mismatch(x, y, 0);
    let m = mismatch_from(x, y, 0);
    assert(be64_value(x) == a && be64_value(y) == b);
    if m == 8 {
        assert(x =~= y);
    } else if m == 0 {
    } else if m == 1 {
    } else if m == 2 {
    } else if m == 3 {
    } else if m == 4 {
    } else if m == 5 {
    } else if m == 6 {
    } else {
        assert(m == 7);
    }
}

/// The form of `upper_spec`: the string is cut after its last byte that is
/// not `0xFF`, and that byte is raised by one; there is no such string
/// where all bytes are `0xFF`.
pub proof fn lemma_upper_form(p: Seq<u8>)
    ensures
        match upper_spec(p) {
            Some(u) => 0 < u.len() <= p.len() && p[u.len() - 1] < 255 && u[u.len() - 1] == p[u.len()
                - 1] + 1 && (forall|i: int| 0 <= i < u.len() - 1 ==> u[i] == p[i]) && (forall|
                i: int,
            | u.len() <= i < p.len() ==> p[i] == 255),
            None => forall|i: int| 0 <= i < p.len() ==> p[i] == 255,
        },
    decreases p.len(),
{
    if p.len() > 0 && p.last() == 255 {
        lemma_upper_form(p.drop_last());
        let q = p.drop_last();
        assert forall|i: int| 0 <= i < q.len() implies q[i] == p[i] by {}
    }
}

/// The strings that start with `p` are those from `p` on and below
/// `upper_spec(p)`.
pub proof fn lemma_prefix_range(p: Seq<u8>, k: Seq<u8>)
    ensures
        starts_with(k, p) <==> (lex_le(p, k) && (upper_spec(p) matches Some(u) ==> lex_lt(k, u))),
{
    lemma_upper_form(p);
    lemma_mismatch(p, k, 0);
    let m = mismatch_from(p, k, 0);
    if starts_with(k, p) {
        assert forall|j: int| 0 <= j < p.len() implies p[j] == k[j] by {
            assert(k.subrange(0, p.len() as int)[j] == k[j]);
        }
        lemma_mismatch_is(p, k, 0, p.len() as int);
        if p.len() == k.len() {
            assert(p =~= k);
        }
        match upper_spec(p) {
            Some(u) => {
                let n = u.len() - 1;
                assert forall|j: int| 0 <= j < n implies k[j] == u[j] by {}
                lemma_mismatch_is(k, u, 0, n);
            },
            None => {},
        }
    }
    if lex_le(p, k) && (upper_spec(p) matches Some(u) ==> lex_lt(k, u)) {
        if p == k {
            assert(k.subrange(0, p.len() as int) =~= p);
        } else {
            // p comes before k: they part at m, where p has ended or holds the lesser byte
            if m < p.len() {
                assert(p[m] < k[m]);
                match upper_spec(p) {
                    Some(u) => {
                        let n = u.len() - 1;
                        lemma_mismatch(k, u, 0);
                        let w = mismatch_from(k, u, 0);
                        if m < n {
                            // k is above u at m already
                            assert forall|j: int| 0 <= j < m implies k[j] == u[j] by {}
                            lemma_mismatch_is(k, u, 0, m);
                        } else if m == n {
                            assert forall|j: int| 0 <= j < m implies k[j] == u[j] by {}
                            lemma_mismatch_is(k, u, 0, if k[m] == u[m] {
                                m + 1
                            } else {
                                m
                            });
                        }
                    },
                    None => {},
                }
            } else {
                assert(k.subrange(0, p.len() as int) =~= p);
            }
        }
    }
}

/// Of two strings made of one start and eight bytes of time each, the one
/// with the lesser time comes first.
pub proof fn lemma_timed_keys(pin: Seq<u8>, a: Seq<u8>, b: Seq<u8>)
    requires
        a.len() == pin.len() + 8,
        b.len() == pin.len() + 8,
        starts_with(a, pin),
        starts_with(b, pin),
    ensures
        lex_lt(a, b) <==> be64_value(a.subrange(a.len() - 8, a.len() as int)) < be64_value(
            b.subrange(b.len() - 8, b.len() as int),
        ),
        a == b <==> be64_value(a.subrange(a.len() - 8, a.len() as int)) == be64_value(
            b.subrange(b.len() - 8, b.len() as int),
        ),
{
    let ta = a.subrange(a.len() - 8, a.len() as int);
    let tb = b.subrange(b.len() - 8, b.len() as int);
    lemma_be64_value_roundtrip(ta);
    lemma_be64_value_roundtrip(tb);
    assert(a =~= pin + ta);
    assert(b =~= pin + tb);
    lemma_lex_common_prefix(pin, ta, tb);
    lemma_be64_order(be64_value(ta) as u64, be64_value(tb) as u64);
    lemma_be64_injective(be64_value(ta) as u64, be64_value(tb) as u64);
}

} // verus!
