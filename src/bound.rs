//! Turning logical range bounds into the raw byte bounds of a store scan.
use vstd::prelude::*;
use vstd::slice::{slice_subrange, slice_to_vec};

use crate::error::StorageError;
use crate::order::{
    has_prefix, lemma_concat_eq, lemma_lex_asymmetric, lemma_lex_common_prefix, lemma_lex_lt_push,
    lemma_lex_successor, lemma_lex_total, lemma_lex_transitive, lemma_lt_not_le, lemma_prefix_le, lex_le, lex_lt,
};

verus! {

/// A bound on the encoded bytes of a key, relative to a namespace.
#[derive(Clone, Debug, PartialEq, Eq)]
pub enum RawBound {
    Inclusive(Vec<u8>),
    Exclusive(Vec<u8>),
}

/// The same length, with the trailing `0xFF` bytes zeroed and the byte before them incremented;
/// `None` when every byte is `0xFF` (including the empty string).
pub open spec fn incremented(s: Seq<u8>) -> Option<Seq<u8>>
    decreases s.len(),
{
    if s.len() == 0 {
        None
    } else if s.last() != 255 {
        Some(s.drop_last().push((s.last() + 1) as u8))
    } else {
        match incremented(s.drop_last()) {
            Some(t) => Some(t.push(0)),
            None => None,
        }
    }
}

/// `m` zero bytes appended to the incremented string, if there is one.
pub open spec fn with_zeros(o: Option<Seq<u8>>, m: nat) -> Option<Seq<u8>> {
    match o {
        Some(t) => Some(t + Seq::new(m, |i: int| 0u8)),
        None => None,
    }
}

/// The limit bytes followed by one zero byte: the least byte string above the limit.
pub fn extend_one_byte(limit: &[u8]) -> (r: Vec<u8>)
    ensures
        r@ == limit@.push(0),
{
    let mut v = slice_to_vec(limit);
    v.push(0);
    v
}

/// The namespace bytes followed by the key bytes.
pub fn concat(namespace: &[u8], key: &[u8]) -> (r: Vec<u8>)
    ensures
        r@ == namespace@ + key@,
{
    let mut k = slice_to_vec(namespace);
    let mut rest = slice_to_vec(key);
    k.append(&mut rest);
    k
}

/// The key with the namespace bytes cut off the front. A key shorter than the namespace is a
/// defect of the store.
pub fn trim(namespace: &[u8], key: &[u8]) -> (r: Result<Vec<u8>, StorageError>)
    ensures
        r matches Ok(v) ==> namespace@.len() <= key@.len() && v@ == key@.subrange(namespace@.len() as int, key@.len() as int),
        r matches Err(e) ==> key@.len() < namespace@.len() && e == StorageError::InvariantViolation,
{
    if key.len() < namespace.len() {
        return Err(StorageError::InvariantViolation);
    }
    Ok(slice_to_vec(slice_subrange(key, namespace.len(), key.len())))
}

/// Increments the last byte that is not `0xFF` and zeroes the ones after it. Fails when every
/// byte is `0xFF`, where no string of this length lies above the input.
pub fn increment_last_byte(input: &[u8]) -> (r: Option<Vec<u8>>)
    ensures
        r is Some <==> incremented(input@) is Some,
        r matches Some(v) ==> incremented(input@) == Some(v@),
{
    let n = input.len();
    let mut copy = slice_to_vec(input);
    let mut i: usize = n;
    proof {
        assert(input@.subrange(0, n as int) =~= input@);
        assert(copy@ =~= input@.subrange(0, n as int) + Seq::new(0, |j: int| 0u8));
        assert(with_zeros(incremented(input@), 0) == incremented(input@)) by {
            if let Some(t) = incremented(input@) {
                assert(t + Seq::new(0, |j: int| 0u8) =~= t);
            }
        }
    }
    while i > 0
        invariant
            0 <= i <= n,
            n == input@.len(),
            copy@ == input@.subrange(0, i as int) + Seq::new((n - i) as nat, |j: int| 0u8),
            incremented(input@) == with_zeros(incremented(input@.subrange(0, i as int)), (n - i) as nat),
        decreases i,
    {
        let ghost pre = input@.subrange(0, i as int);
        proof {
            assert(pre.drop_last() =~= input@.subrange(0, i - 1));
            assert(pre.last() == input@[i - 1]);
        }
        if copy[i - 1] == 255 {
            copy.set(i - 1, 0);
            proof {
                assert(copy@ =~= input@.subrange(0, i - 1) + Seq::new((n - i + 1) as nat, |j: int| 0u8));
                if let Some(t) = incremented(input@.subrange(0, i - 1)) {
                    assert(t.push(0) + Seq::new((n - i) as nat, |j: int| 0u8) =~= t + Seq::new((n - i + 1) as nat, |j: int| 0u8));
                }
            }
            i = i - 1;
        } else {
            let b = copy[i - 1];
            copy.set(i - 1, b + 1);
            proof {
                assert(copy@ =~= pre.drop_last().push((pre.last() + 1) as u8) + Seq::new((n - i) as nat, |j: int| 0u8));
            }
            return Some(copy);
        }
    }
    None
}

/// The raw start of a scan under `namespace`: the namespace itself when unbounded, the limit
/// when inclusive, and the least string above the limit when exclusive.
pub open spec fn start_bound(namespace: Seq<u8>, bound: Option<&RawBound>) -> Seq<u8> {
    match bound {
        None => namespace,
        Some(RawBound::Inclusive(l)) => namespace + l@,
        Some(RawBound::Exclusive(l)) => namespace + l@.push(0),
    }
}

pub fn calc_start_bound(namespace: &[u8], bound: Option<&RawBound>) -> (r: Vec<u8>)
    ensures
        r@ == start_bound(namespace@, bound),
{
    match bound {
        None => slice_to_vec(namespace),
        Some(RawBound::Inclusive(limit)) => concat(namespace, limit.as_slice()),
        Some(RawBound::Exclusive(limit)) => concat(namespace, extend_one_byte(limit.as_slice()).as_slice()),
    }
}

/// The raw end of a scan under `namespace`: the limit when exclusive, the least string above
/// the limit when inclusive. Unbounded, it is the incremented namespace, or no end at all when the
/// namespace is all `0xFF` bytes (every string at or above such a namespace starts with it).
pub open spec fn end_bound(namespace: Seq<u8>, bound: Option<&RawBound>) -> Option<Seq<u8>> {
    match bound {
        None => incremented(namespace),
        Some(RawBound::Exclusive(l)) => Some(namespace + l@),
        Some(RawBound::Inclusive(l)) => Some(namespace + l@.push(0)),
    }
}

pub fn calc_end_bound(namespace: &[u8], bound: Option<&RawBound>) -> (r: Option<Vec<u8>>)
    ensures
        match r {
            Some(v) => end_bound(namespace@, bound) == Some(v@),
            None => end_bound(namespace@, bound) is None,
        },
{
    match bound {
        None => increment_last_byte(namespace),
        Some(RawBound::Exclusive(limit)) => Some(concat(namespace, limit.as_slice())),
        Some(RawBound::Inclusive(limit)) => Some(concat(namespace, extend_one_byte(limit.as_slice()).as_slice())),
    }
}

/// The raw start of a scan over key prefixes: an exclusive prefix bound skips every key that
/// starts with the limit. `None` when that limit is all `0xFF` bytes.
pub open spec fn prefix_start_bound(namespace: Seq<u8>, bound: Option<&RawBound>) -> Option<Seq<u8>> {
    match bound {
        None => Some(namespace),
        Some(RawBound::Inclusive(l)) => Some(namespace + l@),
        Some(RawBound::Exclusive(l)) => match incremented(l@) {
            Some(t) => Some(namespace + t),
            None => None,
        },
    }
}

/// The raw end of a scan over key prefixes: an inclusive prefix bound takes in every key that
/// starts with the limit. Unbounded, it is the end of the namespace (`Some(None)`: no end at
/// all for an all-`0xFF` namespace). `None` when an inclusive limit is all `0xFF` bytes.
pub open spec fn prefix_end_bound(namespace: Seq<u8>, bound: Option<&RawBound>) -> Option<Option<Seq<u8>>> {
    match bound {
        None => Some(incremented(namespace)),
        Some(RawBound::Exclusive(l)) => Some(Some(namespace + l@)),
        Some(RawBound::Inclusive(l)) => match incremented(l@) {
            Some(t) => Some(Some(namespace + t)),
            None => None,
        },
    }
}

pub open spec fn opt_bytes(o: Option<Vec<u8>>) -> Option<Seq<u8>> {
    match o {
        Some(v) => Some(v@),
        None => None,
    }
}

/// The raw start of a scan over key prefixes; fails when an exclusive limit is all `0xFF`.
pub fn calc_prefix_start_bound(namespace: &[u8], bound: Option<&RawBound>) -> (r: Result<Vec<u8>, StorageError>)
    ensures
        r is Err <==> prefix_start_bound(namespace@, bound) is None,
        r matches Ok(v) ==> prefix_start_bound(namespace@, bound) == Some(v@),
        r matches Err(e) ==> e == StorageError::InvariantViolation,
{
    match bound {
        None => Ok(slice_to_vec(namespace)),
        Some(RawBound::Inclusive(limit)) => Ok(concat(namespace, limit.as_slice())),
        Some(RawBound::Exclusive(limit)) => match increment_last_byte(limit.as_slice()) {
            Some(v) => Ok(concat(namespace, v.as_slice())),
            None => Err(StorageError::InvariantViolation),
        },
    }
}

/// The raw end of a scan over key prefixes; fails when an inclusive limit is all `0xFF`.
pub fn calc_prefix_end_bound(namespace: &[u8], bound: Option<&RawBound>) -> (r: Result<Option<Vec<u8>>, StorageError>)
    ensures
        r is Err <==> prefix_end_bound(namespace@, bound) is None,
        r matches Ok(v) ==> prefix_end_bound(namespace@, bound) == Some(opt_bytes(v)),
        r matches Err(e) ==> e == StorageError::InvariantViolation,
{
    match bound {
        None => Ok(increment_last_byte(namespace)),
        Some(RawBound::Exclusive(limit)) => Ok(Some(concat(namespace, limit.as_slice()))),
        Some(RawBound::Inclusive(limit)) => match increment_last_byte(limit.as_slice()) {
            Some(v) => Ok(Some(concat(namespace, v.as_slice()))),
            None => Err(StorageError::InvariantViolation),
        },
    }
}

/// Where the last byte of `p` is not `0xFF`, the scan `[p, incremented(p))` covers exactly the
/// byte strings that start with `p`.
pub proof fn lemma_prefix_scan_exact(p: Seq<u8>, x: Seq<u8>)
    requires
        p.len() > 0,
        p.last() != 255,
    ensures
        incremented(p) is Some,
        (lex_le(p, x) && lex_lt(x, incremented(p).unwrap())) <==> has_prefix(x, p),
{
    let q = p.drop_last();
    let b = p.last();
    assert(p =~= q.push(b));
    assert(incremented(p).unwrap() == q.push((b + 1) as u8));
    lemma_lex_lt_push(x, q, (b + 1) as u8);
    lemma_lex_lt_push(x, q, b);
    assert(has_prefix(p, q)) by {
        assert(p.subrange(0, q.len() as int) =~= q);
    }
    lemma_prefix_le(p, q);
    assert(q != p);
    if has_prefix(x, p) {
        assert(x.subrange(0, q.len() as int) =~= x.subrange(0, p.len() as int).drop_last());
        assert(x[q.len() as int] == x.subrange(0, p.len() as int)[q.len() as int]);
        lemma_prefix_le(x, p);
    }
    if lex_le(p, x) && lex_lt(x, incremented(p).unwrap()) {
        lemma_lt_not_le(x, p);
        if lex_lt(x, q) {
            lemma_lex_transitive(x, q, p);
        }
        if x == q {
            lemma_lex_asymmetric(q, p);
        }
        assert(has_prefix(x, q));
        assert(x[q.len() as int] == b);
        assert(x.subrange(0, p.len() as int) =~= x.subrange(0, q.len() as int).push(x[q.len() as int]));
    }
}

/// Every byte string that starts with `p` lies below the incremented `p`.
pub proof fn lemma_increment_upper(p: Seq<u8>, x: Seq<u8>)
    requires
        incremented(p) is Some,
        has_prefix(x, p),
    ensures
        lex_lt(x, incremented(p).unwrap()),
    decreases p.len(),
{
    let q = p.drop_last();
    let b = p.last();
    assert(p =~= q.push(b));
    assert(x.subrange(0, q.len() as int) =~= x.subrange(0, p.len() as int).drop_last());
    assert(x[q.len() as int] == x.subrange(0, p.len() as int)[q.len() as int]);
    if b != 255 {
        lemma_lex_lt_push(x, q, (b + 1) as u8);
    } else {
        let t = incremented(q).unwrap();
        lemma_increment_upper(q, x);
        lemma_lex_successor(t, t.push(0));
        lemma_lt_not_le(t, t.push(0));
        lemma_lex_transitive(x, t, t.push(0));
    }
}

/// A byte string at or above an all-`0xFF` string starts with it.
pub proof fn lemma_all_ff_prefix(p: Seq<u8>, x: Seq<u8>)
    requires
        incremented(p) is None,
        lex_le(p, x),
    ensures
        has_prefix(x, p),
    decreases p.len(),
{
    if p.len() > 0 {
        assert(p.last() == 255);
        let q = p.drop_last();
        assert(p =~= q.push(255u8));
        lemma_lex_lt_push(x, q, 255u8);
        lemma_lt_not_le(x, p);
        if lex_lt(x, q) {
            assert(p.subrange(0, q.len() as int) =~= q);
            lemma_prefix_le(p, q);
            if q != p {
                lemma_lex_transitive(x, q, p);
            }
        }
        if lex_le(q, x) {
            lemma_all_ff_prefix(q, x);
        } else {
            lemma_lt_not_le(x, q);
        }
        if x != p {
            assert(has_prefix(x, q));
            if x.len() == q.len() {
                assert(x =~= x.subrange(0, q.len() as int));
            }
            assert(x.len() > q.len());
            assert(x[q.len() as int] == 255);
            assert(x.subrange(0, p.len() as int) =~= x.subrange(0, q.len() as int).push(x[q.len() as int]));
        } else {
            assert(x.subrange(0, p.len() as int) =~= p);
        }
    } else {
        assert(x.subrange(0, 0) =~= p);
    }
}

/// Incrementing keeps the length.
pub proof fn lemma_increment_len(s: Seq<u8>)
    requires
        incremented(s) is Some,
    ensures
        incremented(s).unwrap().len() == s.len(),
    decreases s.len(),
{
    if s.last() == 255 {
        lemma_increment_len(s.drop_last());
    }
}

/// A string at least as long as `p` that lies in the scan range `[p, incremented(p))` starts
/// with `p`.
pub proof fn lemma_range_long_prefix(p: Seq<u8>, x: Seq<u8>)
    requires
        incremented(p) is Some,
        lex_le(p, x),
        lex_lt(x, incremented(p).unwrap()),
        x.len() >= p.len(),
    ensures
        has_prefix(x, p),
    decreases p.len(),
{
    let q = p.drop_last();
    let b = p.last();
    assert(p =~= q.push(b));
    assert(p.subrange(0, q.len() as int) =~= q);
    lemma_prefix_le(p, q);
    lemma_lex_lt_push(x, q, b);
    lemma_lt_not_le(x, p);
    if b != 255 {
        lemma_prefix_scan_exact(p, x);
    } else {
        let t = incremented(q).unwrap();
        assert(incremented(p).unwrap() == t.push(0));
        lemma_lex_successor(t, x);
        lemma_lt_not_le(x, t.push(0));
        // x < t.push(0) means x <= t
        lemma_increment_len(q);
        if x == t {
            assert(false);
        }
        if lex_lt(x, q) {
            if q != p {
                lemma_lex_transitive(x, q, p);
            }
        }
        if x == q {
            assert(false);
        }
        lemma_lt_not_le(q, x);
        lemma_lex_total(x, t);
        lemma_range_long_prefix(q, x);
        assert(x.len() > q.len());
        assert(x[q.len() as int] == 255);
        assert(x.subrange(0, p.len() as int) =~= x.subrange(0, q.len() as int).push(x[q.len() as int]));
    }
}

/// Strings of one length compare as their first bytes do, whatever follows them.
pub proof fn lemma_lex_concat(u: Seq<u8>, s: Seq<u8>, w: Seq<u8>, t: Seq<u8>)
    requires
        u.len() == w.len(),
        lex_lt(u, w),
    ensures
        lex_lt(u + s, w + t),
    decreases u.len(),
{
    if u[0] == w[0] {
        assert((u + s).drop_first() =~= u.drop_first() + s);
        assert((w + t).drop_first() =~= w.drop_first() + t);
        lemma_lex_concat(u.drop_first(), s, w.drop_first(), t);
    }
}

/// Incrementing a big-endian number's bytes gives the bytes of the next number.
pub proof fn lemma_increment_be(v: nat, m: nat)
    requires
        v + 1 < crate::codec::pow256(m),
    ensures
        incremented(crate::codec::be_bytes(v, m)) == Some(crate::codec::be_bytes(v + 1, m)),
    decreases m,
{
    let q = crate::codec::pow256((m - 1) as nat);
    assert(m > 0) by {
        if m == 0 {
            assert(crate::codec::pow256(0) == 1);
        }
    }
    let s = crate::codec::be_bytes(v, m);
    assert(s.drop_last() == crate::codec::be_bytes(v / 256, (m - 1) as nat));
    assert(s.last() == (v % 256) as u8);
    if v % 256 != 255 {
        assert((v + 1) / 256 == v / 256 && (v + 1) % 256 == v % 256 + 1) by (nonlinear_arith)
            requires
                v % 256 != 255,
        ;
    } else {
        assert((v + 1) / 256 == v / 256 + 1 && (v + 1) % 256 == 0 && v / 256 + 1 < q) by (nonlinear_arith)
            requires
                v % 256 == 255,
                v + 1 < 256 * q,
        ;
        lemma_increment_be(v / 256, (m - 1) as nat);
    }
}

/// Incrementing `u + s` where `s` can be incremented leaves `u` alone.
pub proof fn lemma_increment_suffix(u: Seq<u8>, s: Seq<u8>)
    requires
        incremented(s) is Some,
    ensures
        incremented(u + s) == Some(u + incremented(s).unwrap()),
    decreases s.len(),
{
    let us = u + s;
    assert(us.drop_last() =~= u + s.drop_last());
    assert(us.last() == s.last());
    if s.last() == 255 {
        lemma_increment_suffix(u, s.drop_last());
        assert(u + incremented(s.drop_last()).unwrap().push(0) =~= (u + incremented(s.drop_last()).unwrap()).push(0));
    } else {
        assert((u + s.drop_last()).push((s.last() + 1) as u8) =~= u + s.drop_last().push((s.last() + 1) as u8));
    }
}

/// Incrementing `u + s` where `s` is all `0xFF` increments `u` and zeroes `s`.
pub proof fn lemma_increment_all_ff_suffix(u: Seq<u8>, s: Seq<u8>)
    requires
        incremented(s) is None,
    ensures
        incremented(u + s) == with_zeros(incremented(u), s.len()),
    decreases s.len(),
{
    if s.len() == 0 {
        assert(u + s =~= u);
        if let Some(t) = incremented(u) {
            assert(t + Seq::new(0, |i: int| 0u8) =~= t);
        }
    } else {
        let us = u + s;
        assert(us.drop_last() =~= u + s.drop_last());
        assert(us.last() == s.last());
        assert(s.last() == 255);
        lemma_increment_all_ff_suffix(u, s.drop_last());
        if let Some(t) = incremented(u) {
            assert((t + Seq::new((s.len() - 1) as nat, |i: int| 0u8)).push(0) =~= t + Seq::new(s.len(), |i: int| 0u8));
        }
    }
}

/// Every string of length at least `n` sorts at or after `n` zero bytes.
pub proof fn lemma_zeros_le(n: nat, x: Seq<u8>)
    requires
        x.len() >= n,
    ensures
        lex_le(Seq::new(n, |i: int| 0u8), x),
    decreases n,
{
    let z = Seq::new(n, |i: int| 0u8);
    if n == 0 {
        assert(z =~= Seq::<u8>::empty());
        if x.len() > 0 {
            assert(lex_lt(z, x));
        } else {
            assert(x =~= z);
        }
    } else if x[0] == 0 {
        lemma_zeros_le((n - 1) as nat, x.drop_first());
        assert(z.drop_first() =~= Seq::new((n - 1) as nat, |i: int| 0u8));
        if x.drop_first() == z.drop_first() {
            assert(x =~= seq![x[0]] + x.drop_first());
            assert(z =~= seq![z[0]] + z.drop_first());
        }
    }
}

/// Bounds on the suffix after a namespace: `namespace + x` is at or above the raw start exactly
/// when `x` meets the lower bound.
pub open spec fn meets_lower(x: Seq<u8>, bound: Option<RawBound>) -> bool {
    match bound {
        None => true,
        Some(RawBound::Inclusive(l)) => lex_le(l@, x),
        Some(RawBound::Exclusive(l)) => lex_lt(l@, x),
    }
}

/// `x` meets the upper bound.
pub open spec fn meets_upper(x: Seq<u8>, bound: Option<RawBound>) -> bool {
    match bound {
        None => true,
        Some(RawBound::Inclusive(l)) => lex_le(x, l@),
        Some(RawBound::Exclusive(l)) => lex_lt(x, l@),
    }
}

/// For keys under the namespace, the raw start admits exactly the suffixes that meet the lower
/// bound, and the raw end of a bounded scan admits exactly those that meet the upper bound.
pub proof fn lemma_bounds_exact(ns: Seq<u8>, x: Seq<u8>, lower: Option<RawBound>, upper: Option<RawBound>)
    ensures
        lex_le(
            match lower {
                None => ns,
                Some(RawBound::Inclusive(l)) => ns + l@,
                Some(RawBound::Exclusive(l)) => ns + l@.push(0),
            },
            ns + x,
        ) <==> meets_lower(x, lower),
        upper is Some ==> (lex_lt(
            ns + x,
            match upper {
                None => ns,
                Some(RawBound::Exclusive(l)) => ns + l@,
                Some(RawBound::Inclusive(l)) => ns + l@.push(0),
            },
        ) <==> meets_upper(x, upper)),
{
    match lower {
        None => {
            assert(ns + Seq::<u8>::empty() =~= ns);
            lemma_lex_common_prefix(ns, Seq::<u8>::empty(), x);
            lemma_concat_eq(ns, Seq::<u8>::empty(), x);
            if x.len() > 0 {
                assert(lex_lt(Seq::<u8>::empty(), x));
            } else {
                assert(x =~= Seq::<u8>::empty());
            }
        },
        Some(RawBound::Inclusive(l)) => {
            lemma_lex_common_prefix(ns, l@, x);
            lemma_concat_eq(ns, l@, x);
        },
        Some(RawBound::Exclusive(l)) => {
            lemma_lex_common_prefix(ns, l@.push(0), x);
            lemma_concat_eq(ns, l@.push(0), x);
            lemma_lex_successor(l@, x);
        },
    }
    match upper {
        None => {},
        Some(RawBound::Exclusive(l)) => {
            lemma_lex_common_prefix(ns, x, l@);
        },
        Some(RawBound::Inclusive(l)) => {
            lemma_lex_common_prefix(ns, x, l@.push(0));
            lemma_lex_successor(l@, x);
            lemma_lt_not_le(x, l@.push(0));
            lemma_lt_not_le(l@, x);
        },
    }
}

} // verus!
