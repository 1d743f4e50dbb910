//! Order-preserving encoding of key atoms and the length-prefixed layout of composite keys.
use vstd::prelude::*;
use vstd::slice::{slice_subrange, slice_to_vec};
use vstd::utf8::{decode_utf8, encode_utf8, encode_utf8_decode_utf8, encode_utf8_valid_utf8, valid_utf8};

use crate::error::StorageError;
use crate::order::{lemma_bytes_deep_view, lemma_lex_asymmetric, lemma_lex_irreflexive, lemma_lex_push, lex_lt};

verus! {

broadcast use lemma_bytes_deep_view;

/// `256^n`, the number of distinct `n`-byte strings.
pub open spec fn pow256(n: nat) -> nat
    decreases n,
{
    if n == 0 {
        1
    } else {
        256 * pow256((n - 1) as nat)
    }
}

/// The `n`-byte big-endian representation of `v` (its low `n` bytes).
pub open spec fn be_bytes(v: nat, n: nat) -> Seq<u8>
    decreases n,
{
    if n == 0 {
        seq![]
    } else {
        be_bytes(v / 256, (n - 1) as nat).push((v % 256) as u8)
    }
}

/// The number whose big-endian representation is `s`.
pub open spec fn be_value(s: Seq<u8>) -> nat
    decreases s.len(),
{
    if s.len() == 0 {
        0
    } else {
        (be_value(s.drop_last()) * 256 + s.last()) as nat
    }
}

/// Half of the `n`-byte range: the offset that moves a signed value onto the unsigned range.
pub open spec fn sign_offset(n: nat) -> nat {
    pow256(n) / 2
}

/// A signed value encoded on `n` bytes: its two's complement with the sign bit flipped,
/// which is the big-endian representation of `v + 2^(8n-1)`.
pub open spec fn signed_bytes(v: int, n: nat) -> Seq<u8> {
    be_bytes((v + sign_offset(n)) as nat, n)
}

/// The signed value that `s` encodes.
pub open spec fn signed_value(s: Seq<u8>) -> int {
    be_value(s) - sign_offset(s.len())
}

/// An atom preceded by its length as a 2-byte big-endian number.
pub open spec fn length_prefixed(a: Seq<u8>) -> Seq<u8> {
    be_bytes(a.len(), 2) + a
}

/// Each component length-prefixed, concatenated in order.
pub open spec fn nested_prefix(ns: Seq<Seq<u8>>) -> Seq<u8>
    decreases ns.len(),
{
    if ns.len() == 0 {
        seq![]
    } else {
        length_prefixed(ns[0]) + nested_prefix(ns.drop_first())
    }
}

/// Every component fits a 2-byte length header.
pub open spec fn prefixable(ns: Seq<Seq<u8>>) -> bool {
    forall|i: int| 0 <= i < ns.len() ==> #[trigger] ns[i].len() < 65536
}

/// A composite key: every atom but the last length-prefixed, the last appended as it is.
pub open spec fn joined(atoms: Seq<Seq<u8>>) -> Seq<u8>
    decreases atoms.len(),
{
    if atoms.len() == 0 {
        seq![]
    } else if atoms.len() == 1 {
        atoms[0]
    } else {
        length_prefixed(atoms[0]) + joined(atoms.drop_first())
    }
}

/// The atoms of a composite key can be joined: all but the last fit a length header.
pub open spec fn joinable(atoms: Seq<Seq<u8>>) -> bool {
    forall|i: int| 0 <= i < atoms.len() - 1 ==> #[trigger] atoms[i].len() < 65536
}

/// Reads `k` length-prefixed chunks off the front of `v`. The first part keeps the length
/// headers of all chunks but the last one read; the remainder is what follows.
pub open spec fn split_first(k: nat, v: Seq<u8>) -> Option<(Seq<u8>, Seq<u8>)>
    decreases k,
{
    if k == 0 {
        Some((seq![], v))
    } else if v.len() < 2 {
        None
    } else {
        let l = be_value(v.subrange(0, 2)) as int;
        if v.len() < 2 + l {
            None
        } else if k == 1 {
            Some((v.subrange(2, 2 + l), v.subrange(2 + l, v.len() as int)))
        } else {
            match split_first((k - 1) as nat, v.subrange(2 + l, v.len() as int)) {
                Some(p) => Some((v.subrange(0, 2 + l) + p.0, p.1)),
                None => None,
            }
        }
    }
}

/// The `n` atoms of a composite key: `n - 1` length-prefixed ones, then the rest.
pub open spec fn split_atoms(n: nat, v: Seq<u8>) -> Option<Seq<Seq<u8>>>
    decreases n,
{
    if n == 0 {
        Some(seq![])
    } else if n == 1 {
        Some(seq![v])
    } else {
        match split_first(1, v) {
            Some(p) => match split_atoms((n - 1) as nat, p.1) {
                Some(rest) => Some(seq![p.0] + rest),
                None => None,
            },
            None => None,
        }
    }
}

pub proof fn lemma_pow256_values()
    ensures
        pow256(1) == 256,
        pow256(2) == 65536,
        pow256(4) == 4294967296,
        pow256(8) == 18446744073709551616,
        pow256(15) == 1329227995784915872903807060280344576,
        pow256(16) == 340282366920938463463374607431768211456,
{
    reveal_with_fuel(pow256, 17);
}

pub proof fn lemma_pow256_monotone(a: nat, b: nat)
    requires
        a <= b,
    ensures
        pow256(a) <= pow256(b),
    decreases b,
{
    if a < b {
        lemma_pow256_monotone(a, (b - 1) as nat);
    }
}

pub proof fn lemma_be_bytes_len(v: nat, n: nat)
    ensures
        be_bytes(v, n).len() == n,
    decreases n,
{
    if n > 0 {
        lemma_be_bytes_len(v / 256, (n - 1) as nat);
    }
}

pub proof fn lemma_be_value_bound(s: Seq<u8>)
    ensures
        be_value(s) < pow256(s.len()),
    decreases s.len(),
{
    if s.len() > 0 {
        let p = be_value(s.drop_last());
        let q = pow256((s.len() - 1) as nat);
        lemma_be_value_bound(s.drop_last());
        assert(p * 256 + s.last() < 256 * q) by (nonlinear_arith)
            requires
                p < q,
                s.last() < 256,
        ;
    }
}

/// Decoding an encoding gives the number back.
pub proof fn lemma_be_value_of_bytes(v: nat, n: nat)
    requires
        v < pow256(n),
    ensures
        be_value(be_bytes(v, n)) == v,
        be_bytes(v, n).len() == n,
    decreases n,
{
    lemma_be_bytes_len(v, n);
    if n > 0 {
        let q = pow256((n - 1) as nat);
        assert(v / 256 < q) by (nonlinear_arith)
            requires
                v < 256 * q,
        ;
        lemma_be_value_of_bytes(v / 256, (n - 1) as nat);
        let s = be_bytes(v, n);
        assert(s.drop_last() =~= be_bytes(v / 256, (n - 1) as nat));
        assert((v / 256) * 256 + v % 256 == v) by (nonlinear_arith);
    }
}

/// Encoding a decoded byte string gives the byte string back.
pub proof fn lemma_be_bytes_of_value(s: Seq<u8>)
    ensures
        be_bytes(be_value(s), s.len()) == s,
    decreases s.len(),
{
    if s.len() > 0 {
        let p = be_value(s.drop_last());
        let x = s.last() as nat;
        lemma_be_bytes_of_value(s.drop_last());
        assert((p * 256 + x) / 256 == p && (p * 256 + x) % 256 == x) by (nonlinear_arith)
            requires
                x < 256,
        ;
        assert(s =~= s.drop_last().push(s.last()));
    }
}

/// Numeric order on `n`-byte numbers is the byte order of their encodings.
pub proof fn lemma_be_order(v: nat, w: nat, n: nat)
    requires
        v < w,
        w < pow256(n),
    ensures
        lex_lt(be_bytes(v, n), be_bytes(w, n)),
    decreases n,
{
    if n == 0 {
        assert(false);
    } else {
        let q = pow256((n - 1) as nat);
        assert(v / 256 <= w / 256 && w / 256 < q) by (nonlinear_arith)
            requires
                v < w,
                w < 256 * q,
        ;
        lemma_be_bytes_len(v / 256, (n - 1) as nat);
        lemma_be_bytes_len(w / 256, (n - 1) as nat);
        lemma_lex_push(be_bytes(v / 256, (n - 1) as nat), be_bytes(w / 256, (n - 1) as nat), (v % 256) as u8, (w % 256) as u8);
        if v / 256 < w / 256 {
            lemma_be_order(v / 256, w / 256, (n - 1) as nat);
        } else {
            assert(v % 256 < w % 256) by (nonlinear_arith)
                requires
                    v < w,
                    v / 256 == w / 256,
            ;
        }
    }
}

/// Round trip of the unsigned integer codec: decoding the encoding of `v` gives `v`.
pub proof fn lemma_unsigned_round_trip(v: nat, n: nat)
    requires
        v < pow256(n),
    ensures
        be_bytes(v, n).len() == n,
        be_value(be_bytes(v, n)) == v,
{
    lemma_be_value_of_bytes(v, n);
}

/// Order preservation of the unsigned integer codec.
pub proof fn lemma_unsigned_order(v: nat, w: nat, n: nat)
    requires
        v < pow256(n),
        w < pow256(n),
    ensures
        v < w <==> lex_lt(be_bytes(v, n), be_bytes(w, n)),
{
    if v < w {
        lemma_be_order(v, w, n);
    } else if w < v {
        lemma_be_order(w, v, n);
        lemma_lex_asymmetric(be_bytes(v, n), be_bytes(w, n));
    } else {
        lemma_lex_irreflexive(be_bytes(v, n));
    }
}

/// Round trip of the signed integer codec: decoding the encoding of `v` gives `v`.
pub proof fn lemma_signed_round_trip(v: int, n: nat)
    requires
        -sign_offset(n) <= v < sign_offset(n),
    ensures
        signed_bytes(v, n).len() == n,
        signed_value(signed_bytes(v, n)) == v,
{
    lemma_be_value_of_bytes((v + sign_offset(n)) as nat, n);
}

/// Order preservation of the signed integer codec: the sign-bit flip keeps numeric order.
pub proof fn lemma_signed_order(v: int, w: int, n: nat)
    requires
        -sign_offset(n) <= v < sign_offset(n),
        -sign_offset(n) <= w < sign_offset(n),
    ensures
        v < w <==> lex_lt(signed_bytes(v, n), signed_bytes(w, n)),
{
    lemma_unsigned_order((v + sign_offset(n)) as nat, (w + sign_offset(n)) as nat, n);
}

/// Round trip of the text codec: the UTF-8 bytes of a string decode to that string.
pub proof fn lemma_text_round_trip(s: Seq<char>)
    ensures
        valid_utf8(encode_utf8(s)),
        decode_utf8(encode_utf8(s)) == s,
{
    encode_utf8_valid_utf8(s);
    encode_utf8_decode_utf8(s);
}

proof fn lemma_be_value_two(s: Seq<u8>)
    requires
        s.len() == 2,
    ensures
        be_value(s) == s[0] * 256 + s[1],
{
    assert(s.drop_last().drop_last() =~= Seq::<u8>::empty());
    reveal_with_fuel(be_value, 3);
}

/// `joined` written as the nested prefix of all atoms but the last, then the last.
pub proof fn lemma_joined_nested(atoms: Seq<Seq<u8>>)
    requires
        atoms.len() >= 1,
    ensures
        joined(atoms) == nested_prefix(atoms.drop_last()) + atoms.last(),
    decreases atoms.len(),
{
    if atoms.len() == 1 {
        assert(atoms.drop_last() =~= Seq::<Seq<u8>>::empty());
        assert(nested_prefix(atoms.drop_last()) + atoms.last() =~= atoms[0]);
    } else {
        let rest = atoms.drop_first();
        lemma_joined_nested(rest);
        assert(atoms.drop_last().drop_first() =~= rest.drop_last());
        assert(atoms.drop_last()[0] == atoms[0]);
        assert(rest.last() == atoms.last());
        assert(length_prefixed(atoms[0]) + (nested_prefix(rest.drop_last()) + rest.last())
            =~= (length_prefixed(atoms[0]) + nested_prefix(rest.drop_last())) + rest.last());
    }
}

/// Reading one chunk off a length-prefixed atom followed by anything.
pub proof fn lemma_split_first_prefixed(a: Seq<u8>, rest: Seq<u8>)
    requires
        a.len() < 65536,
    ensures
        split_first(1, length_prefixed(a) + rest) == Some((a, rest)),
{
    let v = length_prefixed(a) + rest;
    lemma_pow256_values();
    lemma_be_value_of_bytes(a.len(), 2);
    assert(v.subrange(0, 2) =~= be_bytes(a.len(), 2));
    assert(v.subrange(2, 2 + a.len() as int) =~= a);
    assert(v.subrange(2 + a.len() as int, v.len() as int) =~= rest);
}

/// Splitting a joined composite key gives back its atoms.
pub proof fn lemma_split_joined(atoms: Seq<Seq<u8>>)
    requires
        joinable(atoms),
    ensures
        split_atoms(atoms.len(), joined(atoms)) == Some(atoms),
    decreases atoms.len(),
{
    if atoms.len() == 0 {
    } else if atoms.len() == 1 {
        assert(seq![atoms[0]] =~= atoms);
    } else {
        let rest = atoms.drop_first();
        assert(atoms[0].len() < 65536);
        assert(joinable(rest)) by {
            assert forall|i: int| 0 <= i < rest.len() - 1 implies #[trigger] rest[i].len() < 65536 by {
                assert(rest[i] == atoms[i + 1]);
            }
        }
        lemma_split_first_prefixed(atoms[0], joined(rest));
        lemma_split_joined(rest);
        assert(seq![atoms[0]] + rest =~= atoms);
    }
}

/// Big-endian encoding of the low `n` bytes of `v`.
fn encode_uint(v: u128, n: usize) -> (r: Vec<u8>)
    requires
        n <= 16,
        v < pow256(n as nat),
    ensures
        r@ == be_bytes(v as nat, n as nat),
    decreases n,
{
    if n == 0 {
        Vec::new()
    } else {
        proof {
            let q = pow256((n - 1) as nat);
            assert(v / 256 < q) by (nonlinear_arith)
                requires
                    v < 256 * q,
            ;
        }
        let mut r = encode_uint(v / 256, n - 1);
        r.push((v % 256) as u8);
        r
    }
}

/// The number whose big-endian representation is `b`.
fn decode_uint(b: &[u8]) -> (r: u128)
    requires
        b@.len() <= 16,
    ensures
        r as nat == be_value(b@),
{
    let mut acc: u128 = 0;
    let mut i: usize = 0;
    proof {
        lemma_pow256_values();
    }
    while i < b.len()
        invariant
            0 <= i <= b@.len() <= 16,
            acc as nat == be_value(b@.subrange(0, i as int)),
            acc < pow256(i as nat),
            pow256(15) == 1329227995784915872903807060280344576,
        decreases b.len() - i,
    {
        proof {
            lemma_pow256_monotone(i as nat, 15);
            assert(b@.subrange(0, i + 1).drop_last() =~= b@.subrange(0, i as int));
            lemma_be_value_bound(b@.subrange(0, i + 1));
        }
        let x = b[i];
        proof {
            assert(acc * 256 + x < 340282366920938463463374607431768211456) by (nonlinear_arith)
                requires
                    acc < 1329227995784915872903807060280344576,
                    x < 256,
            ;
        }
        acc = acc * 256 + x as u128;
        i = i + 1;
    }
    assert(b@.subrange(0, b@.len() as int) =~= b@);
    acc
}

/// Encodes an unsigned 8-bit key.
pub fn encode_u8(v: u8) -> (r: Vec<u8>)
    ensures
        r@ == be_bytes(v as nat, 1),
{
    proof { lemma_pow256_values(); }
    encode_uint(v as u128, 1)
}

/// Encodes an unsigned 16-bit key, big-endian.
pub fn encode_u16(v: u16) -> (r: Vec<u8>)
    ensures
        r@ == be_bytes(v as nat, 2),
{
    proof { lemma_pow256_values(); }
    encode_uint(v as u128, 2)
}

/// Encodes an unsigned 32-bit key, big-endian.
pub fn encode_u32(v: u32) -> (r: Vec<u8>)
    ensures
        r@ == be_bytes(v as nat, 4),
{
    proof { lemma_pow256_values(); }
    encode_uint(v as u128, 4)
}

/// Encodes an unsigned 64-bit key, big-endian.
pub fn encode_u64(v: u64) -> (r: Vec<u8>)
    ensures
        r@ == be_bytes(v as nat, 8),
{
    proof { lemma_pow256_values(); }
    encode_uint(v as u128, 8)
}

/// Encodes an unsigned 128-bit key, big-endian.
pub fn encode_u128(v: u128) -> (r: Vec<u8>)
    ensures
        r@ == be_bytes(v as nat, 16),
{
    proof { lemma_pow256_values(); }
    encode_uint(v, 16)
}

/// Encodes a signed 8-bit key with its sign bit flipped.
pub fn encode_i8(v: i8) -> (r: Vec<u8>)
    ensures
        r@ == signed_bytes(v as int, 1),
{
    proof { lemma_pow256_values(); }
    encode_uint((v as i16 + 128) as u128, 1)
}

/// Encodes a signed 16-bit key with its sign bit flipped.
pub fn encode_i16(v: i16) -> (r: Vec<u8>)
    ensures
        r@ == signed_bytes(v as int, 2),
{
    proof { lemma_pow256_values(); }
    encode_uint((v as i32 + 32768) as u128, 2)
}

/// Encodes a signed 32-bit key with its sign bit flipped.
pub fn encode_i32(v: i32) -> (r: Vec<u8>)
    ensures
        r@ == signed_bytes(v as int, 4),
{
    proof { lemma_pow256_values(); }
    encode_uint((v as i64 + 2147483648) as u128, 4)
}

/// Encodes a signed 64-bit key with its sign bit flipped.
pub fn encode_i64(v: i64) -> (r: Vec<u8>)
    ensures
        r@ == signed_bytes(v as int, 8),
{
    proof { lemma_pow256_values(); }
    encode_uint((v as i128 + 9223372036854775808) as u128, 8)
}

/// Encodes a signed 128-bit key with its sign bit flipped.
pub fn encode_i128(v: i128) -> (r: Vec<u8>)
    ensures
        r@ == signed_bytes(v as int, 16),
{
    proof { lemma_pow256_values(); }
    let u: u128 = if v < 0 {
        (v + 170141183460469231731687303715884105727 + 1) as u128
    } else {
        v as u128 + 170141183460469231731687303715884105728
    };
    encode_uint(u, 16)
}

/// Decodes an unsigned 8-bit key; the bytes must be exactly one.
pub fn decode_u8(b: &[u8]) -> (r: Result<u8, StorageError>)
    ensures
        r == (if b@.len() == 1 { Ok(be_value(b@) as u8) } else { Err(StorageError::Decode) }),
{
    if b.len() != 1 {
        return Err(StorageError::Decode);
    }
    proof { lemma_pow256_values(); lemma_be_value_bound(b@); }
    Ok(decode_uint(b) as u8)
}

/// Decodes an unsigned 16-bit key; the bytes must be exactly two.
pub fn decode_u16(b: &[u8]) -> (r: Result<u16, StorageError>)
    ensures
        r == (if b@.len() == 2 { Ok(be_value(b@) as u16) } else { Err(StorageError::Decode) }),
{
    if b.len() != 2 {
        return Err(StorageError::Decode);
    }
    proof { lemma_pow256_values(); lemma_be_value_bound(b@); }
    Ok(decode_uint(b) as u16)
}

/// Decodes an unsigned 32-bit key; the bytes must be exactly four.
pub fn decode_u32(b: &[u8]) -> (r: Result<u32, StorageError>)
    ensures
        r == (if b@.len() == 4 { Ok(be_value(b@) as u32) } else { Err(StorageError::Decode) }),
{
    if b.len() != 4 {
        return Err(StorageError::Decode);
    }
    proof { lemma_pow256_values(); lemma_be_value_bound(b@); }
    Ok(decode_uint(b) as u32)
}

/// Decodes an unsigned 64-bit key; the bytes must be exactly eight.
pub fn decode_u64(b: &[u8]) -> (r: Result<u64, StorageError>)
    ensures
        r == (if b@.len() == 8 { Ok(be_value(b@) as u64) } else { Err(StorageError::Decode) }),
{
    if b.len() != 8 {
        return Err(StorageError::Decode);
    }
    proof { lemma_pow256_values(); lemma_be_value_bound(b@); }
    Ok(decode_uint(b) as u64)
}

/// Decodes an unsigned 128-bit key; the bytes must be exactly sixteen.
pub fn decode_u128(b: &[u8]) -> (r: Result<u128, StorageError>)
    ensures
        r == (if b@.len() == 16 { Ok(be_value(b@) as u128) } else { Err(StorageError::Decode) }),
{
    if b.len() != 16 {
        return Err(StorageError::Decode);
    }
    Ok(decode_uint(b))
}

/// Decodes a signed 8-bit key; the bytes must be exactly one.
pub fn decode_i8(b: &[u8]) -> (r: Result<i8, StorageError>)
    ensures
        r == (if b@.len() == 1 { Ok(signed_value(b@) as i8) } else { Err(StorageError::Decode) }),
{
    if b.len() != 1 {
        return Err(StorageError::Decode);
    }
    proof { lemma_pow256_values(); lemma_be_value_bound(b@); }
    Ok((decode_uint(b) as i16 - 128) as i8)
}

/// Decodes a signed 16-bit key; the bytes must be exactly two.
pub fn decode_i16(b: &[u8]) -> (r: Result<i16, StorageError>)
    ensures
        r == (if b@.len() == 2 { Ok(signed_value(b@) as i16) } else { Err(StorageError::Decode) }),
{
    if b.len() != 2 {
        return Err(StorageError::Decode);
    }
    proof { lemma_pow256_values(); lemma_be_value_bound(b@); }
    Ok((decode_uint(b) as i32 - 32768) as i16)
}

/// Decodes a signed 32-bit key; the bytes must be exactly four.
pub fn decode_i32(b: &[u8]) -> (r: Result<i32, StorageError>)
    ensures
        r == (if b@.len() == 4 { Ok(signed_value(b@) as i32) } else { Err(StorageError::Decode) }),
{
    if b.len() != 4 {
        return Err(StorageError::Decode);
    }
    proof { lemma_pow256_values(); lemma_be_value_bound(b@); }
    Ok((decode_uint(b) as i64 - 2147483648) as i32)
}

/// Decodes a signed 64-bit key; the bytes must be exactly eight.
pub fn decode_i64(b: &[u8]) -> (r: Result<i64, StorageError>)
    ensures
        r == (if b@.len() == 8 { Ok(signed_value(b@) as i64) } else { Err(StorageError::Decode) }),
{
    if b.len() != 8 {
        return Err(StorageError::Decode);
    }
    proof { lemma_pow256_values(); lemma_be_value_bound(b@); }
    Ok((decode_uint(b) as i128 - 9223372036854775808) as i64)
}

/// Decodes a signed 128-bit key; the bytes must be exactly sixteen.
pub fn decode_i128(b: &[u8]) -> (r: Result<i128, StorageError>)
    ensures
        r == (if b@.len() == 16 { Ok(signed_value(b@) as i128) } else { Err(StorageError::Decode) }),
{
    if b.len() != 16 {
        return Err(StorageError::Decode);
    }
    proof { lemma_pow256_values(); lemma_be_value_bound(b@); }
    let u = decode_uint(b);
    if u >= 170141183460469231731687303715884105728 {
        Ok((u - 170141183460469231731687303715884105728) as i128)
    } else {
        Ok((u as i128 - 170141183460469231731687303715884105727) - 1)
    }
}

/// Encodes a text key as its UTF-8 bytes.
pub fn encode_text(s: &str) -> (r: Vec<u8>)
    ensures
        r@ == encode_utf8(s@),
{
    slice_to_vec(s.as_bytes())
}

/// Relies on `String::from_utf8`: it succeeds exactly on valid UTF-8 and yields the
/// characters that the bytes encode.
#[verifier::external_body]
fn utf8_to_string(b: &[u8]) -> (r: Option<String>)
    ensures
        r is Some <==> valid_utf8(b@),
        r matches Some(s) ==> s@ == decode_utf8(b@),
{
    String::from_utf8(b.to_vec()).ok()
}

/// Decodes a text key; fails on bytes that are not valid UTF-8.
pub fn decode_text(b: &[u8]) -> (r: Result<String, StorageError>)
    ensures
        r is Ok <==> valid_utf8(b@),
        r matches Ok(s) ==> s@ == decode_utf8(b@),
        r matches Err(e) ==> e == StorageError::Decode,
{
    match utf8_to_string(b) {
        Some(s) => Ok(s),
        None => Err(StorageError::Decode),
    }
}

/// Decodes a fixed-width byte-array key of `n` bytes; the width must match.
pub fn decode_fixed(b: &[u8], n: usize) -> (r: Result<Vec<u8>, StorageError>)
    ensures
        r is Ok <==> b@.len() == n,
        r matches Ok(v) ==> v@ == b@,
        r matches Err(e) ==> e == StorageError::Decode,
{
    if b.len() != n {
        return Err(StorageError::Decode);
    }
    Ok(slice_to_vec(b))
}

/// Relies on `cosmwasm_std::storage_keys::namespace_with_key`: each namespace component
/// length-prefixed with 2 big-endian bytes, then the key appended. It panics on a component
/// longer than 0xFFFF bytes.
#[verifier::external_body]
pub(crate) fn namespace_with_key(namespace: &Vec<Vec<u8>>, key: &[u8]) -> (r: Vec<u8>)
    requires
        prefixable(namespace.deep_view()),
    ensures
        r@ == nested_prefix(namespace.deep_view()) + key@,
{
    let parts: Vec<&[u8]> = namespace.iter().map(|c| c.as_slice()).collect();
    cosmwasm_std::storage_keys::namespace_with_key(&parts, key)
}

/// Relies on `cosmwasm_std::storage_keys::to_length_prefixed_nested`: each component
/// length-prefixed with 2 big-endian bytes, concatenated. It panics on a component longer
/// than 0xFFFF bytes.
#[verifier::external_body]
pub(crate) fn to_length_prefixed_nested(namespace: &Vec<Vec<u8>>) -> (r: Vec<u8>)
    requires
        prefixable(namespace.deep_view()),
    ensures
        r@ == nested_prefix(namespace.deep_view()),
{
    let parts: Vec<&[u8]> = namespace.iter().map(|c| c.as_slice()).collect();
    cosmwasm_std::storage_keys::to_length_prefixed_nested(&parts)
}

/// Joins the atoms of a composite key: every atom but the last length-prefixed.
pub fn join_key(atoms: &Vec<Vec<u8>>) -> (r: Vec<u8>)
    requires
        atoms@.len() >= 1,
        joinable(atoms.deep_view()),
    ensures
        r@ == joined(atoms.deep_view()),
{
    let n = atoms.len();
    let mut head: Vec<Vec<u8>> = Vec::new();
    let mut i: usize = 0;
    while i < n - 1
        invariant
            n == atoms@.len(),
            n >= 1,
            0 <= i <= n - 1,
            head@.len() == i,
            head.deep_view() =~= atoms.deep_view().subrange(0, i as int),
        decreases n - 1 - i,
    {
        let atom = slice_to_vec(atoms[i].as_slice());
        proof {
            assert(atom.deep_view() == atoms@[i as int].deep_view());
        }
        let ghost before = head@;
        let ghost before_dv = head.deep_view();
        head.push(atom);
        proof {
            assert forall|j: int| 0 <= j < i + 1 implies #[trigger] head.deep_view()[j] == atoms.deep_view()[j] by {
                if j < i {
                    assert(head@[j] == before[j]);
                    assert(before_dv[j] == before[j].deep_view());
                    assert(before_dv[j] == atoms.deep_view()[j]);
                } else {
                    assert(head@[j] == atom);
                }
            }
            assert(head.deep_view() =~= atoms.deep_view().subrange(0, i + 1));
        }
        i = i + 1;
    }
    proof {
        let av = atoms.deep_view();
        assert(av.drop_last() =~= av.subrange(0, n - 1));
        assert(prefixable(head.deep_view())) by {
            assert forall|j: int| 0 <= j < head.deep_view().len() implies #[trigger] head.deep_view()[j].len() < 65536 by {
                assert(head.deep_view()[j] == av[j]);
            }
        }
        lemma_joined_nested(av);
    }
    namespace_with_key(&head, atoms[n - 1].as_slice())
}

/// Splits off the first `key_elems` length-prefixed chunks of `value`; the first part keeps
/// the length headers of all chunks but the last. Fails when a header claims more bytes than
/// remain.
pub fn split_first_key(key_elems: u16, value: &[u8]) -> (r: Result<(Vec<u8>, Vec<u8>), StorageError>)
    ensures
        r matches Ok(p) ==> split_first(key_elems as nat, value@) == Some((p.0@, p.1@)),
        r matches Err(e) ==> split_first(key_elems as nat, value@) is None && e == StorageError::Decode,
    decreases key_elems,
{
    if key_elems == 0 {
        return Ok((Vec::new(), slice_to_vec(value)));
    }
    if value.len() < 2 {
        return Err(StorageError::Decode);
    }
    let l = value[0] as usize * 256 + value[1] as usize;
    proof {
        lemma_be_value_two(value@.subrange(0, 2));
    }
    if value.len() - 2 < l {
        return Err(StorageError::Decode);
    }
    let chunk = slice_subrange(value, 2, 2 + l);
    let rest = slice_subrange(value, 2 + l, value.len());
    if key_elems == 1 {
        return Ok((slice_to_vec(chunk), slice_to_vec(rest)));
    }
    match split_first_key(key_elems - 1, rest) {
        Ok((f, r)) => {
            let mut first = slice_to_vec(slice_subrange(value, 0, 2 + l));
            let mut tail = f;
            first.append(&mut tail);
            Ok((first, r))
        },
        Err(e) => Err(e),
    }
}

/// Splits a composite key into its `n` atoms: `n - 1` length-prefixed ones, then the rest.
pub fn split_key(n: usize, value: &[u8]) -> (r: Result<Vec<Vec<u8>>, StorageError>)
    ensures
        r matches Ok(atoms) ==> split_atoms(n as nat, value@) == Some(atoms.deep_view()),
        r matches Err(e) ==> split_atoms(n as nat, value@) is None && e == StorageError::Decode,
    decreases n,
{
    if n == 0 {
        let empty: Vec<Vec<u8>> = Vec::new();
        proof { assert(empty.deep_view() =~= Seq::<Seq<u8>>::empty()); }
        return Ok(empty);
    }
    if n == 1 {
        let mut one: Vec<Vec<u8>> = Vec::new();
        one.push(slice_to_vec(value));
        proof { assert(one.deep_view() =~= seq![value@]); }
        return Ok(one);
    }
    match split_first_key(1, value) {
        Ok((first, rest)) => match split_key(n - 1, rest.as_slice()) {
            Ok(tail) => {
                let mut atoms: Vec<Vec<u8>> = Vec::new();
                atoms.push(first);
                let mut tail = tail;
                let ghost t = tail.deep_view();
                atoms.append(&mut tail);
                proof {
                    assert(atoms.deep_view() =~= seq![first@] + t);
                }
                Ok(atoms)
            },
            Err(e) => Err(e),
        },
        Err(e) => Err(e),
    }
}


/// How one atom of a key decodes.
#[derive(Clone, Copy, Debug, PartialEq, Eq, Structural)]
pub enum AtomKind {
    /// Any bytes, taken as they are.
    Bytes,
    /// UTF-8 text.
    Text,
    /// Exactly this many bytes: a fixed-size array or an integer.
    Fixed(usize),
}

/// A decoded key atom.
#[derive(Clone, Debug, PartialEq, Eq)]
pub enum Atom {
    Bytes(Vec<u8>),
    Text(String),
}

/// The bytes of an atom decode as the kind says.
pub open spec fn atom_decodes(kind: AtomKind, b: Seq<u8>) -> bool {
    match kind {
        AtomKind::Bytes => true,
        AtomKind::Text => valid_utf8(b),
        AtomKind::Fixed(n) => b.len() == n,
    }
}

/// `a` is what the bytes `b` decode to as `kind`.
pub open spec fn atom_is(kind: AtomKind, b: Seq<u8>, a: Atom) -> bool {
    match kind {
        AtomKind::Text => a matches Atom::Text(s) && s@ == decode_utf8(b),
        _ => a matches Atom::Bytes(v) && v@ == b,
    }
}

/// The key splits into one atom per kind, each decodes, and `atoms` are the decoded atoms.
pub open spec fn key_decodes(kinds: Seq<AtomKind>, key: Seq<u8>, atoms: Seq<Atom>) -> bool {
    match split_atoms(kinds.len(), key) {
        Some(parts) => {
            &&& atoms.len() == kinds.len()
            &&& forall|i: int|
                0 <= i < kinds.len() ==> atom_decodes(kinds[i], parts[i]) && atom_is(kinds[i], parts[i], #[trigger] atoms[i])
        },
        None => false,
    }
}

/// The key does not split into one atom per kind, or some atom does not decode.
pub open spec fn key_fails(kinds: Seq<AtomKind>, key: Seq<u8>) -> bool {
    match split_atoms(kinds.len(), key) {
        Some(parts) => exists|i: int| 0 <= i < kinds.len() && !atom_decodes(#[trigger] kinds[i], parts[i]),
        None => true,
    }
}

/// A split into `n` atoms has `n` atoms.
pub proof fn lemma_split_atoms_len(n: nat, v: Seq<u8>)
    ensures
        split_atoms(n, v) matches Some(parts) ==> parts.len() == n,
    decreases n,
{
    if n >= 2 {
        if let Some(p) = split_first(1, v) {
            lemma_split_atoms_len((n - 1) as nat, p.1);
        }
    }
}

/// Decodes one atom; fails with `Decode` on a wrong width or on invalid UTF-8.
pub fn decode_atom(kind: AtomKind, b: &[u8]) -> (r: Result<Atom, StorageError>)
    ensures
        r is Ok <==> atom_decodes(kind, b@),
        r matches Ok(a) ==> atom_is(kind, b@, a),
        r matches Err(e) ==> e == StorageError::Decode,
{
    match kind {
        AtomKind::Bytes => Ok(Atom::Bytes(slice_to_vec(b))),
        AtomKind::Text => match decode_text(b) {
            Ok(s) => Ok(Atom::Text(s)),
            Err(e) => Err(e),
        },
        AtomKind::Fixed(n) => match decode_fixed(b, n) {
            Ok(v) => Ok(Atom::Bytes(v)),
            Err(e) => Err(e),
        },
    }
}

/// Splits a key into one atom per kind and decodes each; fails with `Decode` when the key does
/// not split or an atom does not decode.
pub fn decode_key(kinds: &Vec<AtomKind>, key: &[u8]) -> (r: Result<Vec<Atom>, StorageError>)
    ensures
        r matches Ok(atoms) ==> key_decodes(kinds@, key@, atoms@),
        r matches Err(e) ==> key_fails(kinds@, key@) && e == StorageError::Decode,
{
    let parts = match split_key(kinds.len(), key) {
        Ok(p) => p,
        Err(e) => return Err(e),
    };
    let ghost pv = parts.deep_view();
    proof {
        lemma_split_atoms_len(kinds@.len() as nat, key@);
    }
    let mut atoms: Vec<Atom> = Vec::new();
    let mut i: usize = 0;
    while i < kinds.len()
        invariant
            split_atoms(kinds@.len() as nat, key@) == Some(pv),
            pv == parts.deep_view(),
            pv.len() == kinds@.len(),
            0 <= i <= kinds@.len(),
            atoms@.len() == i,
            forall|j: int| 0 <= j < atoms@.len() ==> #[trigger] atom_decodes(kinds@[j], pv[j]),
            forall|j: int| 0 <= j < atoms@.len() ==> #[trigger] atom_is(kinds@[j], pv[j], atoms@[j]),
        decreases kinds.len() - i,
    {
        proof {
            assert(parts@[i as int]@ == pv[i as int]);
        }
        let ghost before = atoms@;
        let kind = kinds[i];
        let part = parts[i].as_slice();
        proof {
            assert(kind == kinds@[i as int]);
            assert(part@ == pv[i as int]);
        }
        let decoded = decode_atom(kind, part);
        if decoded.is_err() {
            proof {
                assert(!atom_decodes(kinds@[i as int], pv[i as int]));
                assert(key_fails(kinds@, key@));
            }
            return Err(StorageError::Decode);
        }
        let a = decoded.unwrap();
        proof {
            assert(atom_decodes(kinds@[i as int], pv[i as int]));
            assert(atom_is(kinds@[i as int], pv[i as int], a));
        }
        atoms.push(a);
        proof {
            assert forall|j: int| 0 <= j < atoms@.len() implies #[trigger] atom_decodes(kinds@[j], pv[j]) by {
                if j < i {
                    assert(atom_decodes(kinds@[j], pv[j]));
                }
            }
            assert forall|j: int| 0 <= j < atoms@.len() implies #[trigger] atom_is(kinds@[j], pv[j], atoms@[j]) by {
                if j < i {
                    assert(atoms@[j] == before[j]);
                    assert(atom_is(kinds@[j], pv[j], before[j]));
                } else {
                    assert(atoms@[j] == a);
                }
            }
        }
        i = i + 1;
    }
    proof {
        assert forall|j: int| 0 <= j < kinds@.len() implies atom_decodes(kinds@[j], pv[j]) && atom_is(kinds@[j], pv[j], #[trigger] atoms@[j]) by {
            assert(atom_decodes(kinds@[j], pv[j]));
            assert(atom_is(kinds@[j], pv[j], atoms@[j]));
        }
        assert(key_decodes(kinds@, key@, atoms@));
    }
    Ok(atoms)
}

} // verus!
