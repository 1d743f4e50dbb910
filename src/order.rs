//! Byte-lexicographic order on key bytes, the order in which the byte store walks its keys.
use vstd::prelude::*;

verus! {

/// `a` sorts strictly before `b`, comparing byte by byte; a proper prefix sorts first.
pub open spec fn lex_lt(a: Seq<u8>, b: Seq<u8>) -> bool
    decreases a.len(),
{
    if b.len() == 0 {
        false
    } else if a.len() == 0 {
        true
    } else if a[0] != b[0] {
        a[0] < b[0]
    } else {
        lex_lt(a.drop_first(), b.drop_first())
    }
}

pub open spec fn lex_le(a: Seq<u8>, b: Seq<u8>) -> bool {
    a == b || lex_lt(a, b)
}

/// `p` is a prefix of `s`.
pub open spec fn has_prefix(s: Seq<u8>, p: Seq<u8>) -> bool {
    p.len() <= s.len() && s.subrange(0, p.len() as int) == p
}

pub proof fn lemma_lex_irreflexive(a: Seq<u8>)
    ensures
        !lex_lt(a, a),
    decreases a.len(),
{
    if a.len() > 0 {
        lemma_lex_irreflexive(a.drop_first());
    }
}

pub proof fn lemma_lex_asymmetric(a: Seq<u8>, b: Seq<u8>)
    ensures
        !(lex_lt(a, b) && lex_lt(b, a)),
    decreases a.len(),
{
    if a.len() > 0 && b.len() > 0 && a[0] == b[0] {
        lemma_lex_asymmetric(a.drop_first(), b.drop_first());
    }
}

pub proof fn lemma_lex_transitive(a: Seq<u8>, b: Seq<u8>, c: Seq<u8>)
    requires
        lex_lt(a, b),
        lex_lt(b, c),
    ensures
        lex_lt(a, c),
    decreases a.len(),
{
    if a.len() > 0 && a[0] == b[0] && b[0] == c[0] {
        lemma_lex_transitive(a.drop_first(), b.drop_first(), c.drop_first());
    }
}

/// `a <= b < c` or `a <= b <= c` chain into `a <= c` and `a < c` respectively.
pub proof fn lemma_lex_transitive_le(a: Seq<u8>, b: Seq<u8>, c: Seq<u8>)
    requires
        lex_lt(a, b),
        lex_le(b, c),
    ensures
        lex_lt(a, c),
{
    if b != c {
        lemma_lex_transitive(a, b, c);
    }
}

/// Two distinct byte strings are ordered one way or the other.
pub proof fn lemma_lex_total(a: Seq<u8>, b: Seq<u8>)
    requires
        a != b,
    ensures
        lex_lt(a, b) || lex_lt(b, a),
    decreases a.len(),
{
    if a.len() > 0 && b.len() > 0 && a[0] == b[0] {
        if a.drop_first() == b.drop_first() {
            assert(a =~= seq![a[0]] + a.drop_first());
            assert(b =~= seq![b[0]] + b.drop_first());
            assert(a =~= b);
        } else {
            lemma_lex_total(a.drop_first(), b.drop_first());
        }
    } else if a.len() == 0 && b.len() == 0 {
        assert(a =~= b);
    }
}

/// Appending one byte to equally long strings: the earlier bytes decide first.
pub proof fn lemma_lex_push(a: Seq<u8>, b: Seq<u8>, x: u8, y: u8)
    requires
        a.len() == b.len(),
    ensures
        lex_lt(a.push(x), b.push(y)) <==> (lex_lt(a, b) || (a == b && x < y)),
    decreases a.len(),
{
    if a.len() == 0 {
        assert(a.push(x).drop_first() =~= a);
        assert(b.push(y).drop_first() =~= b);
        assert(a =~= b);
    } else {
        assert(a.push(x).drop_first() =~= a.drop_first().push(x));
        assert(b.push(y).drop_first() =~= b.drop_first().push(y));
        lemma_lex_push(a.drop_first(), b.drop_first(), x, y);
        if a[0] == b[0] && a.drop_first() == b.drop_first() {
            assert(a =~= seq![a[0]] + a.drop_first());
            assert(b =~= seq![b[0]] + b.drop_first());
        }
        if a == b {
            assert(a.drop_first() == b.drop_first());
        }
    }
}

/// Comparing `p + a` with `p + b` is comparing `a` with `b`.
pub proof fn lemma_lex_common_prefix(p: Seq<u8>, a: Seq<u8>, b: Seq<u8>)
    ensures
        lex_lt(p + a, p + b) <==> lex_lt(a, b),
    decreases p.len(),
{
    if p.len() > 0 {
        assert((p + a).drop_first() =~= p.drop_first() + a);
        assert((p + b).drop_first() =~= p.drop_first() + b);
        lemma_lex_common_prefix(p.drop_first(), a, b);
    } else {
        assert(p + a =~= a);
        assert(p + b =~= b);
    }
}

/// `k` followed by a zero byte is the least byte string above `k`.
pub proof fn lemma_lex_successor(k: Seq<u8>, x: Seq<u8>)
    ensures
        lex_lt(k, x) <==> lex_le(k.push(0), x),
    decreases k.len(),
{
    let k0 = k.push(0);
    if x.len() == 0 {
    } else if k.len() == 0 {
        assert(k0 =~= seq![0u8]);
        assert(k0.drop_first() =~= Seq::<u8>::empty());
        if x[0] == 0 && x.len() == 1 {
            assert(x =~= k0);
        } else if x[0] == 0 {
            assert(lex_lt(k0.drop_first(), x.drop_first()));
        } else {
            assert(k0[0] != x[0]);
        }
    } else {
        assert(k0.drop_first() =~= k.drop_first().push(0));
        assert(k0[0] == k[0]);
        lemma_lex_successor(k.drop_first(), x.drop_first());
        if x[0] == k[0] {
            if x.drop_first() == k.drop_first().push(0) {
                assert(x =~= seq![x[0]] + x.drop_first());
                assert(k0 =~= seq![k[0]] + k.drop_first().push(0));
            }
            if x == k0 {
                assert(x.drop_first() == k0.drop_first());
            }
        }
    }
}

/// Comparing with `q` followed by one byte `c`.
pub proof fn lemma_lex_lt_push(x: Seq<u8>, q: Seq<u8>, c: u8)
    ensures
        lex_lt(x, q.push(c)) <==> (lex_lt(x, q) || x == q || (has_prefix(x, q) && x.len() > q.len() && x[q.len() as int] < c)),
    decreases q.len(),
{
    let qc = q.push(c);
    if q.len() == 0 {
        assert(qc =~= seq![c]);
        assert(qc.drop_first() =~= Seq::<u8>::empty());
        assert(x.subrange(0, 0) =~= q);
        if x.len() == 0 {
            assert(x =~= q);
        } else {
            assert(!lex_lt(x.drop_first(), qc.drop_first()));
        }
    } else if x.len() == 0 {
    } else {
        assert(qc.drop_first() =~= q.drop_first().push(c));
        assert(qc[0] == q[0]);
        if x[0] == q[0] {
            let x1 = x.drop_first();
            let q1 = q.drop_first();
            lemma_lex_lt_push(x1, q1, c);
            if x1 == q1 {
                assert(x =~= seq![x[0]] + x1);
                assert(q =~= seq![q[0]] + q1);
            }
            if x == q {
                assert(x1 == q1);
            }
            if q1.len() <= x1.len() {
                if x1.subrange(0, q1.len() as int) == q1 {
                    assert(x.subrange(0, q.len() as int) =~= seq![x[0]] + x1.subrange(0, q1.len() as int));
                    assert(q =~= seq![q[0]] + q1);
                }
                if x.subrange(0, q.len() as int) == q {
                    assert(x1.subrange(0, q1.len() as int) =~= x.subrange(0, q.len() as int).drop_first());
                }
            }
            if x.len() > q.len() {
                assert(x1[q1.len() as int] == x[q.len() as int]);
            }
        } else {
            if x.len() >= q.len() && x.subrange(0, q.len() as int) == q {
                assert(x.subrange(0, q.len() as int)[0] == x[0]);
            }
        }
    }
}

/// A string sorts at or after each of its prefixes, and never before one.
pub proof fn lemma_prefix_le(x: Seq<u8>, p: Seq<u8>)
    requires
        has_prefix(x, p),
    ensures
        lex_le(p, x),
        !lex_lt(x, p),
{
    let y = x.subrange(p.len() as int, x.len() as int);
    assert(x =~= p + y);
    assert(p =~= p + Seq::<u8>::empty());
    lemma_lex_common_prefix(p, y, Seq::<u8>::empty());
    lemma_lex_common_prefix(p, Seq::<u8>::empty(), y);
    if y.len() == 0 {
        assert(y =~= Seq::<u8>::empty());
    }
}

/// `a < b` exactly when not `b <= a`.
pub proof fn lemma_lt_not_le(a: Seq<u8>, b: Seq<u8>)
    ensures
        lex_lt(a, b) <==> !lex_le(b, a),
{
    lemma_lex_irreflexive(a);
    lemma_lex_asymmetric(a, b);
    if a != b {
        lemma_lex_total(a, b);
    }
}

/// Two concatenations with a common prefix are equal exactly when the rests are.
pub proof fn lemma_concat_eq(p: Seq<u8>, a: Seq<u8>, b: Seq<u8>)
    ensures
        (p + a == p + b) <==> (a == b),
{
    if p + a == p + b {
        assert(a =~= (p + a).subrange(p.len() as int, (p + a).len() as int));
        assert(b =~= (p + b).subrange(p.len() as int, (p + b).len() as int));
    }
}

/// The deep view of a byte vector is its plain view.
pub broadcast proof fn lemma_bytes_deep_view(v: Vec<u8>)
    ensures
        #[trigger] v.deep_view() == v@,
{
    assert(v.deep_view() =~= v@);
}

/// Compares two byte strings lexicographically.
pub fn bytes_lt(a: &[u8], b: &[u8]) -> (r: bool)
    ensures
        r == lex_lt(a@, b@),
{
    let mut i: usize = 0;
    assert(a@.subrange(0, a@.len() as int) =~= a@);
    assert(b@.subrange(0, b@.len() as int) =~= b@);
    while i < a.len() && i < b.len()
        invariant
            0 <= i <= a@.len(),
            i <= b@.len(),
            a@.subrange(0, i as int) == b@.subrange(0, i as int),
            lex_lt(a@, b@) == lex_lt(a@.subrange(i as int, a@.len() as int), b@.subrange(i as int, b@.len() as int)),
        decreases a.len() - i,
    {
        if a[i] != b[i] {
            return a[i] < b[i];
        }
        proof {
            let sa = a@.subrange(i as int, a@.len() as int);
            let sb = b@.subrange(i as int, b@.len() as int);
            assert(sa.drop_first() =~= a@.subrange(i + 1, a@.len() as int));
            assert(sb.drop_first() =~= b@.subrange(i + 1, b@.len() as int));
            assert(a@.subrange(0, i + 1) =~= a@.subrange(0, i as int).push(a@[i as int]));
            assert(b@.subrange(0, i + 1) =~= b@.subrange(0, i as int).push(b@[i as int]));
        }
        i = i + 1;
    }
    i < b.len()
}

} // verus!
