//! A map from composite keys to stored values under one namespace.
use vstd::prelude::*;

use crate::bound::{
    end_bound, incremented, lemma_all_ff_prefix, lemma_increment_all_ff_suffix, lemma_increment_be,
    lemma_increment_suffix, lemma_increment_upper, lemma_lex_concat, lemma_range_long_prefix,
    lemma_zeros_le, start_bound, RawBound,
};
use crate::bound::{prefix_end_bound, prefix_start_bound};
use crate::codec::{be_bytes, lemma_be_bytes_len, lemma_pow256_values, lemma_unsigned_order, nested_prefix, prefixable};
use crate::error::StorageError;
use crate::namespace::Namespace;
use crate::order::{
    has_prefix, lemma_bytes_deep_view, lemma_concat_eq, lemma_lex_common_prefix, lemma_lex_transitive, lemma_lex_transitive_le, lemma_lt_not_le,
    lemma_prefix_le,
    lex_le,
};
use crate::path::{addressable, bytes_view, key_path, stored, Path};
use crate::codec::{Atom, AtomKind};
use crate::prefix::{
    decode_records, decoded_records, has_short_key, keys_under, namespaced_prefix_range, prefix_range_result, prefix_scan_result, records_view,
    trimmed, typed_keys_result, typed_prefix_range_result, typed_scan_result, Prefix,
};
use crate::store::{in_bounds, is_first, is_scan, lemma_scan_frame, record_view, Order, Store};

verus! {

broadcast use lemma_bytes_deep_view;

/// The prefix of everything a map with namespace `ns` stores.
pub open spec fn map_prefix(ns: Seq<u8>) -> Seq<u8> {
    nested_prefix(seq![ns])
}

/// A map stores each value under the path of its key in the map's namespace.
#[derive(Clone, Debug)]
pub struct StorageMap {
    namespace: Namespace,
}

impl View for StorageMap {
    type V = Seq<u8>;

    closed spec fn view(&self) -> Seq<u8> {
        self.namespace@
    }
}

impl StorageMap {
    /// A map whose namespace is the given name.
    pub fn new(namespace: &'static str) -> (r: StorageMap)
        ensures
            r@ == vstd::utf8::encode_utf8(namespace@),
    {
        StorageMap { namespace: Namespace::from_static_str(namespace) }
    }

    /// A map with the given namespace.
    pub fn new_dyn(namespace: Namespace) -> (r: StorageMap)
        ensures
            r@ == namespace@,
    {
        StorageMap { namespace }
    }

    pub fn namespace_bytes(&self) -> (r: &[u8])
        ensures
            r@ == self@,
    {
        self.namespace.as_slice()
    }

    /// The storage path of a key.
    pub fn key(&self, k: &Vec<Vec<u8>>) -> (r: Path)
        requires
            addressable(self@, k.deep_view()),
        ensures
            r@ == key_path(self@, k.deep_view()),
    {
        Path::new(self.namespace.as_slice(), k)
    }

    fn no_prefix_raw(&self) -> (r: Prefix)
        requires
            self@.len() < 65536,
        ensures
            r@ == map_prefix(self@),
    {
        let empty: Vec<Vec<u8>> = Vec::new();
        proof {
            assert(empty.deep_view() =~= Seq::<Seq<u8>>::empty());
            assert(seq![self@] + empty.deep_view() =~= seq![self@]);
        }
        Prefix::new(self.namespace.as_slice(), &empty)
    }

    /// Stores `data` under key `k`.
    pub fn save(&self, store: &mut Store, k: &Vec<Vec<u8>>, data: &[u8])
        requires
            addressable(self@, k.deep_view()),
            data@.len() > 0,
        ensures
            final(store)@ == old(store)@.insert(key_path(self@, k.deep_view()), data@),
    {
        self.key(k).save(store, data)
    }

    /// Removes key `k`; removing an absent key changes nothing.
    pub fn remove(&self, store: &mut Store, k: &Vec<Vec<u8>>)
        requires
            addressable(self@, k.deep_view()),
        ensures
            final(store)@ == old(store)@.remove(key_path(self@, k.deep_view())),
    {
        self.key(k).remove(store)
    }

    /// The value under key `k`, or `NotFound`.
    pub fn load(&self, store: &Store, k: &Vec<Vec<u8>>) -> (r: Result<Vec<u8>, StorageError>)
        requires
            addressable(self@, k.deep_view()),
        ensures
            r matches Ok(v) ==> stored(store@, key_path(self@, k.deep_view())) == Some(v@),
            r matches Err(e) ==> stored(store@, key_path(self@, k.deep_view())) is None && e == StorageError::NotFound,
    {
        self.key(k).load(store)
    }

    /// The value under key `k`, if any.
    pub fn may_load(&self, store: &Store, k: &Vec<Vec<u8>>) -> (r: Option<Vec<u8>>)
        requires
            addressable(self@, k.deep_view()),
        ensures
            bytes_view(r) == stored(store@, key_path(self@, k.deep_view())),
    {
        self.key(k).may_load(store)
    }

    /// Whether a value is stored under key `k`.
    pub fn has(&self, store: &Store, k: &Vec<Vec<u8>>) -> (r: bool)
        requires
            addressable(self@, k.deep_view()),
        ensures
            r == store@.contains_key(key_path(self@, k.deep_view())),
    {
        self.key(k).has(store)
    }

    /// Loads the value under `k`, hands it to `action` and stores what it returns; on failure
    /// nothing is written.
    pub fn update<A, E>(&self, store: &mut Store, k: &Vec<Vec<u8>>, action: A) -> (r: Result<Vec<u8>, E>)
        where
            A: FnOnce(Option<Vec<u8>>) -> Result<Vec<u8>, E>,
        requires
            addressable(self@, k.deep_view()),
            forall|input: Option<Vec<u8>>| #[trigger] action.requires((input,)),
            forall|input: Option<Vec<u8>>, out: Result<Vec<u8>, E>|
                #[trigger] action.ensures((input,), out) ==> (out matches Ok(v) ==> v@.len() > 0),
        ensures
            exists|input: Option<Vec<u8>>| {
                &&& bytes_view(input) == stored(old(store)@, key_path(self@, k.deep_view()))
                &&& action.ensures((input,), r)
            },
            r matches Ok(v) ==> final(store)@ == old(store)@.insert(key_path(self@, k.deep_view()), v@),
            r is Err ==> final(store)@ == old(store)@,
    {
        self.key(k).update(store, action)
    }

    /// Removes every entry of the map.
    pub fn clear(&self, store: &mut Store)
        requires
            self@.len() < 65536,
        ensures
            final(store)@ == old(store)@.remove_keys(keys_under(old(store)@, map_prefix(self@))),
    {
        self.no_prefix_raw().clear(store, None)
    }

    /// Whether the map holds no entry.
    pub fn is_empty(&self, store: &Store) -> (r: bool)
        requires
            self@.len() < 65536,
        ensures
            r == keys_under(store@, map_prefix(self@)).is_empty(),
    {
        self.no_prefix_raw().is_empty(store)
    }

    /// The entries whose keys start with the atoms `p`.
    pub fn prefix(&self, p: &Vec<Vec<u8>>) -> (r: Prefix)
        requires
            self@.len() < 65536,
            prefixable(p.deep_view()),
        ensures
            r@ == nested_prefix(seq![self@] + p.deep_view()),
    {
        Prefix::new(self.namespace.as_slice(), p)
    }

    /// The entries whose keys start with the atoms `p`, where `p` is shorter than a key's
    /// prefix.
    pub fn sub_prefix(&self, p: &Vec<Vec<u8>>) -> (r: Prefix)
        requires
            self@.len() < 65536,
            prefixable(p.deep_view()),
        ensures
            r@ == nested_prefix(seq![self@] + p.deep_view()),
    {
        Prefix::new(self.namespace.as_slice(), p)
    }

    /// Entries whose leading key atoms lie between two prefix bounds; keys keep those atoms.
    pub fn prefix_range_raw(&self, store: &Store, min: Option<&RawBound>, max: Option<&RawBound>, order: Order) -> (r: Result<Vec<(Vec<u8>, Vec<u8>)>, StorageError>)
        requires
            self@.len() < 65536,
        ensures
            r is Err <==> (prefix_start_bound(map_prefix(self@), min) is None
                || prefix_end_bound(map_prefix(self@), max) is None
                || prefix_scan_result(store@, map_prefix(self@),
                    prefix_start_bound(map_prefix(self@), min).unwrap(),
                    prefix_end_bound(map_prefix(self@), max).unwrap(), order, Err(StorageError::InvariantViolation))),
            r matches Err(e) ==> e == StorageError::InvariantViolation,
            r matches Ok(out) ==> prefix_scan_result(store@, map_prefix(self@),
                prefix_start_bound(map_prefix(self@), min).unwrap(),
                prefix_end_bound(map_prefix(self@), max).unwrap(), order, Ok(out.deep_view())),
    {
        namespaced_prefix_range(store, self.namespace.as_slice(), min, max, order)
    }

    /// Entries whose encoded keys lie within the bounds: keys and raw values, in order.
    pub fn range_raw(&self, store: &Store, min: Option<&RawBound>, max: Option<&RawBound>, order: Order) -> (r: Result<Vec<(Vec<u8>, Vec<u8>)>, StorageError>)
        requires
            self@.len() < 65536,
        ensures
            prefix_scan_result(store@, map_prefix(self@), start_bound(map_prefix(self@), min), end_bound(map_prefix(self@), max), order, records_view(r)),
    {
        self.no_prefix_raw().range_raw(store, min, max, order)
    }

    /// The encoded keys within the bounds, in order.
    pub fn keys_raw(&self, store: &Store, min: Option<&RawBound>, max: Option<&RawBound>, order: Order) -> (r: Result<Vec<Vec<u8>>, StorageError>)
        requires
            self@.len() < 65536,
        ensures
            exists|full: Result<Seq<(Seq<u8>, Seq<u8>)>, StorageError>| {
                &&& prefix_scan_result(store@, map_prefix(self@), start_bound(map_prefix(self@), min), end_bound(map_prefix(self@), max), order, full)
                &&& match (full, r) {
                    (Ok(f), Ok(k)) => k@.len() == f.len() && forall|i: int| 0 <= i < f.len() ==> #[trigger] k@[i]@ == f[i].0,
                    (Err(a), Err(b)) => a == b,
                    _ => false,
                }
            },
    {
        self.no_prefix_raw().keys_raw(store, min, max, order)
    }

    /// Entries within the bounds, each key decoded by `kinds`; an item fails with `Decode` when
    /// its key does not decode.
    pub fn range(&self, store: &Store, min: Option<&RawBound>, max: Option<&RawBound>, order: Order, kinds: &Vec<AtomKind>)
        -> (r: Result<Vec<Result<(Vec<Atom>, Vec<u8>), StorageError>>, StorageError>)
        requires
            self@.len() < 65536,
        ensures
            typed_scan_result(store@, map_prefix(self@), start_bound(map_prefix(self@), min), end_bound(map_prefix(self@), max), order,
                kinds@, r),
    {
        self.no_prefix_raw().range(store, min, max, order, kinds)
    }

    /// Keys within the bounds, each decoded by `kinds`.
    pub fn keys(&self, store: &Store, min: Option<&RawBound>, max: Option<&RawBound>, order: Order, kinds: &Vec<AtomKind>)
        -> (r: Result<Vec<Result<Vec<Atom>, StorageError>>, StorageError>)
        requires
            self@.len() < 65536,
        ensures
            typed_keys_result(store@, map_prefix(self@), start_bound(map_prefix(self@), min), end_bound(map_prefix(self@), max), order,
                kinds@, r),
    {
        self.no_prefix_raw().keys(store, min, max, order, kinds)
    }

    /// Entries whose leading key atoms lie between two prefix bounds, each key decoded by `kinds`.
    pub fn prefix_range(&self, store: &Store, min: Option<&RawBound>, max: Option<&RawBound>, order: Order, kinds: &Vec<AtomKind>)
        -> (r: Result<Vec<Result<(Vec<Atom>, Vec<u8>), StorageError>>, StorageError>)
        requires
            self@.len() < 65536,
        ensures
            typed_prefix_range_result(store@, map_prefix(self@), min, max, order, kinds@, r),
    {
        let scanned = self.prefix_range_raw(store, min, max, order);
        proof {
            assert(prefix_range_result(store@, map_prefix(self@), min, max, order, records_view(scanned)));
        }
        let ghost view = records_view(scanned);
        match scanned {
            Ok(raw) => {
                let items = decode_records(kinds, &raw);
                let ghost rv = raw.deep_view();
                let ghost iv = items@;
                proof {
                    assert(view == Ok::<Seq<(Seq<u8>, Seq<u8>)>, StorageError>(rv));
                    assert(exists|raw: Seq<(Seq<u8>, Seq<u8>)>| {
                        &&& prefix_range_result(store@, map_prefix(self@), min, max, order, Ok(raw))
                        &&& #[trigger] decoded_records(kinds@, raw, iv)
                    });
                }
                let res: Result<Vec<Result<(Vec<Atom>, Vec<u8>), StorageError>>, StorageError> = Ok(items);
                proof {
                    assert(res->Ok_0@ == iv);
                }
                res
            },
            Err(e) => Err(e),
        }
    }

    /// The entry with the least key, with its key relative to the namespace.
    pub fn first(&self, store: &Store) -> (r: Result<Option<(Vec<u8>, Vec<u8>)>, StorageError>)
        requires
            self@.len() < 65536,
        ensures
            exists|full: Option<(Vec<u8>, Vec<u8>)>| {
                &&& is_first(store@, Some(map_prefix(self@)), incremented(map_prefix(self@)), Order::Ascending, record_view(full))
                &&& first_result(map_prefix(self@), record_view(full), r)
            },
    {
        self.edge(store, Order::Ascending)
    }

    /// The entry with the greatest key, with its key relative to the namespace.
    pub fn last(&self, store: &Store) -> (r: Result<Option<(Vec<u8>, Vec<u8>)>, StorageError>)
        requires
            self@.len() < 65536,
        ensures
            exists|full: Option<(Vec<u8>, Vec<u8>)>| {
                &&& is_first(store@, Some(map_prefix(self@)), incremented(map_prefix(self@)), Order::Descending, record_view(full))
                &&& first_result(map_prefix(self@), record_view(full), r)
            },
    {
        self.edge(store, Order::Descending)
    }

    fn edge(&self, store: &Store, order: Order) -> (r: Result<Option<(Vec<u8>, Vec<u8>)>, StorageError>)
        requires
            self@.len() < 65536,
        ensures
            exists|full: Option<(Vec<u8>, Vec<u8>)>| {
                &&& is_first(store@, Some(map_prefix(self@)), incremented(map_prefix(self@)), order, record_view(full))
                &&& first_result(map_prefix(self@), record_view(full), r)
            },
    {
        let p = self.no_prefix_raw();
        let hi = crate::bound::increment_last_byte(p.as_slice());
        let found = match &hi {
            Some(h) => store.first(Some(p.as_slice()), Some(h.as_slice()), order),
            None => store.first(Some(p.as_slice()), None, order),
        };
        match found {
            None => Ok(None),
            Some(rec) => {
                let (k, v) = rec;
                match crate::bound::trim(p.as_slice(), k.as_slice()) {
                    Ok(suffix) => Ok(Some((suffix, v))),
                    Err(e) => Err(e),
                }
            },
        }
    }
}

/// A first or last entry with the prefix trimmed off its key; an `InvariantViolation` when the
/// key is shorter than the prefix.
pub open spec fn first_result(
    prefix: Seq<u8>,
    full: Option<(Seq<u8>, Seq<u8>)>,
    r: Result<Option<(Vec<u8>, Vec<u8>)>, StorageError>,
) -> bool {
    match full {
        None => r == Ok::<Option<(Vec<u8>, Vec<u8>)>, StorageError>(None),
        Some(p) => if p.0.len() < prefix.len() {
            r == Err::<Option<(Vec<u8>, Vec<u8>)>, StorageError>(StorageError::InvariantViolation)
        } else {
            r matches Ok(Some(q)) && q.0@ == p.0.subrange(prefix.len() as int, p.0.len() as int) && q.1@ == p.1
        },
    }
}

/// Every key of a map lies in the scan range of the map's prefix.
pub proof fn lemma_key_under_map(ns: Seq<u8>, k: Seq<Seq<u8>>)
    requires
        addressable(ns, k),
    ensures
        has_prefix(key_path(ns, k), map_prefix(ns)),
        in_bounds(key_path(ns, k), Some(map_prefix(ns)), incremented(map_prefix(ns))),
{
    let p = map_prefix(ns);
    let x = key_path(ns, k);
    let rest = nested_prefix(k.drop_last()) + k.last();
    assert((seq![ns] + k.drop_last()).drop_first() =~= k.drop_last());
    assert(seq![ns].drop_first() =~= Seq::<Seq<u8>>::empty());
    assert(nested_prefix(Seq::<Seq<u8>>::empty()) == Seq::<u8>::empty());
    assert(p =~= crate::codec::length_prefixed(ns));
    assert(nested_prefix(seq![ns] + k.drop_last()) == crate::codec::length_prefixed(ns) + nested_prefix(k.drop_last()));
    assert(x =~= p + rest);
    assert(x.subrange(0, p.len() as int) =~= p);
    lemma_prefix_le(x, p);
    if incremented(p) is Some {
        lemma_increment_upper(p, x);
    }
}

/// Removing a key twice leaves the store as removing it once.
pub proof fn lemma_remove_idempotent(m: Map<Seq<u8>, Seq<u8>>, ns: Seq<u8>, k: Seq<Seq<u8>>)
    ensures
        m.remove(key_path(ns, k)).remove(key_path(ns, k)) == m.remove(key_path(ns, k)),
{
    assert(m.remove(key_path(ns, k)).remove(key_path(ns, k)) =~= m.remove(key_path(ns, k)));
}

/// After a map is cleared it is empty, and no key of it is present any more.
pub proof fn lemma_clear_empties(m: Map<Seq<u8>, Seq<u8>>, ns: Seq<u8>)
    ensures
        keys_under(m.remove_keys(keys_under(m, map_prefix(ns))), map_prefix(ns)).is_empty(),
        forall|k: Seq<Seq<u8>>|
            addressable(ns, k) ==> !(#[trigger] m.remove_keys(keys_under(m, map_prefix(ns))).contains_key(key_path(ns, k))),
{
    let p = map_prefix(ns);
    let after = m.remove_keys(keys_under(m, p));
    assert(keys_under(after, p) =~= Set::<Seq<u8>>::empty());
    assert forall|k: Seq<Seq<u8>>| addressable(ns, k) implies !(#[trigger] after.contains_key(key_path(ns, k))) by {
        lemma_key_under_map(ns, k);
    }
}


/// Namespace isolation: for two different namespaces, no key of the map under one lies in the
/// scan range of the map under the other, so a scan of one never sees entries of the other
/// (as with "foo" and "food").
pub proof fn lemma_namespace_isolation(a: Seq<u8>, b: Seq<u8>, k: Seq<Seq<u8>>)
    requires
        a != b,
        a.len() < 65536,
        addressable(b, k),
    ensures
        !in_bounds(key_path(b, k), Some(map_prefix(a)), incremented(map_prefix(a))),
{
    let pa = map_prefix(a);
    let pb = map_prefix(b);
    let x = key_path(b, k);
    let la = be_bytes(a.len(), 2);
    let lb = be_bytes(b.len(), 2);
    lemma_pow256_values();
    lemma_be_bytes_len(a.len(), 2);
    lemma_be_bytes_len(b.len(), 2);
    lemma_key_under_map(b, k);
    lemma_key_under_map(a, seq![Seq::<u8>::empty()]);
    assert(seq![a].drop_first() =~= Seq::<Seq<u8>>::empty());
    assert(seq![b].drop_first() =~= Seq::<Seq<u8>>::empty());
    assert(nested_prefix(Seq::<Seq<u8>>::empty()) == Seq::<u8>::empty());
    assert(pa =~= la + a);
    assert(pb =~= lb + b);
    let rest = x.subrange(2, x.len() as int);
    assert(x.subrange(0, pb.len() as int) == pb);
    assert(x =~= lb + rest) by {
        assert(x.subrange(0, 2) =~= pb.subrange(0, 2));
        assert(pb.subrange(0, 2) =~= lb);
        assert(x =~= x.subrange(0, 2) + rest);
    }
    if a.len() == b.len() {
        if in_bounds(x, Some(pa), incremented(pa)) {
            if incremented(pa) is Some {
                lemma_range_long_prefix(pa, x);
            } else {
                lemma_all_ff_prefix(pa, x);
            }
            assert(pa =~= pb) by {
                assert(x.subrange(0, pa.len() as int) == pa);
            }
            lemma_concat_eq(la, a, b);
        }
    } else if b.len() < a.len() {
        lemma_unsigned_order(b.len(), a.len(), 2);
        lemma_lex_concat(lb, rest, la, a);
        lemma_lt_not_le(x, pa);
    } else {
        lemma_unsigned_order(a.len(), b.len(), 2);
        if incremented(a) is Some {
            lemma_increment_suffix(la, a);
            lemma_lex_concat(la, incremented(a).unwrap(), lb, rest);
            lemma_lt_not_le(la + incremented(a).unwrap(), x);
        } else {
            lemma_increment_all_ff_suffix(la, a);
            lemma_increment_be(a.len(), 2);
            let l1 = be_bytes((a.len() + 1) as nat, 2);
            let z = Seq::new(a.len(), |i: int| 0u8);
            lemma_be_bytes_len((a.len() + 1) as nat, 2);
            assert(incremented(pa) == Some(l1 + z));
            if b.len() > a.len() + 1 {
                lemma_unsigned_order((a.len() + 1) as nat, b.len(), 2);
                lemma_lex_concat(l1, z, lb, rest);
                lemma_lt_not_le(l1 + z, x);
            } else {
                assert(lb == l1);
                assert(rest.len() >= b.len()) by {
                    assert(x.len() >= pb.len());
                }
                lemma_zeros_le(a.len(), rest);
                lemma_lex_common_prefix(l1, z, rest);
                lemma_concat_eq(l1, z, rest);
                lemma_lt_not_le(x, l1 + z);
            }
        }
    }
}


/// Namespace isolation over interleaved writes: saving or removing any key of the map under `b`
/// leaves every scan of the map under `a` with the same result, so a scan of `a` after any
/// interleaving of writes to both maps equals the scan with the writes to `b` left out.
pub proof fn lemma_scan_unaffected_by_other_namespace(
    m: Map<Seq<u8>, Seq<u8>>,
    a: Seq<u8>,
    b: Seq<u8>,
    k: Seq<Seq<u8>>,
    v: Seq<u8>,
    min: Option<&RawBound>,
    max: Option<&RawBound>,
    order: Order,
    r: Result<Seq<(Seq<u8>, Seq<u8>)>, StorageError>,
)
    requires
        a != b,
        a.len() < 65536,
        addressable(b, k),
        prefix_scan_result(m, map_prefix(a), start_bound(map_prefix(a), min), end_bound(map_prefix(a), max), order, r),
    ensures
        prefix_scan_result(m.insert(key_path(b, k), v), map_prefix(a), start_bound(map_prefix(a), min), end_bound(map_prefix(a), max), order, r),
        prefix_scan_result(m.remove(key_path(b, k)), map_prefix(a), start_bound(map_prefix(a), min), end_bound(map_prefix(a), max), order, r),
{
    let pa = map_prefix(a);
    let x = key_path(b, k);
    let lo = start_bound(pa, min);
    let hi = end_bound(pa, max);
    lemma_namespace_isolation(a, b, k);
    // The scan range lies inside the range of the whole prefix.
    let tail = match min {
        None => Seq::<u8>::empty(),
        Some(RawBound::Inclusive(l)) => l@,
        Some(RawBound::Exclusive(l)) => l@.push(0),
    };
    assert(lo =~= pa + tail);
    assert(lo.subrange(0, pa.len() as int) =~= pa);
    lemma_prefix_le(lo, pa);
    assert(!in_bounds(x, Some(lo), hi)) by {
        if in_bounds(x, Some(lo), hi) {
            if lo != pa {
                lemma_lex_transitive_le(pa, lo, x);
            }
            assert(lex_le(pa, x));
            if let Some(t) = incremented(pa) {
                match max {
                    None => {},
                    Some(bd) => {
                        let e = hi.unwrap();
                        let etail = match bd {
                            RawBound::Inclusive(l) => l@.push(0),
                            RawBound::Exclusive(l) => l@,
                        };
                        assert(e =~= pa + etail);
                        assert(e.subrange(0, pa.len() as int) =~= pa);
                        lemma_increment_upper(pa, e);
                        lemma_lex_transitive(x, e, t);
                    },
                }
            }
        }
    }
    let s = choose|s: Seq<(Seq<u8>, Seq<u8>)>| {
        &&& is_scan(m, Some(lo), hi, order, s)
        &&& match r {
            Ok(out) => trimmed(s, pa.len(), out),
            Err(e) => e == StorageError::InvariantViolation && has_short_key(s, pa.len()),
        }
    };
    lemma_scan_frame(m, Some(lo), hi, order, s, x, v);
}
} // verus!
