//! Range scans, clearing and emptiness checks over everything stored under one prefix.
use vstd::prelude::*;
use vstd::slice::slice_to_vec;

use crate::bound::{
    calc_end_bound, calc_prefix_end_bound, calc_prefix_start_bound, calc_start_bound, end_bound,
    increment_last_byte, incremented, prefix_end_bound, prefix_start_bound, start_bound, trim, RawBound,
};
use crate::codec::{decode_key, key_decodes, key_fails, nested_prefix, prefixable, to_length_prefixed_nested, Atom, AtomKind};
use crate::error::StorageError;
use crate::order::{lemma_bytes_deep_view, lex_lt};
use crate::store::{in_bounds, is_first, is_scan, record_view, Order, Store};

verus! {

broadcast use lemma_bytes_deep_view;

/// `out` is the scan `s` with the first `n` bytes cut off every key.
pub open spec fn trimmed(s: Seq<(Seq<u8>, Seq<u8>)>, n: nat, out: Seq<(Seq<u8>, Seq<u8>)>) -> bool {
    &&& out.len() == s.len()
    &&& forall|i: int|
        0 <= i < s.len() ==> {
            &&& n <= (#[trigger] s[i]).0.len()
            &&& out[i] == (s[i].0.subrange(n as int, s[i].0.len() as int), s[i].1)
        }
}

/// Some key of the scan is shorter than the prefix that should be cut off.
pub open spec fn has_short_key(s: Seq<(Seq<u8>, Seq<u8>)>, n: nat) -> bool {
    exists|i: int| 0 <= i < s.len() && (#[trigger] s[i]).0.len() < n
}

/// What a scan under `prefix` with suffix bounds `min` and `max` returns: the store's scan of
/// the raw range, keys trimmed, or an `InvariantViolation` when the store hands back a key
/// shorter than the prefix.
pub open spec fn prefix_scan_result(
    m: Map<Seq<u8>, Seq<u8>>,
    prefix: Seq<u8>,
    start: Seq<u8>,
    end: Option<Seq<u8>>,
    order: Order,
    r: Result<Seq<(Seq<u8>, Seq<u8>)>, StorageError>,
) -> bool {
    exists|s: Seq<(Seq<u8>, Seq<u8>)>| {
        &&& is_scan(m, Some(start), end, order, s)
        &&& match r {
            Ok(out) => trimmed(s, prefix.len(), out),
            Err(e) => e == StorageError::InvariantViolation && has_short_key(s, prefix.len()),
        }
    }
}

pub open spec fn records_view(r: Result<Vec<(Vec<u8>, Vec<u8>)>, StorageError>) -> Result<Seq<(Seq<u8>, Seq<u8>)>, StorageError> {
    match r {
        Ok(v) => Ok(v.deep_view()),
        Err(e) => Err(e),
    }
}

/// The keys of `m` in the scan range of a whole prefix.
pub open spec fn keys_under(m: Map<Seq<u8>, Seq<u8>>, prefix: Seq<u8>) -> Set<Seq<u8>> {
    m.dom().filter(|k: Seq<u8>| in_bounds(k, Some(prefix), incremented(prefix)))
}

/// A typed record: the raw record's key decoded by `kinds`, or `Decode` where it does not decode.
pub open spec fn record_decoded(kinds: Seq<AtomKind>, raw: (Seq<u8>, Seq<u8>), item: Result<(Vec<Atom>, Vec<u8>), StorageError>) -> bool {
    match item {
        Ok(p) => key_decodes(kinds, raw.0, p.0@) && p.1@ == raw.1,
        Err(e) => key_fails(kinds, raw.0) && e == StorageError::Decode,
    }
}

/// A typed key: the raw record's key decoded by `kinds`, or `Decode` where it does not decode.
pub open spec fn key_decoded(kinds: Seq<AtomKind>, raw: (Seq<u8>, Seq<u8>), item: Result<Vec<Atom>, StorageError>) -> bool {
    match item {
        Ok(a) => key_decodes(kinds, raw.0, a@),
        Err(e) => key_fails(kinds, raw.0) && e == StorageError::Decode,
    }
}

/// Each item is the corresponding raw record, decoded.
pub open spec fn decoded_records(kinds: Seq<AtomKind>, raw: Seq<(Seq<u8>, Seq<u8>)>, items: Seq<Result<(Vec<Atom>, Vec<u8>), StorageError>>) -> bool {
    &&& items.len() == raw.len()
    &&& forall|i: int| 0 <= i < raw.len() ==> #[trigger] record_decoded(kinds, raw[i], items[i])
}

/// Each item is the key of the corresponding raw record, decoded.
pub open spec fn decoded_keys(kinds: Seq<AtomKind>, raw: Seq<(Seq<u8>, Seq<u8>)>, items: Seq<Result<Vec<Atom>, StorageError>>) -> bool {
    &&& items.len() == raw.len()
    &&& forall|i: int| 0 <= i < raw.len() ==> #[trigger] key_decoded(kinds, raw[i], items[i])
}

/// A typed scan: the raw scan with every key decoded by `kinds`; an error when the raw scan fails.
pub open spec fn typed_scan_result(
    m: Map<Seq<u8>, Seq<u8>>,
    prefix: Seq<u8>,
    start: Seq<u8>,
    end: Option<Seq<u8>>,
    order: Order,
    kinds: Seq<AtomKind>,
    r: Result<Vec<Result<(Vec<Atom>, Vec<u8>), StorageError>>, StorageError>,
) -> bool {
    match r {
        Ok(items) => exists|raw: Seq<(Seq<u8>, Seq<u8>)>| {
            &&& prefix_scan_result(m, prefix, start, end, order, Ok(raw))
            &&& #[trigger] decoded_records(kinds, raw, items@)
        },
        Err(e) => prefix_scan_result(m, prefix, start, end, order, Err(e)),
    }
}

/// A typed keys-only scan: the raw scan's keys decoded by `kinds`.
pub open spec fn typed_keys_result(
    m: Map<Seq<u8>, Seq<u8>>,
    prefix: Seq<u8>,
    start: Seq<u8>,
    end: Option<Seq<u8>>,
    order: Order,
    kinds: Seq<AtomKind>,
    r: Result<Vec<Result<Vec<Atom>, StorageError>>, StorageError>,
) -> bool {
    match r {
        Ok(items) => exists|raw: Seq<(Seq<u8>, Seq<u8>)>| {
            &&& prefix_scan_result(m, prefix, start, end, order, Ok(raw))
            &&& #[trigger] decoded_keys(kinds, raw, items@)
        },
        Err(e) => prefix_scan_result(m, prefix, start, end, order, Err(e)),
    }
}

/// What a scan between two prefix bounds under `prefix` returns, as the bound and scan functions
/// define it: `InvariantViolation` when a bound cannot be computed or a key is shorter than the
/// prefix.
pub open spec fn prefix_range_result(
    m: Map<Seq<u8>, Seq<u8>>,
    prefix: Seq<u8>,
    min: Option<&RawBound>,
    max: Option<&RawBound>,
    order: Order,
    r: Result<Seq<(Seq<u8>, Seq<u8>)>, StorageError>,
) -> bool {
    match r {
        Ok(out) => prefix_start_bound(prefix, min) is Some && prefix_end_bound(prefix, max) is Some
            && prefix_scan_result(m, prefix, prefix_start_bound(prefix, min).unwrap(), prefix_end_bound(prefix, max).unwrap(), order, Ok(out)),
        Err(e) => e == StorageError::InvariantViolation && (prefix_start_bound(prefix, min) is None
            || prefix_end_bound(prefix, max) is None
            || prefix_scan_result(m, prefix, prefix_start_bound(prefix, min).unwrap(), prefix_end_bound(prefix, max).unwrap(), order,
                Err(StorageError::InvariantViolation))),
    }
}

/// A typed scan between two prefix bounds: the raw result with every key decoded by `kinds`.
pub open spec fn typed_prefix_range_result(
    m: Map<Seq<u8>, Seq<u8>>,
    prefix: Seq<u8>,
    min: Option<&RawBound>,
    max: Option<&RawBound>,
    order: Order,
    kinds: Seq<AtomKind>,
    r: Result<Vec<Result<(Vec<Atom>, Vec<u8>), StorageError>>, StorageError>,
) -> bool {
    match r {
        Ok(items) => exists|raw: Seq<(Seq<u8>, Seq<u8>)>| {
            &&& prefix_range_result(m, prefix, min, max, order, Ok(raw))
            &&& #[trigger] decoded_records(kinds, raw, items@)
        },
        Err(e) => prefix_range_result(m, prefix, min, max, order, Err(e)),
    }
}

/// Decodes the key of every record.
pub(crate) fn decode_records(kinds: &Vec<AtomKind>, raw: &Vec<(Vec<u8>, Vec<u8>)>) -> (r: Vec<Result<(Vec<Atom>, Vec<u8>), StorageError>>)
    ensures
        decoded_records(kinds@, raw.deep_view(), r@),
{
    let mut items: Vec<Result<(Vec<Atom>, Vec<u8>), StorageError>> = Vec::new();
    let mut i: usize = 0;
    while i < raw.len()
        invariant
            0 <= i <= raw@.len(),
            items@.len() == i,
            forall|j: int| 0 <= j < items@.len() ==> #[trigger] record_decoded(kinds@, raw.deep_view()[j], items@[j]),
        decreases raw.len() - i,
    {
        let item = match decode_key(kinds, raw[i].0.as_slice()) {
            Ok(atoms) => Ok((atoms, slice_to_vec(raw[i].1.as_slice()))),
            Err(e) => Err(e),
        };
        proof {
            assert(record_decoded(kinds@, raw.deep_view()[i as int], item));
        }
        let ghost before = items@;
        items.push(item);
        proof {
            assert forall|j: int| 0 <= j < items@.len() implies #[trigger] record_decoded(kinds@, raw.deep_view()[j], items@[j]) by {
                if j < i {
                    assert(items@[j] == before[j]);
                }
            }
        }
        i = i + 1;
    }
    items
}

/// Decodes the key of every record, dropping the values.
pub(crate) fn decode_keys(kinds: &Vec<AtomKind>, raw: &Vec<(Vec<u8>, Vec<u8>)>) -> (r: Vec<Result<Vec<Atom>, StorageError>>)
    ensures
        decoded_keys(kinds@, raw.deep_view(), r@),
{
    let mut items: Vec<Result<Vec<Atom>, StorageError>> = Vec::new();
    let mut i: usize = 0;
    while i < raw.len()
        invariant
            0 <= i <= raw@.len(),
            items@.len() == i,
            forall|j: int| 0 <= j < items@.len() ==> #[trigger] key_decoded(kinds@, raw.deep_view()[j], items@[j]),
        decreases raw.len() - i,
    {
        let item = decode_key(kinds, raw[i].0.as_slice());
        proof {
            assert(key_decoded(kinds@, raw.deep_view()[i as int], item));
        }
        let ghost before = items@;
        items.push(item);
        proof {
            assert forall|j: int| 0 <= j < items@.len() implies #[trigger] key_decoded(kinds@, raw.deep_view()[j], items@[j]) by {
                if j < i {
                    assert(items@[j] == before[j]);
                }
            }
        }
        i = i + 1;
    }
    items
}

/// Trims the prefix off every key of a raw scan.
fn trim_records(prefix: &[u8], raw: &Vec<(Vec<u8>, Vec<u8>)>) -> (r: Result<Vec<(Vec<u8>, Vec<u8>)>, StorageError>)
    ensures
        r matches Ok(out) ==> trimmed(raw.deep_view(), prefix@.len(), out.deep_view()),
        r matches Err(e) ==> e == StorageError::InvariantViolation && has_short_key(raw.deep_view(), prefix@.len()),
{
    let mut out: Vec<(Vec<u8>, Vec<u8>)> = Vec::new();
    let mut i: usize = 0;
    while i < raw.len()
        invariant
            0 <= i <= raw@.len(),
            out@.len() == i,
            forall|j: int|
                0 <= j < i ==> {
                    &&& prefix@.len() <= (#[trigger] raw.deep_view()[j]).0.len()
                    &&& out.deep_view()[j] == (raw.deep_view()[j].0.subrange(prefix@.len() as int, raw.deep_view()[j].0.len() as int), raw.deep_view()[j].1)
                },
        decreases raw.len() - i,
    {
        match trim(prefix, raw[i].0.as_slice()) {
            Ok(k) => {
                let v = slice_to_vec(raw[i].1.as_slice());
                let ghost before = out.deep_view();
                out.push((k, v));
                proof {
                    assert forall|j: int| 0 <= j < i + 1 implies #[trigger] out.deep_view()[j] == (if j < i { before[j] } else { (k@, v@) }) by {}
                }
            },
            Err(e) => {
                proof {
                    assert(raw.deep_view()[i as int].0.len() < prefix@.len());
                }
                return Err(e);
            },
        }
        i = i + 1;
    }
    Ok(out)
}

/// All records under `namespace` whose suffix lies within the bounds, suffixes and values, in
/// the given order.
pub fn range_with_prefix(
    store: &Store,
    namespace: &[u8],
    start: Option<&RawBound>,
    end: Option<&RawBound>,
    order: Order,
) -> (r: Result<Vec<(Vec<u8>, Vec<u8>)>, StorageError>)
    ensures
        prefix_scan_result(store@, namespace@, start_bound(namespace@, start), end_bound(namespace@, end), order, records_view(r)),
{
    let lo = calc_start_bound(namespace, start);
    let hi = calc_end_bound(namespace, end);
    let raw = match &hi {
        Some(h) => store.range(Some(lo.as_slice()), Some(h.as_slice()), order),
        None => store.range(Some(lo.as_slice()), None, order),
    };
    let r = trim_records(namespace, &raw);
    proof {
        let s = raw.deep_view();
        assert(is_scan(store@, Some(start_bound(namespace@, start)), end_bound(namespace@, end), order, s));
    }
    r
}

/// The suffixes of all keys under `namespace` within the bounds, in the given order.
pub fn keys_with_prefix(
    store: &Store,
    namespace: &[u8],
    start: Option<&RawBound>,
    end: Option<&RawBound>,
    order: Order,
) -> (r: Result<Vec<Vec<u8>>, StorageError>)
    ensures
        exists|full: Result<Seq<(Seq<u8>, Seq<u8>)>, StorageError>| {
            &&& prefix_scan_result(store@, namespace@, start_bound(namespace@, start), end_bound(namespace@, end), order, full)
            &&& match (full, r) {
                (Ok(f), Ok(k)) => k@.len() == f.len() && forall|i: int| 0 <= i < f.len() ==> #[trigger] k@[i]@ == f[i].0,
                (Err(a), Err(b)) => a == b,
                _ => false,
            }
        },
{
    let records = range_with_prefix(store, namespace, start, end, order);
    match records {
        Ok(recs) => {
            let mut keys: Vec<Vec<u8>> = Vec::new();
            let mut i: usize = 0;
            while i < recs.len()
                invariant
                    0 <= i <= recs@.len(),
                    keys@.len() == i,
                    forall|j: int| 0 <= j < i ==> #[trigger] keys@[j]@ == recs.deep_view()[j].0,
                decreases recs.len() - i,
            {
                keys.push(slice_to_vec(recs[i].0.as_slice()));
                i = i + 1;
            }
            proof {
                assert(records_view(Ok(recs)) == Ok::<Seq<(Seq<u8>, Seq<u8>)>, StorageError>(recs.deep_view()));
            }
            Ok(keys)
        },
        Err(e) => Err(e),
    }
}

/// Records whose leading key atoms lie between two prefix bounds, under the namespace
/// `namespace`; keys come back with the namespace trimmed and the prefix kept.
pub fn namespaced_prefix_range(
    store: &Store,
    namespace: &[u8],
    start: Option<&RawBound>,
    end: Option<&RawBound>,
    order: Order,
) -> (r: Result<Vec<(Vec<u8>, Vec<u8>)>, StorageError>)
    requires
        namespace@.len() < 65536,
    ensures
        r is Err <==> (prefix_start_bound(nested_prefix(seq![namespace@]), start) is None
            || prefix_end_bound(nested_prefix(seq![namespace@]), end) is None
            || prefix_scan_result(store@, nested_prefix(seq![namespace@]),
                prefix_start_bound(nested_prefix(seq![namespace@]), start).unwrap(),
                prefix_end_bound(nested_prefix(seq![namespace@]), end).unwrap(), order, Err(StorageError::InvariantViolation))),
        r matches Err(e) ==> e == StorageError::InvariantViolation,
        r matches Ok(out) ==> prefix_scan_result(store@, nested_prefix(seq![namespace@]),
            prefix_start_bound(nested_prefix(seq![namespace@]), start).unwrap(),
            prefix_end_bound(nested_prefix(seq![namespace@]), end).unwrap(), order, Ok(out.deep_view())),
{
    let mut parts: Vec<Vec<u8>> = Vec::new();
    parts.push(slice_to_vec(namespace));
    proof {
        assert(parts.deep_view() =~= seq![namespace@]);
    }
    let prefix = to_length_prefixed_nested(&parts);
    let lo = match calc_prefix_start_bound(prefix.as_slice(), start) {
        Ok(v) => v,
        Err(e) => return Err(e),
    };
    let hi = match calc_prefix_end_bound(prefix.as_slice(), end) {
        Ok(v) => v,
        Err(e) => return Err(e),
    };
    let raw = match &hi {
        Some(h) => store.range(Some(lo.as_slice()), Some(h.as_slice()), order),
        None => store.range(Some(lo.as_slice()), None, order),
    };
    let r = trim_records(prefix.as_slice(), &raw);
    proof {
        let hv = match hi {
            Some(h) => Some(h@),
            None => None,
        };
        assert(is_scan(store@, Some(lo@), hv, order, raw.deep_view()));
        if let Ok(ref out) = r {
            assert(trimmed(raw.deep_view(), prefix@.len(), out.deep_view()));
            assert(prefix_scan_result(store@, nested_prefix(seq![namespace@]), lo@, hv, order, Ok(out.deep_view())));
        }
        if let Ok(ref out) = r {
            assert(records_view(r) == Ok::<Seq<(Seq<u8>, Seq<u8>)>, StorageError>(out.deep_view()));
        }
    }
    match r {
        Ok(out) => Ok(out),
        Err(e) => Err(e),
    }
}

/// Everything stored under one prefix: a namespace with nested sub-namespaces.
#[derive(Clone, Debug)]
pub struct Prefix {
    storage_prefix: Vec<u8>,
}

impl View for Prefix {
    type V = Seq<u8>;

    closed spec fn view(&self) -> Seq<u8> {
        self.storage_prefix@
    }
}

impl Prefix {
    /// The prefix of `sub_names` nested under `top_name`, every part length-prefixed.
    pub fn new(top_name: &[u8], sub_names: &Vec<Vec<u8>>) -> (r: Prefix)
        requires
            top_name@.len() < 65536,
            prefixable(sub_names.deep_view()),
        ensures
            r@ == nested_prefix(seq![top_name@] + sub_names.deep_view()),
    {
        let mut combined: Vec<Vec<u8>> = Vec::new();
        combined.push(slice_to_vec(top_name));
        let mut i: usize = 0;
        while i < sub_names.len()
            invariant
                0 <= i <= sub_names@.len(),
                combined@.len() == i + 1,
                combined.deep_view() =~= seq![top_name@] + sub_names.deep_view().subrange(0, i as int),
            decreases sub_names.len() - i,
        {
            let atom = slice_to_vec(sub_names[i].as_slice());
            let ghost before = combined@;
            let ghost before_dv = combined.deep_view();
            combined.push(atom);
            proof {
                assert forall|j: int| 0 <= j < i + 2 implies #[trigger] combined.deep_view()[j] == (seq![top_name@] + sub_names.deep_view().subrange(0, i + 1))[j] by {
                    if j < i + 1 {
                        assert(combined@[j] == before[j]);
                        assert(before_dv[j] == before[j].deep_view());
                    } else {
                        assert(combined@[j] == atom);
                    }
                }
                assert(combined.deep_view() =~= seq![top_name@] + sub_names.deep_view().subrange(0, i + 1));
            }
            i = i + 1;
        }
        proof {
            assert(sub_names.deep_view().subrange(0, sub_names@.len() as int) =~= sub_names.deep_view());
            assert(prefixable(combined.deep_view())) by {
                assert forall|j: int| 0 <= j < combined.deep_view().len() implies #[trigger] combined.deep_view()[j].len() < 65536 by {
                    if j > 0 {
                        assert(combined.deep_view()[j] == sub_names.deep_view()[j - 1]);
                    }
                }
            }
        }
        Prefix { storage_prefix: to_length_prefixed_nested(&combined) }
    }

    /// A prefix given by its raw bytes.
    pub fn from_raw(storage_prefix: Vec<u8>) -> (r: Prefix)
        ensures
            r@ == storage_prefix@,
    {
        Prefix { storage_prefix }
    }

    pub fn as_slice(&self) -> (r: &[u8])
        ensures
            r@ == self@,
    {
        self.storage_prefix.as_slice()
    }

    /// Records under this prefix within the suffix bounds: suffixes and raw values.
    pub fn range_raw(&self, store: &Store, min: Option<&RawBound>, max: Option<&RawBound>, order: Order) -> (r: Result<Vec<(Vec<u8>, Vec<u8>)>, StorageError>)
        ensures
            prefix_scan_result(store@, self@, start_bound(self@, min), end_bound(self@, max), order, records_view(r)),
    {
        range_with_prefix(store, self.storage_prefix.as_slice(), min, max, order)
    }

    /// Suffixes of the keys under this prefix within the bounds.
    pub fn keys_raw(&self, store: &Store, min: Option<&RawBound>, max: Option<&RawBound>, order: Order) -> (r: Result<Vec<Vec<u8>>, StorageError>)
        ensures
            exists|full: Result<Seq<(Seq<u8>, Seq<u8>)>, StorageError>| {
                &&& prefix_scan_result(store@, self@, start_bound(self@, min), end_bound(self@, max), order, full)
                &&& match (full, r) {
                    (Ok(f), Ok(k)) => k@.len() == f.len() && forall|i: int| 0 <= i < f.len() ==> #[trigger] k@[i]@ == f[i].0,
                    (Err(a), Err(b)) => a == b,
                    _ => false,
                }
            },
    {
        keys_with_prefix(store, self.storage_prefix.as_slice(), min, max, order)
    }

    /// The first entry under this prefix in ascending key order.
    fn first_under(&self, store: &Store) -> (r: Option<(Vec<u8>, Vec<u8>)>)
        ensures
            is_first(store@, Some(self@), incremented(self@), Order::Ascending, record_view(r)),
            store@.dom().finite(),
    {
        match increment_last_byte(self.storage_prefix.as_slice()) {
            Some(h) => store.first(Some(self.storage_prefix.as_slice()), Some(h.as_slice()), Order::Ascending),
            None => store.first(Some(self.storage_prefix.as_slice()), None, Order::Ascending),
        }
    }

    /// Records under this prefix within the suffix bounds, each key decoded by `kinds`; an item
    /// fails with `Decode` when its key does not split into those atoms, an atom has the wrong
    /// width, or a text atom is not UTF-8.
    pub fn range(&self, store: &Store, min: Option<&RawBound>, max: Option<&RawBound>, order: Order, kinds: &Vec<AtomKind>)
        -> (r: Result<Vec<Result<(Vec<Atom>, Vec<u8>), StorageError>>, StorageError>)
        ensures
            typed_scan_result(store@, self@, start_bound(self@, min), end_bound(self@, max), order, kinds@, r),
    {
        let scanned = self.range_raw(store, min, max, order);
        let ghost view = records_view(scanned);
        match scanned {
            Ok(raw) => {
                let items = decode_records(kinds, &raw);
                let ghost rv = raw.deep_view();
                let ghost iv = items@;
                proof {
                    assert(view == Ok::<Seq<(Seq<u8>, Seq<u8>)>, StorageError>(rv));
                    assert(exists|raw: Seq<(Seq<u8>, Seq<u8>)>| {
                        &&& prefix_scan_result(store@, self@, start_bound(self@, min), end_bound(self@, max), order, Ok(raw))
                        &&& #[trigger] decoded_records(kinds@, raw, iv)
                    });
                }
                let res: Result<Vec<Result<(Vec<Atom>, Vec<u8>), StorageError>>, StorageError> = Ok(items);
                proof {
                    assert(res->Ok_0@ == iv);
                }
                res
            },
            Err(e) => Err(e),
        }
    }

    /// Keys under this prefix within the suffix bounds, each decoded by `kinds`; an item fails
    /// with `Decode` when its key does not decode.
    pub fn keys(&self, store: &Store, min: Option<&RawBound>, max: Option<&RawBound>, order: Order, kinds: &Vec<AtomKind>)
        -> (r: Result<Vec<Result<Vec<Atom>, StorageError>>, StorageError>)
        ensures
            typed_keys_result(store@, self@, start_bound(self@, min), end_bound(self@, max), order, kinds@, r),
    {
        let scanned = self.range_raw(store, min, max, order);
        let ghost view = records_view(scanned);
        match scanned {
            Ok(raw) => {
                let items = decode_keys(kinds, &raw);
                let ghost rv = raw.deep_view();
                let ghost iv = items@;
                proof {
                    assert(view == Ok::<Seq<(Seq<u8>, Seq<u8>)>, StorageError>(rv));
                    assert(exists|raw: Seq<(Seq<u8>, Seq<u8>)>| {
                        &&& prefix_scan_result(store@, self@, start_bound(self@, min), end_bound(self@, max), order, Ok(raw))
                        &&& #[trigger] decoded_keys(kinds@, raw, iv)
                    });
                }
                let res: Result<Vec<Result<Vec<Atom>, StorageError>>, StorageError> = Ok(items);
                proof {
                    assert(res->Ok_0@ == iv);
                }
                res
            },
            Err(e) => Err(e),
        }
    }

    /// Whether nothing is stored under this prefix.
    pub fn is_empty(&self, store: &Store) -> (r: bool)
        ensures
            r == keys_under(store@, self@).is_empty(),
    {
        let first = self.first_under(store);
        proof {
            let ks = keys_under(store@, self@);
            match first {
                Some(ref p) => {
                    assert(ks.contains(p.0@));
                },
                None => {
                    assert(ks =~= Set::<Seq<u8>>::empty());
                },
            }
        }
        first.is_none()
    }

    /// Removes the first `limit` entries under this prefix in ascending key order, or all of
    /// them when there is no limit.
    pub fn clear(&self, store: &mut Store, limit: Option<usize>)
        ensures
            exists|removed: Set<Seq<u8>>| {
                &&& final(store)@ == old(store)@.remove_keys(removed)
                &&& removed.subset_of(keys_under(old(store)@, self@))
                &&& forall|a: Seq<u8>, b: Seq<u8>|
                    #[trigger] removed.contains(a) && #[trigger] keys_under(old(store)@, self@).contains(b) && !removed.contains(b)
                        ==> lex_lt(a, b)
                &&& match limit {
                    None => removed == keys_under(old(store)@, self@),
                    Some(n) => removed.len() == if n <= keys_under(old(store)@, self@).len() {
                        n as nat
                    } else {
                        keys_under(old(store)@, self@).len()
                    },
                }
            },
    {
        let ghost m0 = store@;
        let ghost all = keys_under(m0, self@);
        let ghost mut removed: Set<Seq<u8>> = Set::empty();
        let mut left: usize = match limit {
            Some(n) => n,
            None => usize::MAX,
        };
        let ghost mut count: nat = 0;
        let mut found = self.first_under(store);
        proof {
            vstd::set_lib::lemma_len_subset(all, m0.dom());
            assert(store@.remove_keys(removed) =~= store@);
        }
        loop
            invariant
                m0.dom().finite(),
                all == keys_under(m0, self@),
                all.finite(),
                all.len() <= m0.dom().len(),
                store@ == m0.remove_keys(removed),
                is_first(store@, Some(self@), incremented(self@), Order::Ascending, record_view(found)),
                removed.subset_of(all),
                removed.finite(),
                removed.len() == count,
                count <= all.len(),
                forall|a: Seq<u8>, b: Seq<u8>|
                    #[trigger] removed.contains(a) && #[trigger] all.contains(b) && !removed.contains(b) ==> lex_lt(a, b),
                match limit {
                    Some(n) => left as int == n - count,
                    None => left == usize::MAX,
                },
            ensures
                store@ == m0.remove_keys(removed),
                removed.subset_of(all),
                removed.finite(),
                forall|a: Seq<u8>, b: Seq<u8>|
                    #[trigger] removed.contains(a) && #[trigger] all.contains(b) && !removed.contains(b) ==> lex_lt(a, b),
                match limit {
                    None => removed == all,
                    Some(n) => removed.len() == if n <= all.len() { n as nat } else { all.len() },
                },
            decreases all.len() - count,
        {
            if left == 0 {
                break;
            }
            match found {
                None => {
                    proof {
                        assert(removed =~= all) by {
                            assert forall|k: Seq<u8>| all.contains(k) implies removed.contains(k) by {
                                if !removed.contains(k) {
                                    assert(store@.contains_key(k));
                                }
                            }
                        }
                    }
                    break;
                },
                Some(rec) => {
                    let ghost k = rec.0@;
                    let ghost before = store@;
                    proof {
                        assert(all.contains(k));
                        assert(!removed.contains(k));
                    }
                    store.remove(rec.0.as_slice());
                    proof {
                        let r2 = removed.insert(k);
                        assert(store@ =~= m0.remove_keys(r2));
                        assert forall|a: Seq<u8>, b: Seq<u8>|
                            #[trigger] r2.contains(a) && #[trigger] all.contains(b) && !r2.contains(b) implies lex_lt(a, b) by {
                            if a == k {
                                assert(before.contains_key(b));
                            }
                        }
                        vstd::set_lib::lemma_len_subset(r2, all);
                        removed = r2;
                    }
                    proof {
                        count = count + 1;
                    }
                    if limit.is_some() {
                        left = left - 1;
                    }
                    found = self.first_under(store);
                },
            }
        }
    }
}

} // verus!
