//! The byte store under every collection: get, set, remove and ordered range scans over raw
//! byte keys, backed by an in-memory ordered map.
use vstd::prelude::*;
use vstd::set_lib::lemma_len_subset;
use vstd::slice::slice_to_vec;

use cosmwasm_std::testing::MockStorage;
use cosmwasm_std::Storage;

use crate::order::{
    lemma_bytes_deep_view, lemma_lex_asymmetric, lemma_lex_irreflexive, lemma_lex_successor,
    lemma_lex_total, lemma_lex_transitive, lex_le, lex_lt,
};

verus! {

broadcast use lemma_bytes_deep_view;

#[verifier::external_type_specification]
#[verifier::external_body]
pub struct ExMockStorage(MockStorage);

/// The entries that an in-memory store holds, key bytes to value bytes.
pub uninterp spec fn storage_entries(s: MockStorage) -> Map<Seq<u8>, Seq<u8>>;

/// Direction of a range scan.
#[derive(Clone, Copy, Debug, PartialEq, Eq, Structural)]
pub enum Order {
    Ascending,
    Descending,
}

/// An optional byte-slice bound as a byte sequence.
pub open spec fn bound_view(b: Option<&[u8]>) -> Option<Seq<u8>> {
    match b {
        Some(s) => Some(s@),
        None => None,
    }
}

/// `k` is at or above the inclusive lower bound, if there is one.
pub open spec fn above(k: Seq<u8>, start: Option<Seq<u8>>) -> bool {
    match start {
        Some(s) => lex_le(s, k),
        None => true,
    }
}

/// `k` is below the exclusive upper bound, if there is one.
pub open spec fn below(k: Seq<u8>, end: Option<Seq<u8>>) -> bool {
    match end {
        Some(e) => lex_lt(k, e),
        None => true,
    }
}

/// `k` lies in the half-open range `[start, end)`.
pub open spec fn in_bounds(k: Seq<u8>, start: Option<Seq<u8>>, end: Option<Seq<u8>>) -> bool {
    above(k, start) && below(k, end)
}

/// `a` comes strictly before `b` in a scan with the given order.
pub open spec fn precedes(a: Seq<u8>, b: Seq<u8>, order: Order) -> bool {
    match order {
        Order::Ascending => lex_lt(a, b),
        Order::Descending => lex_lt(b, a),
    }
}

/// `out` lists exactly the entries of `m` whose keys lie in `[start, end)`, each once, in
/// scan order.
pub open spec fn is_scan(
    m: Map<Seq<u8>, Seq<u8>>,
    start: Option<Seq<u8>>,
    end: Option<Seq<u8>>,
    order: Order,
    out: Seq<(Seq<u8>, Seq<u8>)>,
) -> bool {
    &&& forall|i: int|
        0 <= i < out.len() ==> {
            &&& m.contains_key(#[trigger] out[i].0)
            &&& m[out[i].0] == out[i].1
            &&& in_bounds(out[i].0, start, end)
        }
    &&& forall|k: Seq<u8>|
        #[trigger] m.contains_key(k) && in_bounds(k, start, end) ==> exists|i: int|
            0 <= i < out.len() && out[i].0 == k
    &&& forall|i: int, j: int| 0 <= i < j < out.len() ==> precedes(#[trigger] out[i].0, #[trigger] out[j].0, order)
}

/// The first entry of `m` in `[start, end)` in scan order: `None` when the range is empty.
pub open spec fn is_first(
    m: Map<Seq<u8>, Seq<u8>>,
    start: Option<Seq<u8>>,
    end: Option<Seq<u8>>,
    order: Order,
    r: Option<(Seq<u8>, Seq<u8>)>,
) -> bool {
    match r {
        None => forall|k: Seq<u8>| #[trigger] m.contains_key(k) ==> !in_bounds(k, start, end),
        Some(p) => {
            &&& m.contains_key(p.0)
            &&& m[p.0] == p.1
            &&& in_bounds(p.0, start, end)
            &&& forall|k: Seq<u8>|
                #[trigger] m.contains_key(k) && in_bounds(k, start, end) && k != p.0 ==> precedes(p.0, k, order)
        },
    }
}

pub open spec fn record_view(r: Option<(Vec<u8>, Vec<u8>)>) -> Option<(Seq<u8>, Seq<u8>)> {
    match r {
        Some(p) => Some((p.0@, p.1@)),
        None => None,
    }
}

/// Relies on `MockStorage::new`: a store with no entries.
#[verifier::external_body]
fn storage_new() -> (r: MockStorage)
    ensures
        storage_entries(r).dom() == Set::<Seq<u8>>::empty(),
{
    MockStorage::new()
}

/// Relies on `Storage::get` of `MockStorage`: the value stored under the key, if any.
#[verifier::external_body]
fn storage_get(s: &MockStorage, key: &[u8]) -> (r: Option<Vec<u8>>)
    ensures
        r matches Some(v) ==> storage_entries(*s).contains_key(key@) && storage_entries(*s)[key@] == v@,
        r is None ==> !storage_entries(*s).contains_key(key@),
{
    s.get(key)
}

/// Relies on `Storage::set` of `MockStorage`: inserts or replaces the entry. It panics on an
/// empty value.
#[verifier::external_body]
fn storage_set(s: &mut MockStorage, key: &[u8], value: &[u8])
    requires
        value@.len() > 0,
    ensures
        storage_entries(*final(s)) == storage_entries(*old(s)).insert(key@, value@),
{
    s.set(key, value)
}

/// Relies on `Storage::remove` of `MockStorage`: drops the entry, if any.
#[verifier::external_body]
fn storage_remove(s: &mut MockStorage, key: &[u8])
    ensures
        storage_entries(*final(s)) == storage_entries(*old(s)).remove(key@),
{
    s.remove(key)
}

/// Relies on `Storage::range` of `MockStorage`, which walks its ordered map over the half-open
/// byte range `[start, end)` in the given order: the first entry it yields.
#[verifier::external_body]
fn storage_first(s: &MockStorage, start: Option<&[u8]>, end: Option<&[u8]>, order: Order) -> (r: Option<(Vec<u8>, Vec<u8>)>)
    ensures
        is_first(storage_entries(*s), bound_view(start), bound_view(end), order, record_view(r)),
{
    let order = match order {
        Order::Ascending => cosmwasm_std::Order::Ascending,
        Order::Descending => cosmwasm_std::Order::Descending,
    };
    s.range(start, end, order).next()
}

/// A byte store: a finite map from key bytes to non-empty value bytes.
pub struct Store {
    storage: MockStorage,
}

impl View for Store {
    type V = Map<Seq<u8>, Seq<u8>>;

    closed spec fn view(&self) -> Map<Seq<u8>, Seq<u8>> {
        storage_entries(self.storage)
    }
}

impl Store {
    #[verifier::type_invariant]
    spec fn finite(self) -> bool {
        storage_entries(self.storage).dom().finite()
    }

    /// An empty store.
    pub fn new() -> (r: Store)
        ensures
            r@ == Map::<Seq<u8>, Seq<u8>>::empty(),
    {
        let storage = storage_new();
        proof {
            assert(storage_entries(storage) =~= Map::<Seq<u8>, Seq<u8>>::empty());
        }
        Store { storage }
    }

    /// The value stored under `key`, if any.
    pub fn get(&self, key: &[u8]) -> (r: Option<Vec<u8>>)
        ensures
            r matches Some(v) ==> self@.contains_key(key@) && self@[key@] == v@,
            r is None ==> !self@.contains_key(key@),
    {
        storage_get(&self.storage, key)
    }

    /// Stores `value` under `key`. Values are never empty.
    pub fn set(&mut self, key: &[u8], value: &[u8])
        requires
            value@.len() > 0,
        ensures
            final(self)@ == old(self)@.insert(key@, value@),
    {
        proof {
            use_type_invariant(&*self);
        }
        let mut storage = storage_new();
        std::mem::swap(&mut storage, &mut self.storage);
        storage_set(&mut storage, key, value);
        self.storage = storage;
    }

    /// Removes the entry under `key`; nothing happens when there is none.
    pub fn remove(&mut self, key: &[u8])
        ensures
            final(self)@ == old(self)@.remove(key@),
    {
        proof {
            use_type_invariant(&*self);
        }
        let mut storage = storage_new();
        std::mem::swap(&mut storage, &mut self.storage);
        storage_remove(&mut storage, key);
        self.storage = storage;
    }

    /// The first entry in `[start, end)` in the given order.
    pub fn first(&self, start: Option<&[u8]>, end: Option<&[u8]>, order: Order) -> (r: Option<(Vec<u8>, Vec<u8>)>)
        ensures
            is_first(self@, bound_view(start), bound_view(end), order, record_view(r)),
            self@.dom().finite(),
    {
        proof {
            use_type_invariant(self);
        }
        storage_first(&self.storage, start, end, order)
    }

    /// All entries in `[start, end)`, in the given order.
    pub fn range(&self, start: Option<&[u8]>, end: Option<&[u8]>, order: Order) -> (r: Vec<(Vec<u8>, Vec<u8>)>)
        ensures
            is_scan(self@, bound_view(start), bound_view(end), order, r.deep_view()),
    {
        match order {
            Order::Ascending => self.range_ascending(start, end),
            Order::Descending => self.range_descending(start, end),
        }
    }

    /// The keys in `[start, end)`, in the given order.
    pub fn range_keys(&self, start: Option<&[u8]>, end: Option<&[u8]>, order: Order) -> (r: Vec<Vec<u8>>)
        ensures
            exists|s: Seq<(Seq<u8>, Seq<u8>)>|
                is_scan(self@, bound_view(start), bound_view(end), order, s) && s.len() == r@.len()
                    && forall|i: int| 0 <= i < s.len() ==> #[trigger] s[i].0 == r@[i]@,
    {
        let records = self.range(start, end, order);
        let mut keys: Vec<Vec<u8>> = Vec::new();
        let mut i: usize = 0;
        while i < records.len()
            invariant
                0 <= i <= records@.len(),
                keys@.len() == i,
                forall|j: int| 0 <= j < i ==> #[trigger] keys@[j]@ == records.deep_view()[j].0,
            decreases records.len() - i,
        {
            keys.push(slice_to_vec(records[i].0.as_slice()));
            i = i + 1;
        }
        proof {
            let s = records.deep_view();
            assert forall|j: int| 0 <= j < s.len() implies #[trigger] s[j].0 == keys@[j]@ by {}
        }
        keys
    }

    fn range_ascending(&self, start: Option<&[u8]>, end: Option<&[u8]>) -> (r: Vec<(Vec<u8>, Vec<u8>)>)
        ensures
            is_scan(self@, bound_view(start), bound_view(end), Order::Ascending, r.deep_view()),
    {
        proof {
            use_type_invariant(self);
        }
        let ghost m = self@;
        let ghost lo = bound_view(start);
        let ghost hi = bound_view(end);
        let mut out: Vec<(Vec<u8>, Vec<u8>)> = Vec::new();
        let mut cur: Vec<u8> = match start {
            Some(s) => slice_to_vec(s),
            None => Vec::new(),
        };
        proof {
            assert forall|k: Seq<u8>| in_bounds(k, lo, hi) && lex_lt(k, cur@) implies false by {
                if let Some(s) = lo {
                    lemma_lex_irreflexive(s);
                    lemma_lex_asymmetric(s, k);
                }
            }
        }
        loop
            invariant
                m == self@,
                m.dom().finite(),
                lo == bound_view(start),
                hi == bound_view(end),
                forall|k: Seq<u8>| above(k, lo) <== lex_le(cur@, k),
                forall|i: int|
                    0 <= i < out@.len() ==> {
                        &&& m.contains_key(#[trigger] out.deep_view()[i].0)
                        &&& m[out.deep_view()[i].0] == out.deep_view()[i].1
                        &&& in_bounds(out.deep_view()[i].0, lo, hi)
                        &&& lex_lt(out.deep_view()[i].0, cur@)
                    },
                forall|k: Seq<u8>|
                    #[trigger] m.contains_key(k) && in_bounds(k, lo, hi) && lex_lt(k, cur@) ==> exists|i: int|
                        0 <= i < out@.len() && out.deep_view()[i].0 == k,
                forall|i: int, j: int|
                    0 <= i < j < out@.len() ==> lex_lt(#[trigger] out.deep_view()[i].0, #[trigger] out.deep_view()[j].0),
            ensures
                is_scan(m, lo, hi, Order::Ascending, out.deep_view()),
            decreases m.dom().filter(|k: Seq<u8>| lex_le(cur@, k)).len(),
        {
            let ghost old_cur = cur@;
            let ghost old_out = out.deep_view();
            match self.first(Some(cur.as_slice()), end, Order::Ascending) {
                None => {
                    proof {
                        assert forall|k: Seq<u8>| #[trigger] m.contains_key(k) && in_bounds(k, lo, hi) implies exists|i: int|
                            0 <= i < out@.len() && out.deep_view()[i].0 == k by {
                            if !lex_lt(k, cur@) {
                                if k != cur@ {
                                    lemma_lex_total(k, cur@);
                                }
                                assert(in_bounds(k, Some(cur@), hi));
                            }
                        }
                    }
                    return out;
                },
                Some(rec) => {
                    let ghost k = rec.0@;
                    let mut next = slice_to_vec(rec.0.as_slice());
                    next.push(0);
                    out.push(rec);
                    proof {
                        let ov = out.deep_view();
                        assert(ov.len() == old_out.len() + 1);
                        assert forall|i: int| 0 <= i < old_out.len() implies #[trigger] ov[i] == old_out[i] by {}
                        assert(ov[old_out.len() as int] == (k, m[k]));
                        lemma_lex_successor(k, next@);
                        lemma_lex_irreflexive(next@);
                        assert(lex_lt(k, next@));
                        assert forall|k2: Seq<u8>| lex_le(next@, k2) implies above(k2, lo) by {
                            lemma_lex_successor(k, k2);
                            if k != old_cur {
                                lemma_lex_transitive(old_cur, k, k2);
                            }
                        }
                        assert forall|i: int| 0 <= i < ov.len() implies {
                            &&& m.contains_key(#[trigger] ov[i].0)
                            &&& m[ov[i].0] == ov[i].1
                            &&& in_bounds(ov[i].0, lo, hi)
                            &&& lex_lt(ov[i].0, next@)
                        } by {
                            if i < old_out.len() {
                                if k != old_cur {
                                    lemma_lex_transitive(ov[i].0, old_cur, k);
                                }
                                lemma_lex_transitive(ov[i].0, k, next@);
                            }
                        }
                        assert forall|k2: Seq<u8>|
                            #[trigger] m.contains_key(k2) && in_bounds(k2, lo, hi) && lex_lt(k2, next@) implies exists|i: int|
                                0 <= i < ov.len() && ov[i].0 == k2 by {
                            lemma_lex_successor(k, k2);
                            lemma_lex_asymmetric(k2, next@);
                            if k2 == k {
                                assert(ov[old_out.len() as int].0 == k2);
                            } else if lex_lt(k2, old_cur) {
                                let i = choose|i: int| 0 <= i < old_out.len() && old_out[i].0 == k2;
                                assert(ov[i].0 == k2);
                            } else {
                                lemma_lex_total(k2, k);
                                if k2 != old_cur {
                                    lemma_lex_total(k2, old_cur);
                                }
                                assert(in_bounds(k2, Some(old_cur), hi));
                                lemma_lex_asymmetric(k, k2);
                            }
                        }
                        assert forall|i: int, j: int| 0 <= i < j < ov.len() implies lex_lt(#[trigger] ov[i].0, #[trigger] ov[j].0) by {
                            if j == old_out.len() {
                                if k != old_cur {
                                    lemma_lex_transitive(ov[i].0, old_cur, k);
                                }
                            }
                        }
                        let before = m.dom().filter(|x: Seq<u8>| lex_le(old_cur, x));
                        let after = m.dom().filter(|x: Seq<u8>| lex_le(next@, x));
                        lemma_len_subset(before, m.dom());
                        assert(after.subset_of(before.remove(k))) by {
                            assert forall|x: Seq<u8>| after.contains(x) implies before.remove(k).contains(x) by {
                                lemma_lex_successor(k, x);
                                lemma_lex_irreflexive(k);
                                if k != old_cur {
                                    lemma_lex_transitive(old_cur, k, x);
                                }
                            }
                        }
                        assert(before.contains(k));
                        lemma_len_subset(after, before.remove(k));
                    }
                    cur = next;
                },
            }
        }
    }

    fn range_descending(&self, start: Option<&[u8]>, end: Option<&[u8]>) -> (r: Vec<(Vec<u8>, Vec<u8>)>)
        ensures
            is_scan(self@, bound_view(start), bound_view(end), Order::Descending, r.deep_view()),
    {
        proof {
            use_type_invariant(self);
        }
        let ghost m = self@;
        let ghost lo = bound_view(start);
        let ghost hi = bound_view(end);
        let mut out: Vec<(Vec<u8>, Vec<u8>)> = Vec::new();
        let mut cur: Option<Vec<u8>> = match end {
            Some(e) => Some(slice_to_vec(e)),
            None => None,
        };
        loop
            invariant
                m == self@,
                m.dom().finite(),
                lo == bound_view(start),
                hi == bound_view(end),
                forall|k: Seq<u8>| below(k, hi) <== below(k, owned_view(cur)),
                forall|i: int|
                    0 <= i < out@.len() ==> {
                        &&& m.contains_key(#[trigger] out.deep_view()[i].0)
                        &&& m[out.deep_view()[i].0] == out.deep_view()[i].1
                        &&& in_bounds(out.deep_view()[i].0, lo, hi)
                        &&& !below(out.deep_view()[i].0, owned_view(cur))
                    },
                forall|k: Seq<u8>|
                    #[trigger] m.contains_key(k) && in_bounds(k, lo, hi) && !below(k, owned_view(cur)) ==> exists|i: int|
                        0 <= i < out@.len() && out.deep_view()[i].0 == k,
                forall|i: int, j: int|
                    0 <= i < j < out@.len() ==> lex_lt(#[trigger] out.deep_view()[j].0, #[trigger] out.deep_view()[i].0),
            ensures
                is_scan(m, lo, hi, Order::Descending, out.deep_view()),
            decreases m.dom().filter(|k: Seq<u8>| below(k, owned_view(cur))).len(),
        {
            let ghost old_cur = owned_view(cur);
            let ghost old_out = out.deep_view();
            let found = match &cur {
                Some(c) => self.first(start, Some(c.as_slice()), Order::Descending),
                None => self.first(start, None, Order::Descending),
            };
            match found {
                None => {
                    proof {
                        assert forall|k: Seq<u8>| #[trigger] m.contains_key(k) && in_bounds(k, lo, hi) implies exists|i: int|
                            0 <= i < out@.len() && out.deep_view()[i].0 == k by {
                            if below(k, old_cur) {
                                assert(in_bounds(k, lo, old_cur));
                            }
                        }
                    }
                    return out;
                },
                Some(rec) => {
                    let ghost k = rec.0@;
                    let next = slice_to_vec(rec.0.as_slice());
                    out.push(rec);
                    proof {
                        let ov = out.deep_view();
                        assert(ov.len() == old_out.len() + 1);
                        assert forall|i: int| 0 <= i < old_out.len() implies #[trigger] ov[i] == old_out[i] by {}
                        assert(ov[old_out.len() as int] == (k, m[k]));
                        assert(below(k, old_cur));
                        assert forall|k2: Seq<u8>| below(k2, Some(next@)) implies below(k2, hi) by {
                            if let Some(c) = old_cur {
                                lemma_lex_transitive(k2, k, c);
                            }
                        }
                        assert forall|i: int| 0 <= i < ov.len() implies {
                            &&& m.contains_key(#[trigger] ov[i].0)
                            &&& m[ov[i].0] == ov[i].1
                            &&& in_bounds(ov[i].0, lo, hi)
                            &&& !below(ov[i].0, Some(next@))
                        } by {
                            if i < old_out.len() {
                                if let Some(c) = old_cur {
                                    if ov[i].0 != c {
                                        assert(ov[i] == old_out[i]);
                                        lemma_lex_total(ov[i].0, c);
                                        lemma_lex_transitive(k, c, ov[i].0);
                                    }
                                    lemma_lex_asymmetric(k, ov[i].0);
                                }
                            } else {
                                lemma_lex_irreflexive(k);
                            }
                        }
                        assert forall|k2: Seq<u8>|
                            #[trigger] m.contains_key(k2) && in_bounds(k2, lo, hi) && !below(k2, Some(next@)) implies exists|i: int|
                                0 <= i < ov.len() && ov[i].0 == k2 by {
                            if k2 == k {
                                assert(ov[old_out.len() as int].0 == k2);
                            } else if !below(k2, old_cur) {
                                let i = choose|i: int| 0 <= i < old_out.len() && old_out[i].0 == k2;
                                assert(ov[i].0 == k2);
                            } else {
                                assert(in_bounds(k2, lo, old_cur));
                                lemma_lex_total(k2, k);
                                lemma_lex_asymmetric(k2, k);
                            }
                        }
                        assert forall|i: int, j: int| 0 <= i < j < ov.len() implies lex_lt(#[trigger] ov[j].0, #[trigger] ov[i].0) by {
                            if j == old_out.len() {
                                if let Some(c) = old_cur {
                                    if ov[i].0 != c {
                                        assert(ov[i] == old_out[i]);
                                        lemma_lex_total(ov[i].0, c);
                                        lemma_lex_transitive(k, c, ov[i].0);
                                    }
                                }
                            }
                        }
                        let before = m.dom().filter(|x: Seq<u8>| below(x, old_cur));
                        let after = m.dom().filter(|x: Seq<u8>| below(x, Some(next@)));
                        lemma_len_subset(before, m.dom());
                        assert(after.subset_of(before.remove(k))) by {
                            assert forall|x: Seq<u8>| after.contains(x) implies before.remove(k).contains(x) by {
                                lemma_lex_irreflexive(k);
                                if let Some(c) = old_cur {
                                    lemma_lex_transitive(x, k, c);
                                }
                            }
                        }
                        assert(before.contains(k));
                        lemma_len_subset(after, before.remove(k));
                    }
                    cur = Some(next);
                },
            }
        }
    }
}

/// An optional owned bound as a byte sequence.
pub open spec fn owned_view(b: Option<Vec<u8>>) -> Option<Seq<u8>> {
    match b {
        Some(v) => Some(v@),
        None => None,
    }
}

/// A write outside the range of a scan leaves the scan's result as it was.
pub proof fn lemma_scan_frame(
    m: Map<Seq<u8>, Seq<u8>>,
    start: Option<Seq<u8>>,
    end: Option<Seq<u8>>,
    order: Order,
    out: Seq<(Seq<u8>, Seq<u8>)>,
    x: Seq<u8>,
    v: Seq<u8>,
)
    requires
        is_scan(m, start, end, order, out),
        !in_bounds(x, start, end),
    ensures
        is_scan(m.insert(x, v), start, end, order, out),
        is_scan(m.remove(x), start, end, order, out),
{
    let mi = m.insert(x, v);
    let mr = m.remove(x);
    assert forall|k: Seq<u8>| #[trigger] mi.contains_key(k) && in_bounds(k, start, end) implies exists|i: int|
        0 <= i < out.len() && out[i].0 == k by {
        assert(m.contains_key(k));
    }
    assert forall|k: Seq<u8>| #[trigger] mr.contains_key(k) && in_bounds(k, start, end) implies exists|i: int|
        0 <= i < out.len() && out[i].0 == k by {
        assert(m.contains_key(k));
    }
}

} // verus!
