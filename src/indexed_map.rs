//! A map whose records are mirrored into secondary indexes, kept in step on every write.
use vstd::prelude::*;
use vstd::slice::slice_to_vec;

use crate::bound::{end_bound, start_bound, RawBound};
use crate::codec::{length_prefixed, lemma_split_first_prefixed, nested_prefix};
use crate::error::StorageError;
use crate::indexes::{entry_path, entry_value, Index};
use crate::bound::incremented;
use crate::map::{lemma_key_under_map, lemma_namespace_isolation, map_prefix, StorageMap};
use crate::namespace::Namespace;
use crate::order::{bytes_lt, lemma_bytes_deep_view, lemma_concat_eq, lemma_lex_irreflexive, lemma_lex_total};
use crate::path::{addressable, bytes_view, key_path, stored};
use crate::bound::{prefix_end_bound, prefix_start_bound};
use crate::codec::prefixable;
use crate::codec::{Atom, AtomKind};
use crate::prefix::{
    keys_under, prefix_scan_result, records_view, typed_keys_result, typed_prefix_range_result, typed_scan_result, Prefix,
};
use crate::store::{in_bounds, Order, Store};

verus! {

broadcast use lemma_bytes_deep_view;

/// `m` with the entries of `pk` under `keys` removed from the indexes, first to last.
pub open spec fn without_entries(m: Map<Seq<u8>, Seq<u8>>, idx: Seq<Index>, pk: Seq<u8>, keys: Seq<Seq<u8>>) -> Map<Seq<u8>, Seq<u8>>
    decreases idx.len(),
{
    if idx.len() == 0 {
        m
    } else {
        without_entries(m, idx.drop_last(), pk, keys).remove(
            entry_path(idx.last().is_unique(), idx.last().ns(), keys[idx.len() - 1], pk),
        )
    }
}

/// `m` with the entries of record `v` of `pk` under `keys` added to the indexes, first to last.
pub open spec fn with_entries(m: Map<Seq<u8>, Seq<u8>>, idx: Seq<Index>, pk: Seq<u8>, keys: Seq<Seq<u8>>, v: Seq<u8>) -> Map<Seq<u8>, Seq<u8>>
    decreases idx.len(),
{
    if idx.len() == 0 {
        m
    } else {
        with_entries(m, idx.drop_last(), pk, keys, v).insert(
            entry_path(idx.last().is_unique(), idx.last().ns(), keys[idx.len() - 1], pk),
            entry_value(idx.last().is_unique(), pk, v),
        )
    }
}

/// A unique index already holds an entry under the new secondary key, and that entry is not
/// the one the record's previous value put there.
pub open spec fn conflicts(m: Map<Seq<u8>, Seq<u8>>, idx: Seq<Index>, pk: Seq<u8>, new_keys: Seq<Seq<u8>>, old_keys: Option<Seq<Seq<u8>>>) -> bool {
    exists|i: int|
        0 <= i < idx.len() && #[trigger] idx[i].is_unique() && m.contains_key(entry_path(true, idx[i].ns(), new_keys[i], pk))
            && !(old_keys matches Some(o) && o[i] == new_keys[i])
}

pub open spec fn keys_opt(o: Option<Vec<Vec<u8>>>) -> Option<Seq<Seq<u8>>> {
    match o {
        Some(k) => Some(k.deep_view()),
        None => None,
    }
}

/// Compares two byte strings for equality.
fn bytes_eq(a: &[u8], b: &[u8]) -> (r: bool)
    ensures
        r == (a@ == b@),
{
    let lt = bytes_lt(a, b);
    let gt = bytes_lt(b, a);
    proof {
        lemma_lex_irreflexive(a@);
        if a@ != b@ {
            lemma_lex_total(a@, b@);
        }
    }
    !lt && !gt
}

pub open spec fn slice_opt(o: Option<&[u8]>) -> Option<Seq<u8>> {
    match o {
        Some(v) => Some(v@),
        None => None,
    }
}

/// An indexed map: a primary map plus secondary indexes whose keys `derive` computes from a
/// primary key and a record, one key per index.
pub struct IndexedMap<F> {
    primary: StorageMap,
    indexes: Vec<Index>,
    derive: F,
}

impl<F: Fn(&[u8], &[u8]) -> Vec<Vec<u8>>> IndexedMap<F> {
    pub closed spec fn pk_ns(&self) -> Seq<u8> {
        self.primary@
    }

    pub closed spec fn idx(&self) -> Seq<Index> {
        self.indexes@
    }

    pub closed spec fn derive_fn(&self) -> F {
        self.derive
    }

    /// `keys` are the secondary keys that `derive` gives for record `v` of `pk`.
    pub open spec fn derives(&self, pk: &[u8], v: &[u8], keys: Seq<Seq<u8>>) -> bool {
        exists|r: Vec<Vec<u8>>| self.derive_fn().ensures((pk, v), r) && r.deep_view() == keys
    }

    /// Namespaces fit their length headers, and `derive` always answers with one short enough
    /// key per index.
    pub open spec fn wf(&self) -> bool {
        &&& self.pk_ns().len() < 65536
        &&& forall|i: int| 0 <= i < self.idx().len() ==> (#[trigger] self.idx()[i]).ns().len() < 65536
        &&& forall|pk: &[u8], v: &[u8]| #[trigger] self.derive_fn().requires((pk, v))
        &&& forall|pk: &[u8], v: &[u8], r: Vec<Vec<u8>>|
            #[trigger] self.derive_fn().ensures((pk, v), r) ==> r@.len() == self.idx().len() && forall|j: int|
                0 <= j < r@.len() ==> (#[trigger] r@[j])@.len() < 65536
    }

    /// Where the record of `pk` is stored.
    pub open spec fn primary_path(&self, pk: Seq<u8>) -> Seq<u8> {
        key_path(self.pk_ns(), seq![pk])
    }

    /// The effect of replacing the record of `pk`, which was `old_data`, with `data`, where
    /// `derive` gave `ok` for the old record and `nk` for the new one: when a unique index
    /// conflicts, `UniqueConstraintViolation` and nothing written; otherwise the old entries
    /// removed, the new ones added, and the primary record written or removed.
    pub open spec fn replace_effect_with(
        &self,
        m0: Map<Seq<u8>, Seq<u8>>,
        m1: Map<Seq<u8>, Seq<u8>>,
        r: Result<(), StorageError>,
        pk: &[u8],
        data: Option<&[u8]>,
        old_data: Option<&[u8]>,
        ok: Option<Seq<Seq<u8>>>,
        nk: Seq<Seq<u8>>,
    ) -> bool {
        &&& match old_data {
            Some(o) => ok matches Some(k) && self.derives(pk, o, k),
            None => ok is None,
        }
        &&& (data matches Some(d) ==> self.derives(pk, d, nk))
        &&& if data is Some && conflicts(m0, self.idx(), pk@, nk, ok) {
            r == Err::<(), StorageError>(StorageError::UniqueConstraintViolation) && m1 == m0
        } else {
            let cleared = match ok {
                Some(k) => without_entries(m0, self.idx(), pk@, k),
                None => m0,
            };
            &&& r is Ok
            &&& m1 == match data {
                Some(d) => with_entries(cleared, self.idx(), pk@, nk, d@).insert(self.primary_path(pk@), d@),
                None => cleared.remove(self.primary_path(pk@)),
            }
        }
    }

    /// The effect of a replace, for the keys that `derive` gives.
    pub open spec fn replace_effect(
        &self,
        m0: Map<Seq<u8>, Seq<u8>>,
        m1: Map<Seq<u8>, Seq<u8>>,
        r: Result<(), StorageError>,
        pk: &[u8],
        data: Option<&[u8]>,
        old_data: Option<&[u8]>,
    ) -> bool {
        exists|ok: Option<Seq<Seq<u8>>>, nk: Seq<Seq<u8>>| #[trigger] self.replace_effect_with(m0, m1, r, pk, data, old_data, ok, nk)
    }

    /// An indexed map under the namespace with the given name.
    pub fn new(pk_namespace: &'static str, indexes: Vec<Index>, derive: F) -> (r: IndexedMap<F>)
        ensures
            r.pk_ns() == vstd::utf8::encode_utf8(pk_namespace@),
            r.idx() == indexes@,
            r.derive_fn() == derive,
    {
        IndexedMap { primary: StorageMap::new(pk_namespace), indexes, derive }
    }

    /// An indexed map under the given namespace.
    pub fn new_dyn(pk_namespace: Namespace, indexes: Vec<Index>, derive: F) -> (r: IndexedMap<F>)
        ensures
            r.pk_ns() == pk_namespace@,
            r.idx() == indexes@,
            r.derive_fn() == derive,
    {
        IndexedMap { primary: StorageMap::new_dyn(pk_namespace), indexes, derive }
    }

    fn pk_atoms(pk: &[u8]) -> (r: Vec<Vec<u8>>)
        ensures
            r.deep_view() == seq![pk@],
    {
        let mut k: Vec<Vec<u8>> = Vec::new();
        k.push(slice_to_vec(pk));
        proof { assert(k.deep_view() =~= seq![pk@]); }
        k
    }

    /// Whether a unique index already holds an entry under a new key that is not the record's
    /// own.
    fn find_conflict(&self, store: &Store, pk: &[u8], new_keys: &Vec<Vec<u8>>, old_keys: &Option<Vec<Vec<u8>>>) -> (r: bool)
        requires
            self.wf(),
            new_keys@.len() == self.idx().len(),
            forall|j: int| 0 <= j < new_keys@.len() ==> (#[trigger] new_keys@[j])@.len() < 65536,
            old_keys matches Some(o) ==> o@.len() == self.idx().len(),
        ensures
            r == conflicts(store@, self.idx(), pk@, new_keys.deep_view(), keys_opt(*old_keys)),
    {
        let n = self.indexes.len();
        let mut i: usize = 0;
        while i < n
            invariant
                self.wf(),
                n == self.idx().len(),
                new_keys@.len() == n,
                forall|j: int| 0 <= j < new_keys@.len() ==> (#[trigger] new_keys@[j])@.len() < 65536,
                old_keys matches Some(o) ==> o@.len() == n,
                0 <= i <= n,
                forall|j: int| 0 <= j < i ==> !(#[trigger] self.idx()[j].is_unique() && store@.contains_key(
                    entry_path(true, self.idx()[j].ns(), new_keys.deep_view()[j], pk@))
                    && !(keys_opt(*old_keys) matches Some(o) && o[j] == new_keys.deep_view()[j])),
            decreases n - i,
        {
            let index = &self.indexes[i];
            let unique = match index {
                Index::Unique(_) => true,
                Index::Multi(_) => false,
            };
            if unique {
                let taken = index.has(store, pk, new_keys[i].as_slice());
                let own = match old_keys {
                    Some(o) => bytes_eq(o[i].as_slice(), new_keys[i].as_slice()),
                    None => false,
                };
                if taken && !own {
                    proof {
                        let ghost j = i as int;
                        assert(self.idx()[j].is_unique());
                    }
                    return true;
                }
            }
            i = i + 1;
        }
        false
    }

    /// Removes the entries of `pk` under `keys` from every index.
    fn remove_entries(&self, store: &mut Store, pk: &[u8], keys: &Vec<Vec<u8>>)
        requires
            self.wf(),
            keys@.len() == self.idx().len(),
            forall|j: int| 0 <= j < keys@.len() ==> (#[trigger] keys@[j])@.len() < 65536,
        ensures
            final(store)@ == without_entries(old(store)@, self.idx(), pk@, keys.deep_view()),
    {
        let n = self.indexes.len();
        let mut i: usize = 0;
        proof { assert(self.idx().subrange(0, 0) =~= Seq::<Index>::empty()); }
        while i < n
            invariant
                self.wf(),
                n == self.idx().len(),
                keys@.len() == n,
                forall|j: int| 0 <= j < keys@.len() ==> (#[trigger] keys@[j])@.len() < 65536,
                0 <= i <= n,
                store@ == without_entries(old(store)@, self.idx().subrange(0, i as int), pk@, keys.deep_view()),
            decreases n - i,
        {
            self.indexes[i].remove(store, pk, keys[i].as_slice());
            proof {
                let s = self.idx().subrange(0, i + 1);
                assert(s.drop_last() =~= self.idx().subrange(0, i as int));
                assert(s.last() == self.idx()[i as int]);
            }
            i = i + 1;
        }
        proof { assert(self.idx().subrange(0, n as int) =~= self.idx()); }
    }

    /// Adds the entries of record `value` of `pk` under `keys` to every index.
    fn add_entries(&self, store: &mut Store, pk: &[u8], keys: &Vec<Vec<u8>>, value: &[u8])
        requires
            self.wf(),
            pk@.len() < 65536,
            value@.len() > 0,
            keys@.len() == self.idx().len(),
            forall|j: int| 0 <= j < keys@.len() ==> (#[trigger] keys@[j])@.len() < 65536,
        ensures
            final(store)@ == with_entries(old(store)@, self.idx(), pk@, keys.deep_view(), value@),
    {
        let n = self.indexes.len();
        let mut i: usize = 0;
        proof { assert(self.idx().subrange(0, 0) =~= Seq::<Index>::empty()); }
        while i < n
            invariant
                self.wf(),
                n == self.idx().len(),
                pk@.len() < 65536,
                value@.len() > 0,
                keys@.len() == n,
                forall|j: int| 0 <= j < keys@.len() ==> (#[trigger] keys@[j])@.len() < 65536,
                0 <= i <= n,
                store@ == with_entries(old(store)@, self.idx().subrange(0, i as int), pk@, keys.deep_view(), value@),
            decreases n - i,
        {
            self.indexes[i].put(store, pk, keys[i].as_slice(), value);
            proof {
                let s = self.idx().subrange(0, i + 1);
                assert(s.drop_last() =~= self.idx().subrange(0, i as int));
                assert(s.last() == self.idx()[i as int]);
            }
            i = i + 1;
        }
        proof { assert(self.idx().subrange(0, n as int) =~= self.idx()); }
    }

    /// The secondary indexes, in the order they are maintained.
    pub fn indexes(&self) -> (r: &Vec<Index>)
        ensures
            r@ == self.idx(),
    {
        &self.indexes
    }

    /// The storage path of the record of `pk`.
    pub fn key(&self, pk: &[u8]) -> (r: crate::path::Path)
        requires
            self.wf(),
        ensures
            r@ == self.primary_path(pk@),
    {
        self.primary.key(&Self::pk_atoms(pk))
    }

    /// Writes `data` as the record of `pk`, or removes it when `data` is `None`, given that the
    /// record currently is `old_data`; the indexes follow.
    pub fn replace(&self, store: &mut Store, pk: &[u8], data: Option<&[u8]>, old_data: Option<&[u8]>) -> (r: Result<(), StorageError>)
        requires
            self.wf(),
            pk@.len() < 65536,
            data matches Some(d) ==> d@.len() > 0,
        ensures
            self.replace_effect(old(store)@, final(store)@, r, pk, data, old_data),
    {
        let ghost m0 = store@;
        let old_keys: Option<Vec<Vec<u8>>> = match old_data {
            Some(o) => {
                proof { assert(self.derive_fn().requires((pk, o))); }
                Some((self.derive)(pk, o))
            },
            None => None,
        };
        let ghost ok = keys_opt(old_keys);
        proof {
            if let Some(o) = old_data {
                let k = old_keys.unwrap();
                assert(self.derive_fn().ensures((pk, o), k));
                assert(self.derives(pk, o, k.deep_view()));
            }
        }
        match data {
            None => {
                if let Some(ok_keys) = &old_keys {
                    self.remove_entries(store, pk, ok_keys);
                }
                self.primary.remove(store, &Self::pk_atoms(pk));
                proof {
                    assert(self.replace_effect_with(m0, store@, Ok(()), pk, data, old_data, ok, Seq::<Seq<u8>>::empty()));
                }
                Ok(())
            },
            Some(d) => {
                proof { assert(self.derive_fn().requires((pk, d))); }
                let new_keys = (self.derive)(pk, d);
                proof {
                    assert(self.derive_fn().ensures((pk, d), new_keys));
                    assert(self.derives(pk, d, new_keys.deep_view()));
                }
                if self.find_conflict(store, pk, &new_keys, &old_keys) {
                    proof {
                        assert(self.replace_effect_with(m0, store@, Err(StorageError::UniqueConstraintViolation), pk, data, old_data, ok,
                            new_keys.deep_view()));
                    }
                    return Err(StorageError::UniqueConstraintViolation);
                }
                if let Some(ok_keys) = &old_keys {
                    self.remove_entries(store, pk, ok_keys);
                }
                self.add_entries(store, pk, &new_keys, d);
                self.primary.save(store, &Self::pk_atoms(pk), d);
                proof {
                    assert(self.replace_effect_with(m0, store@, Ok(()), pk, data, old_data, ok, new_keys.deep_view()));
                }
                Ok(())
            },
        }
    }

    /// Stores `data` as the record of `pk`: the previous record's index entries are removed and
    /// the new ones added. A unique index that already holds the new secondary key for another
    /// record makes it fail with `UniqueConstraintViolation`, and then nothing is written.
    pub fn save(&self, store: &mut Store, pk: &[u8], data: &[u8]) -> (r: Result<(), StorageError>)
        requires
            self.wf(),
            pk@.len() < 65536,
            data@.len() > 0,
        ensures
            exists|od: Option<&[u8]>| {
                &&& slice_opt(od) == stored(old(store)@, self.primary_path(pk@))
                &&& self.replace_effect(old(store)@, final(store)@, r, pk, Some(data), od)
            },
    {
        let old_value = self.primary.may_load(store, &Self::pk_atoms(pk));
        match old_value {
            Some(o) => {
                let os = o.as_slice();
                let r = self.replace(store, pk, Some(data), Some(os));
                proof { assert(slice_opt(Some(os)) == stored(old(store)@, self.primary_path(pk@))); }
                r
            },
            None => {
                let r = self.replace(store, pk, Some(data), None);
                proof { assert(slice_opt(None) == stored(old(store)@, self.primary_path(pk@))); }
                r
            },
        }
    }

    /// Removes the record of `pk` and its index entries; removing an absent record changes
    /// nothing.
    pub fn remove(&self, store: &mut Store, pk: &[u8]) -> (r: Result<(), StorageError>)
        requires
            self.wf(),
            pk@.len() < 65536,
        ensures
            r is Ok,
            exists|od: Option<&[u8]>| {
                &&& slice_opt(od) == stored(old(store)@, self.primary_path(pk@))
                &&& self.replace_effect(old(store)@, final(store)@, r, pk, None, od)
            },
    {
        let old_value = self.primary.may_load(store, &Self::pk_atoms(pk));
        match old_value {
            Some(o) => {
                let os = o.as_slice();
                let r = self.replace(store, pk, None, Some(os));
                proof { assert(slice_opt(Some(os)) == stored(old(store)@, self.primary_path(pk@))); }
                r
            },
            None => {
                let r = self.replace(store, pk, None, None);
                proof { assert(slice_opt(None) == stored(old(store)@, self.primary_path(pk@))); }
                r
            },
        }
    }

    /// Loads the record of `pk`, hands it to `action`, and saves what the action returns with
    /// the indexes kept in step. When the action fails nothing is written; when a unique index
    /// conflicts, the `UniqueConstraintViolation` comes back converted and nothing is written.
    pub fn update<A, E>(&self, store: &mut Store, pk: &[u8], action: A) -> (r: Result<Vec<u8>, E>)
        where
            A: FnOnce(Option<Vec<u8>>) -> Result<Vec<u8>, E>,
            E: From<StorageError>,
        requires
            self.wf(),
            pk@.len() < 65536,
            forall|input: Option<Vec<u8>>| #[trigger] action.requires((input,)),
            forall|input: Option<Vec<u8>>, out: Result<Vec<u8>, E>|
                #[trigger] action.ensures((input,), out) ==> (out matches Ok(v) ==> v@.len() > 0),
        ensures
            exists|input: Option<Vec<u8>>, out: Result<Vec<u8>, E>| {
                &&& bytes_view(input) == stored(old(store)@, self.primary_path(pk@))
                &&& #[trigger] action.ensures((input,), out)
                &&& match out {
                    Err(e) => r == Err::<Vec<u8>, E>(e) && final(store)@ == old(store)@,
                    Ok(v) => exists|vs: &[u8], od: Option<&[u8]>, rr: Result<(), StorageError>| {
                        &&& vs@ == v@
                        &&& slice_opt(od) == stored(old(store)@, self.primary_path(pk@))
                        &&& #[trigger] self.replace_effect(old(store)@, final(store)@, rr, pk, Some(vs), od)
                        &&& match rr {
                            Ok(_) => r == Ok::<Vec<u8>, E>(v),
                            Err(e2) => r matches Err(e3) && call_ensures(E::from, (e2,), e3),
                        }
                    },
                }
            },
    {
        let input = self.primary.may_load(store, &Self::pk_atoms(pk));
        let previous: Option<Vec<u8>> = match &input {
            Some(v) => Some(slice_to_vec(v.as_slice())),
            None => None,
        };
        let ghost input_ghost = input;
        let out = action(input);
        match out {
            Err(e) => Err(e),
            Ok(v) => {
                let vs = v.as_slice();
                let ps: Option<&[u8]> = match &previous {
                    Some(p) => Some(p.as_slice()),
                    None => None,
                };
                proof {
                    assert(slice_opt(ps) == stored(old(store)@, self.primary_path(pk@)));
                }
                let rr = self.replace(store, pk, Some(vs), ps);
                match rr {
                    Ok(()) => Ok(v),
                    Err(e) => Err(E::from(e)),
                }
            },
        }
    }

    /// The record of `pk`, or `NotFound`.
    pub fn load(&self, store: &Store, pk: &[u8]) -> (r: Result<Vec<u8>, StorageError>)
        requires
            self.wf(),
        ensures
            r matches Ok(v) ==> stored(store@, self.primary_path(pk@)) == Some(v@),
            r matches Err(e) ==> stored(store@, self.primary_path(pk@)) is None && e == StorageError::NotFound,
    {
        self.primary.load(store, &Self::pk_atoms(pk))
    }

    /// The record of `pk`, if any.
    pub fn may_load(&self, store: &Store, pk: &[u8]) -> (r: Option<Vec<u8>>)
        requires
            self.wf(),
        ensures
            bytes_view(r) == stored(store@, self.primary_path(pk@)),
    {
        self.primary.may_load(store, &Self::pk_atoms(pk))
    }

    /// Whether a record is stored under `pk`.
    pub fn has(&self, store: &Store, pk: &[u8]) -> (r: bool)
        requires
            self.wf(),
        ensures
            r == store@.contains_key(self.primary_path(pk@)),
    {
        self.primary.has(store, &Self::pk_atoms(pk))
    }

    /// Removes every primary record and then every entry of each index, so that no index entry
    /// outlives its record.
    pub fn clear(&self, store: &mut Store)
        requires
            self.wf(),
        ensures
            final(store)@ == clear_indexes(old(store)@.remove_keys(keys_under(old(store)@, map_prefix(self.pk_ns()))), self.idx()),
    {
        self.primary.clear(store);
        let ghost m1 = store@;
        let n = self.indexes.len();
        let mut i: usize = 0;
        proof { assert(self.idx().subrange(0, 0) =~= Seq::<Index>::empty()); }
        while i < n
            invariant
                self.wf(),
                n == self.idx().len(),
                0 <= i <= n,
                store@ == clear_indexes(m1, self.idx().subrange(0, i as int)),
            decreases n - i,
        {
            let ghost before = store@;
            self.indexes[i].no_prefix().clear(store, None);
            proof {
                let s = self.idx().subrange(0, i + 1);
                assert(s.drop_last() =~= self.idx().subrange(0, i as int));
                assert(s.last() == self.idx()[i as int]);
            }
            i = i + 1;
        }
        proof { assert(self.idx().subrange(0, n as int) =~= self.idx()); }
    }

    /// Whether no primary record is stored.
    pub fn is_empty(&self, store: &Store) -> (r: bool)
        requires
            self.wf(),
        ensures
            r == keys_under(store@, map_prefix(self.pk_ns())).is_empty(),
    {
        self.primary.is_empty(store)
    }

    /// Records whose primary keys lie within the bounds: keys and raw values, in order.
    pub fn range_raw(&self, store: &Store, min: Option<&RawBound>, max: Option<&RawBound>, order: Order) -> (r: Result<Vec<(Vec<u8>, Vec<u8>)>, StorageError>)
        requires
            self.wf(),
        ensures
            prefix_scan_result(store@, map_prefix(self.pk_ns()), start_bound(map_prefix(self.pk_ns()), min),
                end_bound(map_prefix(self.pk_ns()), max), order, records_view(r)),
    {
        self.primary.range_raw(store, min, max, order)
    }

    /// Records within the bounds, each primary key decoded by `kinds`.
    pub fn range(&self, store: &Store, min: Option<&RawBound>, max: Option<&RawBound>, order: Order, kinds: &Vec<AtomKind>)
        -> (r: Result<Vec<Result<(Vec<Atom>, Vec<u8>), StorageError>>, StorageError>)
        requires
            self.wf(),
        ensures
            typed_scan_result(store@, map_prefix(self.pk_ns()), start_bound(map_prefix(self.pk_ns()), min),
                end_bound(map_prefix(self.pk_ns()), max), order, kinds@, r),
    {
        self.primary.range(store, min, max, order, kinds)
    }

    /// Primary keys within the bounds, each decoded by `kinds`.
    pub fn keys(&self, store: &Store, min: Option<&RawBound>, max: Option<&RawBound>, order: Order, kinds: &Vec<AtomKind>)
        -> (r: Result<Vec<Result<Vec<Atom>, StorageError>>, StorageError>)
        requires
            self.wf(),
        ensures
            typed_keys_result(store@, map_prefix(self.pk_ns()), start_bound(map_prefix(self.pk_ns()), min),
                end_bound(map_prefix(self.pk_ns()), max), order, kinds@, r),
    {
        self.primary.keys(store, min, max, order, kinds)
    }

    /// Records whose leading primary-key atoms lie between two prefix bounds, each key decoded by
    /// `kinds`.
    pub fn prefix_range(&self, store: &Store, min: Option<&RawBound>, max: Option<&RawBound>, order: Order, kinds: &Vec<AtomKind>)
        -> (r: Result<Vec<Result<(Vec<Atom>, Vec<u8>), StorageError>>, StorageError>)
        requires
            self.wf(),
        ensures
            typed_prefix_range_result(store@, map_prefix(self.pk_ns()), min, max, order, kinds@, r),
    {
        self.primary.prefix_range(store, min, max, order, kinds)
    }

    /// The records whose primary keys start with the atoms `p`.
    pub fn prefix(&self, p: &Vec<Vec<u8>>) -> (r: Prefix)
        requires
            self.wf(),
            prefixable(p.deep_view()),
        ensures
            r@ == nested_prefix(seq![self.pk_ns()] + p.deep_view()),
    {
        self.primary.prefix(p)
    }

    /// The records whose primary keys start with the atoms `p`, shorter than a key's prefix.
    pub fn sub_prefix(&self, p: &Vec<Vec<u8>>) -> (r: Prefix)
        requires
            self.wf(),
            prefixable(p.deep_view()),
        ensures
            r@ == nested_prefix(seq![self.pk_ns()] + p.deep_view()),
    {
        self.primary.sub_prefix(p)
    }

    /// Records whose leading primary-key atoms lie between two prefix bounds.
    pub fn prefix_range_raw(&self, store: &Store, min: Option<&RawBound>, max: Option<&RawBound>, order: Order) -> (r: Result<Vec<(Vec<u8>, Vec<u8>)>, StorageError>)
        requires
            self.wf(),
        ensures
            r is Err <==> (prefix_start_bound(map_prefix(self.pk_ns()), min) is None
                || prefix_end_bound(map_prefix(self.pk_ns()), max) is None
                || prefix_scan_result(store@, map_prefix(self.pk_ns()),
                    prefix_start_bound(map_prefix(self.pk_ns()), min).unwrap(),
                    prefix_end_bound(map_prefix(self.pk_ns()), max).unwrap(), order, Err(StorageError::InvariantViolation))),
            r matches Err(e) ==> e == StorageError::InvariantViolation,
            r matches Ok(out) ==> prefix_scan_result(store@, map_prefix(self.pk_ns()),
                prefix_start_bound(map_prefix(self.pk_ns()), min).unwrap(),
                prefix_end_bound(map_prefix(self.pk_ns()), max).unwrap(), order, Ok(out.deep_view())),
    {
        self.primary.prefix_range_raw(store, min, max, order)
    }

    /// The primary keys within the bounds, in order.
    pub fn keys_raw(&self, store: &Store, min: Option<&RawBound>, max: Option<&RawBound>, order: Order) -> (r: Result<Vec<Vec<u8>>, StorageError>)
        requires
            self.wf(),
        ensures
            exists|full: Result<Seq<(Seq<u8>, Seq<u8>)>, StorageError>| {
                &&& prefix_scan_result(store@, map_prefix(self.pk_ns()), start_bound(map_prefix(self.pk_ns()), min),
                    end_bound(map_prefix(self.pk_ns()), max), order, full)
                &&& match (full, r) {
                    (Ok(f), Ok(k)) => k@.len() == f.len() && forall|i: int| 0 <= i < f.len() ==> #[trigger] k@[i]@ == f[i].0,
                    (Err(a), Err(b)) => a == b,
                    _ => false,
                }
            },
    {
        self.primary.keys_raw(store, min, max, order)
    }
}


/// `m` with everything in the scan range of each index namespace removed, first to last.
pub open spec fn clear_indexes(m: Map<Seq<u8>, Seq<u8>>, idx: Seq<Index>) -> Map<Seq<u8>, Seq<u8>>
    decreases idx.len(),
{
    if idx.len() == 0 {
        m
    } else {
        let m1 = clear_indexes(m, idx.drop_last());
        m1.remove_keys(keys_under(m1, map_prefix(idx.last().ns())))
    }
}

/// Clearing the indexes only removes entries, and leaves none under any index namespace.
proof fn lemma_clear_indexes(m: Map<Seq<u8>, Seq<u8>>, idx: Seq<Index>)
    ensures
        forall|x: Seq<u8>| #[trigger] clear_indexes(m, idx).contains_key(x) ==> m.contains_key(x) && clear_indexes(m, idx)[x] == m[x],
        forall|j: int| 0 <= j < idx.len() ==> keys_under(clear_indexes(m, idx), map_prefix((#[trigger] idx[j]).ns())).is_empty(),
    decreases idx.len(),
{
    if idx.len() > 0 {
        let front = idx.drop_last();
        lemma_clear_indexes(m, front);
        let m1 = clear_indexes(m, front);
        let r = clear_indexes(m, idx);
        assert forall|j: int| 0 <= j < idx.len() implies keys_under(r, map_prefix((#[trigger] idx[j]).ns())).is_empty() by {
            if j < idx.len() - 1 {
                assert(idx[j] == front[j]);
                assert(keys_under(m1, map_prefix(front[j].ns())).is_empty());
                assert(keys_under(r, map_prefix(idx[j].ns())) =~= Set::<Seq<u8>>::empty()) by {
                    assert forall|x: Seq<u8>| !keys_under(r, map_prefix(idx[j].ns())).contains(x) by {
                        if keys_under(r, map_prefix(idx[j].ns())).contains(x) {
                            assert(keys_under(m1, map_prefix(front[j].ns())).contains(x));
                        }
                    }
                }
            } else {
                assert(keys_under(r, map_prefix(idx[j].ns())) =~= Set::<Seq<u8>>::empty());
            }
        }
    }
}

/// The namespaces of an indexed map and its indexes are pairwise different.
pub open spec fn distinct_namespaces(pk_ns: Seq<u8>, idx: Seq<Index>) -> bool {
    &&& forall|i: int| 0 <= i < idx.len() ==> (#[trigger] idx[i]).ns() != pk_ns
    &&& forall|i: int, j: int| 0 <= i < j < idx.len() ==> (#[trigger] idx[i]).ns() != (#[trigger] idx[j]).ns()
}

/// The address of an index entry lies in the scan range of its index's namespace.
proof fn lemma_entry_in_namespace(ix: Index, sk: Seq<u8>, pk: Seq<u8>, other: Seq<u8>)
    requires
        ix.ns().len() < 65536,
        sk.len() < 65536,
        other.len() < 65536,
        other != ix.ns(),
    ensures
        !in_bounds(entry_path(ix.is_unique(), ix.ns(), sk, pk), Some(map_prefix(other)), incremented(map_prefix(other))),
{
    if ix.is_unique() {
        lemma_namespace_isolation(other, ix.ns(), seq![sk]);
    } else {
        assert(addressable(ix.ns(), seq![sk, pk]));
        lemma_namespace_isolation(other, ix.ns(), seq![sk, pk]);
    }
}

/// Paths under different namespaces differ.
proof fn lemma_entry_paths_differ(a: Index, b: Index, ka: Seq<u8>, kb: Seq<u8>, pk: Seq<u8>)
    requires
        a.ns().len() < 65536,
        b.ns().len() < 65536,
        ka.len() < 65536,
        kb.len() < 65536,
        a.ns() != b.ns(),
    ensures
        entry_path(a.is_unique(), a.ns(), ka, pk) != entry_path(b.is_unique(), b.ns(), kb, pk),
{
    lemma_entry_paths_differ2(a, b, ka, kb, pk, pk);
}

/// Entries under different namespaces differ, whichever records they belong to.
proof fn lemma_entry_paths_differ2(a: Index, b: Index, ka: Seq<u8>, kb: Seq<u8>, pa: Seq<u8>, pb: Seq<u8>)
    requires
        a.ns().len() < 65536,
        b.ns().len() < 65536,
        ka.len() < 65536,
        kb.len() < 65536,
        a.ns() != b.ns(),
    ensures
        entry_path(a.is_unique(), a.ns(), ka, pa) != entry_path(b.is_unique(), b.ns(), kb, pb),
{
    lemma_entry_in_namespace(a, ka, pa, b.ns());
    if b.is_unique() {
        lemma_key_under_map(b.ns(), seq![kb]);
    } else {
        assert(addressable(b.ns(), seq![kb, pb]));
        lemma_key_under_map(b.ns(), seq![kb, pb]);
    }
}

/// After the additions, each index holds the entry that the record puts there.
proof fn lemma_with_entries_holds(m: Map<Seq<u8>, Seq<u8>>, idx: Seq<Index>, pk: Seq<u8>, keys: Seq<Seq<u8>>, v: Seq<u8>, i: int)
    requires
        0 <= i < idx.len(),
        keys.len() == idx.len(),
        forall|j: int| 0 <= j < keys.len() ==> (#[trigger] keys[j]).len() < 65536,
        forall|j: int| 0 <= j < idx.len() ==> (#[trigger] idx[j]).ns().len() < 65536,
        forall|a: int, b: int| 0 <= a < b < idx.len() ==> (#[trigger] idx[a]).ns() != (#[trigger] idx[b]).ns(),
    ensures
        with_entries(m, idx, pk, keys, v).contains_key(entry_path(idx[i].is_unique(), idx[i].ns(), keys[i], pk)),
        with_entries(m, idx, pk, keys, v)[entry_path(idx[i].is_unique(), idx[i].ns(), keys[i], pk)] == entry_value(idx[i].is_unique(), pk, v),
    decreases idx.len(),
{
    let last = idx.len() - 1;
    if i < last {
        let front = idx.drop_last();
        assert forall|a: int, b: int| 0 <= a < b < front.len() implies (#[trigger] front[a]).ns() != (#[trigger] front[b]).ns() by {
            assert(front[a] == idx[a] && front[b] == idx[b]);
        }
        assert forall|j: int| 0 <= j < front.len() implies (#[trigger] front[j]).ns().len() < 65536 by {
            assert(front[j] == idx[j]);
        }
        lemma_with_entries_holds(m, front, pk, keys.drop_last(), v, i);
        assert(front[i] == idx[i]);
        lemma_with_entries_prefix_keys(m, front, pk, keys, v);
        lemma_entry_paths_differ(idx[i], idx[last], keys[i], keys[last], pk);
    }
}

/// `with_entries` reads only as many keys as there are indexes.
proof fn lemma_with_entries_prefix_keys(m: Map<Seq<u8>, Seq<u8>>, idx: Seq<Index>, pk: Seq<u8>, keys: Seq<Seq<u8>>, v: Seq<u8>)
    requires
        idx.len() < keys.len(),
    ensures
        with_entries(m, idx, pk, keys, v) == with_entries(m, idx, pk, keys.drop_last(), v),
    decreases idx.len(),
{
    if idx.len() > 0 {
        lemma_with_entries_prefix_keys(m, idx.drop_last(), pk, keys, v);
    }
}

/// After the removals, none of the removed entries is left.
proof fn lemma_without_entries_gone(m: Map<Seq<u8>, Seq<u8>>, idx: Seq<Index>, pk: Seq<u8>, keys: Seq<Seq<u8>>, i: int)
    requires
        0 <= i < idx.len(),
    ensures
        !without_entries(m, idx, pk, keys).contains_key(entry_path(idx[i].is_unique(), idx[i].ns(), keys[i], pk)),
    decreases idx.len(),
{
    if i < idx.len() - 1 {
        lemma_without_entries_gone(m, idx.drop_last(), pk, keys, i);
        assert(idx.drop_last()[i] == idx[i]);
    }
}

/// `x` is the address of an entry of `pk` under `keys` in one of the indexes.
pub open spec fn is_entry_of(idx: Seq<Index>, pk: Seq<u8>, keys: Seq<Seq<u8>>, x: Seq<u8>) -> bool {
    exists|i: int| 0 <= i < idx.len() && x == entry_path((#[trigger] idx[i]).is_unique(), idx[i].ns(), keys[i], pk)
}

/// The removals touch only entries of `pk` under `keys`.
proof fn lemma_without_entries_frame(m: Map<Seq<u8>, Seq<u8>>, idx: Seq<Index>, pk: Seq<u8>, keys: Seq<Seq<u8>>, x: Seq<u8>)
    requires
        !is_entry_of(idx, pk, keys, x),
    ensures
        without_entries(m, idx, pk, keys).contains_key(x) == m.contains_key(x),
        m.contains_key(x) ==> without_entries(m, idx, pk, keys)[x] == m[x],
    decreases idx.len(),
{
    if idx.len() > 0 {
        let front = idx.drop_last();
        assert(!is_entry_of(front, pk, keys, x)) by {
            if is_entry_of(front, pk, keys, x) {
                let i = choose|i: int| 0 <= i < front.len() && x == entry_path((#[trigger] front[i]).is_unique(), front[i].ns(), keys[i], pk);
                assert(idx[i] == front[i]);
            }
        }
        lemma_without_entries_frame(m, front, pk, keys, x);
        let last = idx.len() - 1;
        assert(x != entry_path(idx[last].is_unique(), idx[last].ns(), keys[last], pk));
    }
}

/// The additions touch only entries of `pk` under `keys`.
proof fn lemma_with_entries_frame(m: Map<Seq<u8>, Seq<u8>>, idx: Seq<Index>, pk: Seq<u8>, keys: Seq<Seq<u8>>, v: Seq<u8>, x: Seq<u8>)
    requires
        !is_entry_of(idx, pk, keys, x),
    ensures
        with_entries(m, idx, pk, keys, v).contains_key(x) == m.contains_key(x),
        m.contains_key(x) ==> with_entries(m, idx, pk, keys, v)[x] == m[x],
    decreases idx.len(),
{
    if idx.len() > 0 {
        let front = idx.drop_last();
        assert(!is_entry_of(front, pk, keys, x)) by {
            if is_entry_of(front, pk, keys, x) {
                let i = choose|i: int| 0 <= i < front.len() && x == entry_path((#[trigger] front[i]).is_unique(), front[i].ns(), keys[i], pk);
                assert(idx[i] == front[i]);
            }
        }
        lemma_with_entries_frame(m, front, pk, keys, v, x);
        let last = idx.len() - 1;
        assert(x != entry_path(idx[last].is_unique(), idx[last].ns(), keys[last], pk));
    }
}

impl<F: Fn(&[u8], &[u8]) -> Vec<Vec<u8>>> IndexedMap<F> {
    /// Index consistency of a save: once a save of `v` under `pk` has succeeded, the primary
    /// record is `v` and every index holds the entry of `pk` under the secondary key derived
    /// from `v`, with the value it should have.
    pub proof fn lemma_save_consistent(
        &self,
        m0: Map<Seq<u8>, Seq<u8>>,
        m1: Map<Seq<u8>, Seq<u8>>,
        pk: &[u8],
        v: &[u8],
        old_data: Option<&[u8]>,
    )
        requires
            self.wf(),
            distinct_namespaces(self.pk_ns(), self.idx()),
            self.replace_effect(m0, m1, Ok(()), pk, Some(v), old_data),
        ensures
            m1.contains_key(self.primary_path(pk@)) && m1[self.primary_path(pk@)] == v@,
            exists|keys: Seq<Seq<u8>>| {
                &&& self.derives(pk, v, keys)
                &&& forall|i: int| 0 <= i < self.idx().len() ==> {
                    &&& m1.contains_key(entry_path(self.idx()[i].is_unique(), self.idx()[i].ns(), keys[i], pk@))
                    &&& m1[entry_path(self.idx()[i].is_unique(), self.idx()[i].ns(), keys[i], pk@)]
                        == entry_value(self.idx()[i].is_unique(), pk@, v@)
                }
            },
    {
        let (ok, nk) = choose|ok: Option<Seq<Seq<u8>>>, nk: Seq<Seq<u8>>| #[trigger] self.replace_effect_with(m0, m1, Ok(()), pk, Some(v), old_data, ok, nk);
        let r = choose|r: Vec<Vec<u8>>| self.derive_fn().ensures((pk, v), r) && r.deep_view() == nk;
        assert(nk.len() == self.idx().len());
        assert forall|j: int| 0 <= j < nk.len() implies (#[trigger] nk[j]).len() < 65536 by {
            assert(nk[j] == r@[j]@);
        }
        let cleared = match ok {
            Some(k) => without_entries(m0, self.idx(), pk@, k),
            None => m0,
        };
        let added = with_entries(cleared, self.idx(), pk@, nk, v@);
        assert forall|i: int| 0 <= i < self.idx().len() implies {
            &&& m1.contains_key(entry_path(self.idx()[i].is_unique(), self.idx()[i].ns(), nk[i], pk@))
            &&& m1[entry_path(self.idx()[i].is_unique(), self.idx()[i].ns(), nk[i], pk@)]
                == entry_value(self.idx()[i].is_unique(), pk@, v@)
        } by {
            lemma_with_entries_holds(cleared, self.idx(), pk@, nk, v@, i);
            lemma_entry_in_namespace(self.idx()[i], nk[i], pk@, self.pk_ns());
            lemma_key_under_map(self.pk_ns(), seq![pk@]);
        }
    }

    /// Index consistency of the rest of the store: a replace of the record of `pk` leaves
    /// every address other than the record's own primary path and its index entries (under the
    /// keys derived from the old and the new value) exactly as it was, so the entries of all
    /// other records stay in place.
    pub proof fn lemma_replace_frame(
        &self,
        m0: Map<Seq<u8>, Seq<u8>>,
        m1: Map<Seq<u8>, Seq<u8>>,
        r: Result<(), StorageError>,
        pk: &[u8],
        data: Option<&[u8]>,
        old_data: Option<&[u8]>,
        x: Seq<u8>,
    )
        requires
            self.replace_effect(m0, m1, r, pk, data, old_data),
            x != self.primary_path(pk@),
            forall|keys: Seq<Seq<u8>>|
                (old_data matches Some(o) && self.derives(pk, o, keys)) ==> !is_entry_of(self.idx(), pk@, keys, x),
            forall|keys: Seq<Seq<u8>>|
                (data matches Some(d) && self.derives(pk, d, keys)) ==> !is_entry_of(self.idx(), pk@, keys, x),
        ensures
            m1.contains_key(x) == m0.contains_key(x),
            m0.contains_key(x) ==> m1[x] == m0[x],
    {
        let (ok, nk) = choose|ok: Option<Seq<Seq<u8>>>, nk: Seq<Seq<u8>>| #[trigger] self.replace_effect_with(m0, m1, r, pk, data, old_data, ok, nk);
        if !(data is Some && conflicts(m0, self.idx(), pk@, nk, ok)) {
            let cleared = match ok {
                Some(k) => without_entries(m0, self.idx(), pk@, k),
                None => m0,
            };
            if let Some(k) = ok {
                lemma_without_entries_frame(m0, self.idx(), pk@, k, x);
            }
            if data is Some {
                lemma_with_entries_frame(cleared, self.idx(), pk@, nk, data.unwrap()@, x);
            }
        }
    }

    /// Index consistency of a remove: once the record of `pk`, which was `old`, is removed, the
    /// primary record is gone and no index holds an entry derived from `old` for `pk`.
    pub proof fn lemma_remove_consistent(
        &self,
        m0: Map<Seq<u8>, Seq<u8>>,
        m1: Map<Seq<u8>, Seq<u8>>,
        pk: &[u8],
        old: &[u8],
    )
        requires
            self.replace_effect(m0, m1, Ok(()), pk, None, Some(old)),
        ensures
            !m1.contains_key(self.primary_path(pk@)),
            exists|keys: Seq<Seq<u8>>| {
                &&& self.derives(pk, old, keys)
                &&& forall|i: int| 0 <= i < self.idx().len() ==>
                    !m1.contains_key(entry_path(self.idx()[i].is_unique(), self.idx()[i].ns(), keys[i], pk@))
            },
    {
        let (ok, nk) = choose|ok: Option<Seq<Seq<u8>>>, nk: Seq<Seq<u8>>| #[trigger] self.replace_effect_with(m0, m1, Ok(()), pk, None, Some(old), ok, nk);
        let k = ok.unwrap();
        assert forall|i: int| 0 <= i < self.idx().len() implies
            !m1.contains_key(entry_path(self.idx()[i].is_unique(), self.idx()[i].ns(), k[i], pk@)) by {
            lemma_without_entries_gone(m0, self.idx(), pk@, k, i);
        }
    }
}


/// A key with one atom under `ns` determines the atom.
proof fn lemma_single_path_injective(ns: Seq<u8>, a: Seq<u8>, b: Seq<u8>)
    requires
        key_path(ns, seq![a]) == key_path(ns, seq![b]),
    ensures
        a == b,
{
    assert(seq![a].drop_last() =~= Seq::<Seq<u8>>::empty());
    assert(seq![b].drop_last() =~= Seq::<Seq<u8>>::empty());
    lemma_concat_eq(nested_prefix(seq![ns]), a, b);
}

/// A length-prefixed atom followed by anything determines the atom and the rest.
proof fn lemma_prefixed_injective(a: Seq<u8>, v: Seq<u8>, b: Seq<u8>, w: Seq<u8>)
    requires
        a.len() < 65536,
        b.len() < 65536,
        length_prefixed(a) + v == length_prefixed(b) + w,
    ensures
        a == b,
        v == w,
{
    lemma_split_first_prefixed(a, v);
    lemma_split_first_prefixed(b, w);
}

/// A key with two atoms under `ns`, the first short enough for its header, determines both.
proof fn lemma_pair_path_injective(ns: Seq<u8>, s1: Seq<u8>, p1: Seq<u8>, s2: Seq<u8>, p2: Seq<u8>)
    requires
        s1.len() < 65536,
        s2.len() < 65536,
        key_path(ns, seq![s1, p1]) == key_path(ns, seq![s2, p2]),
    ensures
        s1 == s2,
        p1 == p2,
{
    assert(seq![s1, p1].drop_last() =~= seq![s1]);
    assert(seq![s2, p2].drop_last() =~= seq![s2]);
    assert(seq![ns, s1].drop_first() =~= seq![s1]);
    assert(seq![ns, s2].drop_first() =~= seq![s2]);
    assert(seq![s1].drop_first() =~= Seq::<Seq<u8>>::empty());
    assert(seq![s2].drop_first() =~= Seq::<Seq<u8>>::empty());
    assert(seq![ns] + seq![s1] =~= seq![ns, s1]);
    assert(seq![ns] + seq![s2] =~= seq![ns, s2]);
    let l = length_prefixed(ns);
    assert(nested_prefix(Seq::<Seq<u8>>::empty()) == Seq::<u8>::empty());
    assert(nested_prefix(seq![s1]) == length_prefixed(s1) + nested_prefix(Seq::<Seq<u8>>::empty()));
    assert(nested_prefix(seq![s2]) == length_prefixed(s2) + nested_prefix(Seq::<Seq<u8>>::empty()));
    assert(nested_prefix(seq![ns, s1]) == l + nested_prefix(seq![s1]));
    assert(nested_prefix(seq![ns, s2]) == l + nested_prefix(seq![s2]));
    assert(key_path(ns, seq![s1, p1]) =~= l + (length_prefixed(s1) + p1));
    assert(key_path(ns, seq![s2, p2]) =~= l + (length_prefixed(s2) + p2));
    lemma_concat_eq(l, length_prefixed(s1) + p1, length_prefixed(s2) + p2);
    lemma_prefixed_injective(s1, p1, s2, p2);
}

impl<F: Fn(&[u8], &[u8]) -> Vec<Vec<u8>>> IndexedMap<F> {
    /// `keys` are what `derive` gives for a record with value `v` under primary key `pk`.
    pub open spec fn derives_seq(&self, pk: Seq<u8>, v: Seq<u8>, keys: Seq<Seq<u8>>) -> bool {
        exists|ps: &[u8], vs: &[u8], r: Vec<Vec<u8>>|
            ps@ == pk && vs@ == v && #[trigger] self.derive_fn().ensures((ps, vs), r) && r.deep_view() == keys
    }

    /// `derive` gives one answer per primary key and record.
    pub open spec fn derive_deterministic(&self) -> bool {
        forall|p1: &[u8], v1: &[u8], r1: Vec<Vec<u8>>, p2: &[u8], v2: &[u8], r2: Vec<Vec<u8>>|
            #[trigger] self.derive_fn().ensures((p1, v1), r1) && #[trigger] self.derive_fn().ensures((p2, v2), r2) && p1@ == p2@
                && v1@ == v2@ ==> r1.deep_view() == r2.deep_view()
    }

    /// The indexes agree with the primary records: primary keys fit a length header, every
    /// record has, in every index, the entry that its derived key gives, and every entry in an
    /// index belongs to a record that is still stored.
    pub open spec fn consistent(&self, m: Map<Seq<u8>, Seq<u8>>) -> bool {
        &&& forall|pk: Seq<u8>| #[trigger] m.contains_key(self.primary_path(pk)) ==> pk.len() < 65536
        &&& forall|pk: Seq<u8>, keys: Seq<Seq<u8>>, i: int|
            #![trigger self.derives_seq(pk, m[self.primary_path(pk)], keys), self.idx()[i]]
            m.contains_key(self.primary_path(pk)) && self.derives_seq(pk, m[self.primary_path(pk)], keys) && 0 <= i < self.idx().len()
                ==> m.contains_key(entry_path(self.idx()[i].is_unique(), self.idx()[i].ns(), keys[i], pk))
                && m[entry_path(self.idx()[i].is_unique(), self.idx()[i].ns(), keys[i], pk)] == entry_value(
                    self.idx()[i].is_unique(),
                    pk,
                    m[self.primary_path(pk)],
                )
        &&& forall|i: int, x: Seq<u8>|
            #![trigger self.idx()[i], m.contains_key(x)]
            0 <= i < self.idx().len() && m.contains_key(x) && in_bounds(x, Some(map_prefix(self.idx()[i].ns())), incremented(map_prefix(self.idx()[i].ns())))
                ==> exists|pk: Seq<u8>, keys: Seq<Seq<u8>>| {
                &&& m.contains_key(self.primary_path(pk))
                &&& #[trigger] self.derives_seq(pk, m[self.primary_path(pk)], keys)
                &&& x == entry_path(self.idx()[i].is_unique(), self.idx()[i].ns(), keys[i], pk)
            }
    }

    proof fn lemma_derives_to_seq(&self, pk: &[u8], v: &[u8], keys: Seq<Seq<u8>>)
        requires
            self.derives(pk, v, keys),
        ensures
            self.derives_seq(pk@, v@, keys),
    {
        let r = choose|r: Vec<Vec<u8>>| self.derive_fn().ensures((pk, v), r) && r.deep_view() == keys;
        assert(self.derive_fn().ensures((pk, v), r));
    }

    proof fn lemma_derives_unique(&self, pk: Seq<u8>, v: Seq<u8>, k1: Seq<Seq<u8>>, k2: Seq<Seq<u8>>)
        requires
            self.derive_deterministic(),
            self.derives_seq(pk, v, k1),
            self.derives_seq(pk, v, k2),
        ensures
            k1 == k2,
    {
        let (p1, v1, r1) = choose|ps: &[u8], vs: &[u8], r: Vec<Vec<u8>>|
            ps@ == pk && vs@ == v && #[trigger] self.derive_fn().ensures((ps, vs), r) && r.deep_view() == k1;
        let (p2, v2, r2) = choose|ps: &[u8], vs: &[u8], r: Vec<Vec<u8>>|
            ps@ == pk && vs@ == v && #[trigger] self.derive_fn().ensures((ps, vs), r) && r.deep_view() == k2;
        assert(self.derive_fn().ensures((p1, v1), r1));
        assert(self.derive_fn().ensures((p2, v2), r2));
    }

    proof fn lemma_derives_shape(&self, pk: Seq<u8>, v: Seq<u8>, keys: Seq<Seq<u8>>)
        requires
            self.wf(),
            self.derives_seq(pk, v, keys),
        ensures
            keys.len() == self.idx().len(),
            forall|j: int| 0 <= j < keys.len() ==> (#[trigger] keys[j]).len() < 65536,
    {
        let (ps, vs, r) = choose|ps: &[u8], vs: &[u8], r: Vec<Vec<u8>>|
            ps@ == pk && vs@ == v && #[trigger] self.derive_fn().ensures((ps, vs), r) && r.deep_view() == keys;
        assert(self.derive_fn().ensures((ps, vs), r));
        assert forall|j: int| 0 <= j < keys.len() implies (#[trigger] keys[j]).len() < 65536 by {
            assert(keys[j] == r@[j]@);
        }
    }

    /// After a clear no record and no index entry is left, and the indexes agree with the
    /// records.
    pub proof fn lemma_clear_consistent(&self, m: Map<Seq<u8>, Seq<u8>>)
        requires
            self.wf(),
        ensures
            keys_under(clear_indexes(m.remove_keys(keys_under(m, map_prefix(self.pk_ns()))), self.idx()), map_prefix(self.pk_ns())).is_empty(),
            forall|i: int| 0 <= i < self.idx().len() ==> keys_under(
                clear_indexes(m.remove_keys(keys_under(m, map_prefix(self.pk_ns()))), self.idx()),
                map_prefix((#[trigger] self.idx()[i]).ns()),
            ).is_empty(),
            self.consistent(clear_indexes(m.remove_keys(keys_under(m, map_prefix(self.pk_ns()))), self.idx())),
    {
        let m1 = m.remove_keys(keys_under(m, map_prefix(self.pk_ns())));
        let r = clear_indexes(m1, self.idx());
        lemma_clear_indexes(m1, self.idx());
        assert(keys_under(r, map_prefix(self.pk_ns())) =~= Set::<Seq<u8>>::empty()) by {
            assert forall|x: Seq<u8>| !keys_under(r, map_prefix(self.pk_ns())).contains(x) by {
                if keys_under(r, map_prefix(self.pk_ns())).contains(x) {
                    assert(r.contains_key(x));
                    assert(m1.contains_key(x));
                }
            }
        }
        assert forall|q: Seq<u8>| !r.contains_key(#[trigger] self.primary_path(q)) by {
            lemma_key_under_map(self.pk_ns(), seq![q]);
            if r.contains_key(self.primary_path(q)) {
                assert(keys_under(r, map_prefix(self.pk_ns())).contains(self.primary_path(q)));
            }
        }
        assert forall|i: int, x: Seq<u8>|
            0 <= i < self.idx().len() && r.contains_key(x) && in_bounds(x, Some(map_prefix(self.idx()[i].ns())), incremented(map_prefix(self.idx()[i].ns())))
            implies false by {
            assert(keys_under(r, map_prefix(self.idx()[i].ns())).is_empty());
            assert(keys_under(r, map_prefix(self.idx()[i].ns())).contains(x));
        }
    }

    /// Unique enforcement: when the indexes agree with the records and record A, stored under
    /// `pk_a`, holds the same key in unique index `i` as record `b` would, saving `b` under any
    /// other primary key fails with `UniqueConstraintViolation` and writes nothing, so A stays
    /// loadable and the index entry keeps pointing at `pk_a`.
    pub proof fn lemma_unique_enforced(
        &self,
        m0: Map<Seq<u8>, Seq<u8>>,
        m1: Map<Seq<u8>, Seq<u8>>,
        r: Result<(), StorageError>,
        pk_b: &[u8],
        b: &[u8],
        old_data: Option<&[u8]>,
        pk_a: Seq<u8>,
        ka: Seq<Seq<u8>>,
        kb: Seq<Seq<u8>>,
        i: int,
    )
        requires
            self.wf(),
            self.derive_deterministic(),
            pk_b@.len() < 65536,
            self.consistent(m0),
            slice_opt(old_data) == stored(m0, self.primary_path(pk_b@)),
            self.replace_effect(m0, m1, r, pk_b, Some(b), old_data),
            0 <= i < self.idx().len(),
            self.idx()[i].is_unique(),
            m0.contains_key(self.primary_path(pk_a)),
            pk_a != pk_b@,
            self.derives_seq(pk_a, m0[self.primary_path(pk_a)], ka),
            self.derives(pk_b, b, kb),
            ka[i] == kb[i],
        ensures
            r == Err::<(), StorageError>(StorageError::UniqueConstraintViolation),
            m1 == m0,
    {
        let (ok, nk) = choose|ok: Option<Seq<Seq<u8>>>, nk: Seq<Seq<u8>>| #[trigger] self.replace_effect_with(m0, m1, r, pk_b, Some(b), old_data, ok, nk);
        self.lemma_derives_to_seq(pk_b, b, kb);
        self.lemma_derives_to_seq(pk_b, b, nk);
        self.lemma_derives_unique(pk_b@, b@, kb, nk);
        let ix = self.idx()[i];
        let path = entry_path(true, ix.ns(), nk[i], pk_b@);
        assert(path == entry_path(ix.is_unique(), ix.ns(), ka[i], pk_a));
        assert(m0.contains_key(path) && m0[path] == entry_value(true, pk_a, m0[self.primary_path(pk_a)]));
        assert(pk_a.len() < 65536);
        if let Some(k) = ok {
            let o = old_data.unwrap();
            self.lemma_derives_to_seq(pk_b, o, k);
            if k[i] == nk[i] {
                assert(m0[path] == entry_value(true, pk_b@, o@));
                lemma_prefixed_injective(pk_a, m0[self.primary_path(pk_a)], pk_b@, o@);
            }
        }
        assert(conflicts(m0, self.idx(), pk_b@, nk, ok));
    }

    /// Removing a record that is not stored is a no-op: nothing is written.
    pub proof fn lemma_remove_absent(
        &self,
        m0: Map<Seq<u8>, Seq<u8>>,
        m1: Map<Seq<u8>, Seq<u8>>,
        r: Result<(), StorageError>,
        pk: &[u8],
        old_data: Option<&[u8]>,
    )
        requires
            slice_opt(old_data) == stored(m0, self.primary_path(pk@)),
            !m0.contains_key(self.primary_path(pk@)),
            self.replace_effect(m0, m1, r, pk, None, old_data),
        ensures
            r is Ok,
            m1 == m0,
    {
        let (ok, nk) = choose|ok: Option<Seq<Seq<u8>>>, nk: Seq<Seq<u8>>| #[trigger] self.replace_effect_with(m0, m1, r, pk, None, old_data, ok, nk);
        assert(m1 =~= m0);
    }

    /// A store with no entries is consistent: the start of every sequence of writes.
    pub proof fn lemma_empty_consistent(&self)
        ensures
            self.consistent(Map::<Seq<u8>, Seq<u8>>::empty()),
    {
    }

    /// Index consistency is kept by every replace, and so by any sequence of saves, removes and
    /// updates (each of which is a replace of the stored record): when the indexes agree with the
    /// records before, they agree after.
    pub proof fn lemma_replace_keeps_consistent(
        &self,
        m0: Map<Seq<u8>, Seq<u8>>,
        m1: Map<Seq<u8>, Seq<u8>>,
        r: Result<(), StorageError>,
        pk: &[u8],
        data: Option<&[u8]>,
        old_data: Option<&[u8]>,
    )
        requires
            self.wf(),
            self.derive_deterministic(),
            distinct_namespaces(self.pk_ns(), self.idx()),
            pk@.len() < 65536,
            self.consistent(m0),
            slice_opt(old_data) == stored(m0, self.primary_path(pk@)),
            self.replace_effect(m0, m1, r, pk, data, old_data),
        ensures
            self.consistent(m1),
    {
        let (ok, nk) = choose|ok: Option<Seq<Seq<u8>>>, nk: Seq<Seq<u8>>| #[trigger] self.replace_effect_with(m0, m1, r, pk, data, old_data, ok, nk);
        if data is Some && conflicts(m0, self.idx(), pk@, nk, ok) {
            assert(m1 == m0);
            return;
        }
        let p = pk@;
        let n = self.idx().len();
        let pp = self.primary_path(p);
        let cleared = match ok {
            Some(k) => without_entries(m0, self.idx(), p, k),
            None => m0,
        };
        if let Some(o) = old_data {
            self.lemma_derives_to_seq(pk, o, ok.unwrap());
            self.lemma_derives_shape(p, o@, ok.unwrap());
        }
        if let Some(d) = data {
            self.lemma_derives_to_seq(pk, d, nk);
            self.lemma_derives_shape(p, d@, nk);
        }
        lemma_key_under_map(self.pk_ns(), seq![p]);
        // An entry address never is a primary path.
        assert forall|j: int, sk: Seq<u8>, q: Seq<u8>, q2: Seq<u8>|
            #![trigger entry_path(self.idx()[j].is_unique(), self.idx()[j].ns(), sk, q), self.primary_path(q2)]
            0 <= j < n && sk.len() < 65536 implies
            entry_path(self.idx()[j].is_unique(), self.idx()[j].ns(), sk, q) != self.primary_path(q2) by {
            lemma_entry_in_namespace(self.idx()[j], sk, q, self.pk_ns());
            lemma_key_under_map(self.pk_ns(), seq![q2]);
        }
        // Other records keep their primary entries.
        assert forall|q: Seq<u8>| q != p implies m1.contains_key(#[trigger] self.primary_path(q)) == m0.contains_key(self.primary_path(q))
            && (m0.contains_key(self.primary_path(q)) ==> m1[self.primary_path(q)] == m0[self.primary_path(q)]) by {
            if self.primary_path(q) == pp {
                lemma_single_path_injective(self.pk_ns(), q, p);
            }
            if let Some(k) = ok {
                assert(!is_entry_of(self.idx(), p, k, self.primary_path(q))) by {
                    if is_entry_of(self.idx(), p, k, self.primary_path(q)) {
                        let j = choose|j: int| 0 <= j < self.idx().len() && self.primary_path(q) == entry_path((#[trigger] self.idx()[j]).is_unique(), self.idx()[j].ns(), k[j], p);
                        assert(entry_path(self.idx()[j].is_unique(), self.idx()[j].ns(), k[j], p) != self.primary_path(q));
                    }
                }
                lemma_without_entries_frame(m0, self.idx(), p, k, self.primary_path(q));
            }
            if let Some(d) = data {
                assert(!is_entry_of(self.idx(), p, nk, self.primary_path(q))) by {
                    if is_entry_of(self.idx(), p, nk, self.primary_path(q)) {
                        let j = choose|j: int| 0 <= j < self.idx().len() && self.primary_path(q) == entry_path((#[trigger] self.idx()[j]).is_unique(), self.idx()[j].ns(), nk[j], p);
                        assert(entry_path(self.idx()[j].is_unique(), self.idx()[j].ns(), nk[j], p) != self.primary_path(q));
                    }
                }
                lemma_with_entries_frame(cleared, self.idx(), p, nk, d@, self.primary_path(q));
            }
        }
        let added = match data {
            Some(d) => with_entries(cleared, self.idx(), p, nk, d@),
            None => cleared,
        };
        // Keys of the record's own entries are short enough.
        let ok_keys = match ok {
            Some(k) => k,
            None => nk,
        };
        // (A) every record stored after the replace has its entries.
        assert forall|q: Seq<u8>, keys: Seq<Seq<u8>>, i: int|
            #![trigger self.derives_seq(q, m1[self.primary_path(q)], keys), self.idx()[i]]
            m1.contains_key(self.primary_path(q)) && self.derives_seq(q, m1[self.primary_path(q)], keys) && 0 <= i < n
            implies m1.contains_key(entry_path(self.idx()[i].is_unique(), self.idx()[i].ns(), keys[i], q))
                && m1[entry_path(self.idx()[i].is_unique(), self.idx()[i].ns(), keys[i], q)] == entry_value(
                    self.idx()[i].is_unique(),
                    q,
                    m1[self.primary_path(q)],
                ) by {
            let ix = self.idx()[i];
            if q == p {
                let d = data.unwrap();
                self.lemma_derives_unique(p, d@, keys, nk);
                lemma_with_entries_holds(cleared, self.idx(), p, nk, d@, i);
                assert(entry_path(ix.is_unique(), ix.ns(), nk[i], p) != pp);
            } else {
                let v = m0[self.primary_path(q)];
                assert(m0.contains_key(self.primary_path(q)));
                self.lemma_derives_shape(q, v, keys);
                let x = entry_path(ix.is_unique(), ix.ns(), keys[i], q);
                assert(m0.contains_key(x) && m0[x] == entry_value(ix.is_unique(), q, v));
                assert(q.len() < 65536);
                if let Some(k) = ok {
                    let o = old_data.unwrap();
                    assert(!is_entry_of(self.idx(), p, k, x)) by {
                        if is_entry_of(self.idx(), p, k, x) {
                            let j = choose|j: int| 0 <= j < self.idx().len() && x == entry_path((#[trigger] self.idx()[j]).is_unique(), self.idx()[j].ns(), k[j], p);
                            if j != i {
                                lemma_entry_paths_differ2(self.idx()[j], ix, k[j], keys[i], p, q);
                            } else if ix.is_unique() {
                                assert(m0[x] == entry_value(true, p, o@));
                                lemma_prefixed_injective(p, o@, q, v);
                            } else {
                                lemma_pair_path_injective(ix.ns(), k[i], p, keys[i], q);
                            }
                        }
                    }
                    lemma_without_entries_frame(m0, self.idx(), p, k, x);
                }
                if let Some(d) = data {
                    assert(!is_entry_of(self.idx(), p, nk, x)) by {
                        if is_entry_of(self.idx(), p, nk, x) {
                            let j = choose|j: int| 0 <= j < self.idx().len() && x == entry_path((#[trigger] self.idx()[j]).is_unique(), self.idx()[j].ns(), nk[j], p);
                            if j != i {
                                lemma_entry_paths_differ2(self.idx()[j], ix, nk[j], keys[i], p, q);
                            } else if ix.is_unique() {
                                assert(!conflicts(m0, self.idx(), p, nk, ok));
                                assert(ok matches Some(k) && k[i] == nk[i]);
                                let k = ok.unwrap();
                                let o = old_data.unwrap();
                                assert(m0[x] == entry_value(true, p, o@));
                                lemma_prefixed_injective(p, o@, q, v);
                            } else {
                                lemma_pair_path_injective(ix.ns(), nk[i], p, keys[i], q);
                            }
                        }
                    }
                    lemma_with_entries_frame(cleared, self.idx(), p, nk, d@, x);
                }
                assert(x != pp);
            }
        }
        // (B) every index entry stored after the replace belongs to a stored record.
        assert forall|i: int, x: Seq<u8>|
            #![trigger self.idx()[i], m1.contains_key(x)]
            0 <= i < n && m1.contains_key(x) && in_bounds(x, Some(map_prefix(self.idx()[i].ns())), incremented(map_prefix(self.idx()[i].ns())))
            implies exists|q: Seq<u8>, keys: Seq<Seq<u8>>| {
                &&& m1.contains_key(self.primary_path(q))
                &&& #[trigger] self.derives_seq(q, m1[self.primary_path(q)], keys)
                &&& x == entry_path(self.idx()[i].is_unique(), self.idx()[i].ns(), keys[i], q)
            } by {
            let ix = self.idx()[i];
            lemma_namespace_isolation(ix.ns(), self.pk_ns(), seq![p]);
            assert(x != pp);
            if data is Some && is_entry_of(self.idx(), p, nk, x) {
                let j = choose|j: int| 0 <= j < self.idx().len() && x == entry_path((#[trigger] self.idx()[j]).is_unique(), self.idx()[j].ns(), nk[j], p);
                if j != i {
                    lemma_entry_in_namespace(self.idx()[j], nk[j], p, ix.ns());
                }
                assert(self.derives_seq(p, m1[pp], nk));
            } else if ok is Some && is_entry_of(self.idx(), p, ok.unwrap(), x) {
                let k = ok.unwrap();
                let j = choose|j: int| 0 <= j < self.idx().len() && x == entry_path((#[trigger] self.idx()[j]).is_unique(), self.idx()[j].ns(), k[j], p);
                lemma_without_entries_gone(m0, self.idx(), p, k, j);
                if let Some(d) = data {
                    lemma_with_entries_frame(cleared, self.idx(), p, nk, d@, x);
                }
                assert(false);
            } else {
                if let Some(k) = ok {
                    lemma_without_entries_frame(m0, self.idx(), p, k, x);
                }
                if let Some(d) = data {
                    lemma_with_entries_frame(cleared, self.idx(), p, nk, d@, x);
                }
                assert(m0.contains_key(x));
                let (q, keys) = choose|q: Seq<u8>, keys: Seq<Seq<u8>>| {
                    &&& m0.contains_key(self.primary_path(q))
                    &&& #[trigger] self.derives_seq(q, m0[self.primary_path(q)], keys)
                    &&& x == entry_path(ix.is_unique(), ix.ns(), keys[i], q)
                };
                if q == p {
                    let o = old_data.unwrap();
                    self.lemma_derives_unique(p, o@, keys, ok.unwrap());
                    assert(is_entry_of(self.idx(), p, ok.unwrap(), x));
                }
                assert(m1.contains_key(self.primary_path(q)) && m1[self.primary_path(q)] == m0[self.primary_path(q)]);
                assert(self.derives_seq(q, m1[self.primary_path(q)], keys));
            }
        }
        // (C) primary keys stay short.
        assert forall|q: Seq<u8>| #[trigger] m1.contains_key(self.primary_path(q)) implies q.len() < 65536 by {
            if q != p {
                assert(m0.contains_key(self.primary_path(q)));
            }
        }
    }
}

} // verus!
