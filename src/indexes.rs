//! Secondary indexes: entries derived from stored records, under namespaces of their own.
use vstd::prelude::*;
use vstd::slice::slice_to_vec;

use crate::codec::{length_prefixed, nested_prefix, prefixable, split_first, split_first_key};
use crate::error::StorageError;
use crate::namespace::Namespace;
use crate::order::lemma_bytes_deep_view;
use crate::path::{key_path, stored, Path};
use crate::bound::{prefix_end_bound, prefix_start_bound, RawBound};
use crate::prefix::{namespaced_prefix_range, prefix_scan_result, Prefix};
use crate::store::{Order, Store};

verus! {

broadcast use lemma_bytes_deep_view;

/// Where an index entry of primary key `pk` under secondary key `sk` is stored: a unique index
/// addresses it by the secondary key alone, a multi index by the secondary key and then `pk`.
pub open spec fn entry_path(unique: bool, ns: Seq<u8>, sk: Seq<u8>, pk: Seq<u8>) -> Seq<u8> {
    if unique {
        key_path(ns, seq![sk])
    } else {
        key_path(ns, seq![sk, pk])
    }
}

/// What an index entry holds: a copy of the record, preceded in a unique index by the
/// length-prefixed primary key.
pub open spec fn entry_value(unique: bool, pk: Seq<u8>, v: Seq<u8>) -> Seq<u8> {
    if unique {
        length_prefixed(pk) + v
    } else {
        v
    }
}

/// An index that lets many records share a secondary key; entries are ordered by secondary key,
/// then by primary key.
#[derive(Clone, Debug)]
pub struct MultiIndex {
    idx_namespace: Namespace,
}

/// An index that holds at most one record per secondary key.
#[derive(Clone, Debug)]
pub struct UniqueIndex {
    idx_namespace: Namespace,
}

/// One secondary index of an indexed map.
#[derive(Clone, Debug)]
pub enum Index {
    Multi(MultiIndex),
    Unique(UniqueIndex),
}

impl View for MultiIndex {
    type V = Seq<u8>;

    closed spec fn view(&self) -> Seq<u8> {
        self.idx_namespace@
    }
}

impl View for UniqueIndex {
    type V = Seq<u8>;

    closed spec fn view(&self) -> Seq<u8> {
        self.idx_namespace@
    }
}

impl Index {
    pub open spec fn is_unique(&self) -> bool {
        self is Unique
    }

    /// The namespace of the index.
    pub open spec fn ns(&self) -> Seq<u8> {
        match self {
            Index::Multi(m) => m@,
            Index::Unique(u) => u@,
        }
    }

    /// Stores the entry of `pk` under `sk`. A unique index fails when an entry already exists
    /// under `sk`, and then writes nothing.
    pub fn save(&self, store: &mut Store, pk: &[u8], sk: &[u8], value: &[u8]) -> (r: Result<(), StorageError>)
        requires
            self.ns().len() < 65536,
            sk@.len() < 65536,
            pk@.len() < 65536,
            value@.len() > 0,
        ensures
            r is Err <==> (self.is_unique() && old(store)@.contains_key(entry_path(true, self.ns(), sk@, pk@))),
            r is Ok ==> final(store)@ == old(store)@.insert(entry_path(self.is_unique(), self.ns(), sk@, pk@), entry_value(self.is_unique(), pk@, value@)),
            r is Err ==> final(store)@ == old(store)@,
            r matches Err(e) ==> e == StorageError::UniqueConstraintViolation,
    {
        match self {
            Index::Multi(m) => {
                m.save(store, pk, sk, value);
                Ok(())
            },
            Index::Unique(u) => u.save(store, pk, sk, value),
        }
    }

    /// Writes the entry of `pk` under `sk`, replacing whatever is there.
    pub fn put(&self, store: &mut Store, pk: &[u8], sk: &[u8], value: &[u8])
        requires
            self.ns().len() < 65536,
            sk@.len() < 65536,
            pk@.len() < 65536,
            value@.len() > 0,
        ensures
            final(store)@ == old(store)@.insert(entry_path(self.is_unique(), self.ns(), sk@, pk@), entry_value(self.is_unique(), pk@, value@)),
    {
        match self {
            Index::Multi(m) => m.save(store, pk, sk, value),
            Index::Unique(u) => u.put(store, pk, sk, value),
        }
    }

    /// Removes the entry of `pk` under `sk`; nothing happens when there is none.
    pub fn remove(&self, store: &mut Store, pk: &[u8], sk: &[u8])
        requires
            self.ns().len() < 65536,
            sk@.len() < 65536,
        ensures
            final(store)@ == old(store)@.remove(entry_path(self.is_unique(), self.ns(), sk@, pk@)),
    {
        match self {
            Index::Multi(m) => m.remove(store, pk, sk),
            Index::Unique(u) => u.remove(store, sk),
        }
    }

    /// All entries of the index.
    pub fn no_prefix(&self) -> (r: Prefix)
        requires
            self.ns().len() < 65536,
        ensures
            r@ == nested_prefix(seq![self.ns()]),
    {
        match self {
            Index::Multi(m) => m.no_prefix(),
            Index::Unique(u) => u.no_prefix(),
        }
    }

    /// Whether an entry exists at the address that `pk` would take under `sk`.
    pub fn has(&self, store: &Store, pk: &[u8], sk: &[u8]) -> (r: bool)
        requires
            self.ns().len() < 65536,
            sk@.len() < 65536,
        ensures
            r == store@.contains_key(entry_path(self.is_unique(), self.ns(), sk@, pk@)),
    {
        let path = entry_path_of(self, pk, sk);
        path.has(store)
    }
}

fn atoms1(a: &[u8]) -> (r: Vec<Vec<u8>>)
    ensures
        r.deep_view() == seq![a@],
{
    let mut k: Vec<Vec<u8>> = Vec::new();
    k.push(slice_to_vec(a));
    proof { assert(k.deep_view() =~= seq![a@]); }
    k
}

fn atoms2(a: &[u8], b: &[u8]) -> (r: Vec<Vec<u8>>)
    ensures
        r.deep_view() == seq![a@, b@],
{
    let mut k: Vec<Vec<u8>> = Vec::new();
    k.push(slice_to_vec(a));
    k.push(slice_to_vec(b));
    proof { assert(k.deep_view() =~= seq![a@, b@]); }
    k
}

fn entry_path_of(index: &Index, pk: &[u8], sk: &[u8]) -> (r: Path)
    requires
        index.ns().len() < 65536,
        sk@.len() < 65536,
    ensures
        r@ == entry_path(index.is_unique(), index.ns(), sk@, pk@),
{
    match index {
        Index::Multi(m) => Path::new(m.idx_namespace.as_slice(), &atoms2(sk, pk)),
        Index::Unique(u) => Path::new(u.idx_namespace.as_slice(), &atoms1(sk)),
    }
}

impl MultiIndex {
    /// A multi index under the namespace with the given name.
    pub fn new(idx_namespace: &'static str) -> (r: MultiIndex)
        ensures
            r@ == vstd::utf8::encode_utf8(idx_namespace@),
    {
        MultiIndex { idx_namespace: Namespace::from_static_str(idx_namespace) }
    }

    /// A multi index under the given namespace.
    pub fn new_dyn(idx_namespace: Namespace) -> (r: MultiIndex)
        ensures
            r@ == idx_namespace@,
    {
        MultiIndex { idx_namespace }
    }

    /// Stores a copy of the record of `pk` under secondary key `sk`.
    pub fn save(&self, store: &mut Store, pk: &[u8], sk: &[u8], value: &[u8])
        requires
            self@.len() < 65536,
            sk@.len() < 65536,
            value@.len() > 0,
        ensures
            final(store)@ == old(store)@.insert(entry_path(false, self@, sk@, pk@), value@),
    {
        Path::new(self.idx_namespace.as_slice(), &atoms2(sk, pk)).save(store, value)
    }

    /// Removes the entry of `pk` under `sk`.
    pub fn remove(&self, store: &mut Store, pk: &[u8], sk: &[u8])
        requires
            self@.len() < 65536,
            sk@.len() < 65536,
        ensures
            final(store)@ == old(store)@.remove(entry_path(false, self@, sk@, pk@)),
    {
        Path::new(self.idx_namespace.as_slice(), &atoms2(sk, pk)).remove(store)
    }

    /// All entries under secondary key `sk`; their keys are the primary keys.
    pub fn prefix(&self, sk: &[u8]) -> (r: Prefix)
        requires
            self@.len() < 65536,
            sk@.len() < 65536,
        ensures
            r@ == nested_prefix(seq![self@, sk@]),
    {
        let p = atoms1(sk);
        proof {
            assert(prefixable(p.deep_view()));
            assert(seq![self@] + p.deep_view() =~= seq![self@, sk@]);
        }
        Prefix::new(self.idx_namespace.as_slice(), &p)
    }

    /// All entries of the index.
    pub fn no_prefix(&self) -> (r: Prefix)
        requires
            self@.len() < 65536,
        ensures
            r@ == nested_prefix(seq![self@]),
    {
        let empty: Vec<Vec<u8>> = Vec::new();
        proof {
            assert(empty.deep_view() =~= Seq::<Seq<u8>>::empty());
            assert(seq![self@] + empty.deep_view() =~= seq![self@]);
        }
        Prefix::new(self.idx_namespace.as_slice(), &empty)
    }
}

impl MultiIndex {
    /// Entries whose secondary keys lie between two prefix bounds, keys relative to the
    /// index namespace.
    pub fn prefix_range_raw(&self, store: &Store, min: Option<&RawBound>, max: Option<&RawBound>, order: Order) -> (r: Result<Vec<(Vec<u8>, Vec<u8>)>, StorageError>)
        requires
            self@.len() < 65536,
        ensures
            r is Err <==> (prefix_start_bound(nested_prefix(seq![self@]), min) is None
                || prefix_end_bound(nested_prefix(seq![self@]), max) is None
                || prefix_scan_result(store@, nested_prefix(seq![self@]),
                    prefix_start_bound(nested_prefix(seq![self@]), min).unwrap(),
                    prefix_end_bound(nested_prefix(seq![self@]), max).unwrap(), order, Err(StorageError::InvariantViolation))),
            r matches Err(e) ==> e == StorageError::InvariantViolation,
            r matches Ok(out) ==> prefix_scan_result(store@, nested_prefix(seq![self@]),
                prefix_start_bound(nested_prefix(seq![self@]), min).unwrap(),
                prefix_end_bound(nested_prefix(seq![self@]), max).unwrap(), order, Ok(out.deep_view())),
    {
        namespaced_prefix_range(store, self.idx_namespace.as_slice(), min, max, order)
    }
}

impl UniqueIndex {
    /// All entries of the index, keyed by secondary key.
    pub fn no_prefix(&self) -> (r: Prefix)
        requires
            self@.len() < 65536,
        ensures
            r@ == nested_prefix(seq![self@]),
    {
        let empty: Vec<Vec<u8>> = Vec::new();
        proof {
            assert(empty.deep_view() =~= Seq::<Seq<u8>>::empty());
            assert(seq![self@] + empty.deep_view() =~= seq![self@]);
        }
        Prefix::new(self.idx_namespace.as_slice(), &empty)
    }

    /// A unique index under the namespace with the given name.
    pub fn new(idx_namespace: &'static str) -> (r: UniqueIndex)
        ensures
            r@ == vstd::utf8::encode_utf8(idx_namespace@),
    {
        UniqueIndex { idx_namespace: Namespace::from_static_str(idx_namespace) }
    }

    /// A unique index under the given namespace.
    pub fn new_dyn(idx_namespace: Namespace) -> (r: UniqueIndex)
        ensures
            r@ == idx_namespace@,
    {
        UniqueIndex { idx_namespace }
    }

    /// Stores the entry of `pk` under `sk`, unless one already exists there.
    pub fn save(&self, store: &mut Store, pk: &[u8], sk: &[u8], value: &[u8]) -> (r: Result<(), StorageError>)
        requires
            self@.len() < 65536,
            pk@.len() < 65536,
        ensures
            r is Err <==> old(store)@.contains_key(entry_path(true, self@, sk@, pk@)),
            r is Ok ==> final(store)@ == old(store)@.insert(entry_path(true, self@, sk@, pk@), entry_value(true, pk@, value@)),
            r is Err ==> final(store)@ == old(store)@,
            r matches Err(e) ==> e == StorageError::UniqueConstraintViolation,
    {
        let path = Path::new(self.idx_namespace.as_slice(), &atoms1(sk));
        if path.has(store) {
            return Err(StorageError::UniqueConstraintViolation);
        }
        self.put(store, pk, sk, value);
        Ok(())
    }

    /// Writes the entry of `pk` under `sk`, replacing whatever is there.
    pub fn put(&self, store: &mut Store, pk: &[u8], sk: &[u8], value: &[u8])
        requires
            self@.len() < 65536,
            pk@.len() < 65536,
        ensures
            final(store)@ == old(store)@.insert(entry_path(true, self@, sk@, pk@), entry_value(true, pk@, value@)),
    {
        let path = Path::new(self.idx_namespace.as_slice(), &atoms1(sk));
        let mut entry: Vec<Vec<u8>> = Vec::new();
        entry.push(slice_to_vec(pk));
        let mut rest: Vec<u8> = slice_to_vec(value);
        let mut bytes = crate::codec::to_length_prefixed_nested(&entry);
        bytes.append(&mut rest);
        proof {
            assert(entry.deep_view() =~= seq![pk@]);
            assert(seq![pk@].drop_first() =~= Seq::<Seq<u8>>::empty());
            assert(nested_prefix(seq![pk@]) =~= length_prefixed(pk@) + nested_prefix(Seq::<Seq<u8>>::empty()));
            assert(bytes@ =~= entry_value(true, pk@, value@));
            crate::codec::lemma_be_bytes_len(pk@.len(), 2);
        }
        path.save(store, bytes.as_slice());
    }

    /// Removes the entry under `sk`.
    pub fn remove(&self, store: &mut Store, sk: &[u8])
        requires
            self@.len() < 65536,
        ensures
            final(store)@ == old(store)@.remove(entry_path(true, self@, sk@, seq![])),
    {
        Path::new(self.idx_namespace.as_slice(), &atoms1(sk)).remove(store)
    }

    /// The primary key and record stored under `sk`, if any.
    pub fn item(&self, store: &Store, sk: &[u8]) -> (r: Result<Option<(Vec<u8>, Vec<u8>)>, StorageError>)
        requires
            self@.len() < 65536,
        ensures
            match stored(store@, entry_path(true, self@, sk@, seq![])) {
                None => r == Ok::<Option<(Vec<u8>, Vec<u8>)>, StorageError>(None),
                Some(b) => match split_first(1, b) {
                    Some(p) => r matches Ok(Some(q)) && q.0@ == p.0 && q.1@ == p.1,
                    None => r == Err::<Option<(Vec<u8>, Vec<u8>)>, StorageError>(StorageError::Decode),
                },
            },
    {
        match Path::new(self.idx_namespace.as_slice(), &atoms1(sk)).may_load(store) {
            None => Ok(None),
            Some(b) => match split_first_key(1, b.as_slice()) {
                Ok((pk, v)) => Ok(Some((pk, v))),
                Err(e) => Err(e),
            },
        }
    }
}

} // verus!
