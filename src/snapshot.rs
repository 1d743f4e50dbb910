//! Historical reads: checkpoints with reference counts, a changelog of pre-images, and the
//! strategies that decide when a change is logged.
use vstd::prelude::*;
use vstd::slice::{slice_subrange, slice_to_vec};

use crate::bound::{incremented, increment_last_byte};
use crate::codec::{be_bytes, be_value, decode_u32, decode_u64, encode_u32, encode_u64, lemma_pow256_values, nested_prefix};
use crate::error::StorageError;
use crate::map::{map_prefix, StorageMap};
use crate::namespace::Namespace;
use crate::order::lemma_bytes_deep_view;
use crate::path::{bytes_view, key_path, stored};
use crate::store::{is_first, record_view, Order, Store};

verus! {

broadcast use lemma_bytes_deep_view;

/// Takes a snapshot only when at least `interval` heights have passed since the key's last
/// changelog entry.
#[derive(Clone, Copy, Debug, PartialEq, Eq, Structural)]
pub struct IntervalStrategy {
    pub interval: u64,
}

impl IntervalStrategy {
    pub fn new(interval: u64) -> (r: IntervalStrategy)
        ensures
            r.interval == interval,
    {
        IntervalStrategy { interval }
    }
}

/// When changes are written to the changelog.
#[derive(Clone, Copy, Debug, PartialEq, Eq, Structural)]
pub enum Strategy {
    /// Every change.
    EveryBlock,
    /// No change.
    Never,
    /// The first change of a key after the most recent open checkpoint.
    Selected,
    /// The first change of a key after an interval with no logged change.
    Interval(IntervalStrategy),
}

/// The stored form of a changelog entry: a tag byte, then the previous value if there was one.
pub open spec fn changeset_bytes(old: Option<Seq<u8>>) -> Seq<u8> {
    match old {
        None => seq![0u8],
        Some(v) => seq![1u8] + v,
    }
}

/// The previous value that a stored changelog entry records; `None` when malformed.
pub open spec fn changeset_of(b: Seq<u8>) -> Option<Option<Seq<u8>>> {
    if b == seq![0u8] {
        Some(None)
    } else if b.len() >= 1 && b[0] == 1 {
        Some(Some(b.drop_first()))
    } else {
        None
    }
}

/// Decoding a stored changelog entry gives back the previous value it was written with.
pub proof fn lemma_changeset_round_trip(old: Option<Seq<u8>>)
    ensures
        changeset_of(changeset_bytes(old)) == Some(old),
{
    if let Some(v) = old {
        assert((seq![1u8] + v).drop_first() =~= v);
        assert((seq![1u8] + v) != seq![0u8]) by {
            assert((seq![1u8] + v)[0] == 1);
        }
    }
}

/// A changelog entry: the value a key held before a change, `None` when it was absent.
#[derive(Clone, Debug, PartialEq, Eq)]
pub struct ChangeSet {
    pub old: Option<Vec<u8>>,
}

impl ChangeSet {
    /// The stored form of the entry.
    pub fn to_bytes(&self) -> (r: Vec<u8>)
        ensures
            r@ == changeset_bytes(bytes_view(self.old)),
    {
        let mut out: Vec<u8> = Vec::new();
        match &self.old {
            None => {
                out.push(0);
                proof { assert(out@ =~= seq![0u8]); }
            },
            Some(v) => {
                out.push(1);
                let mut rest = slice_to_vec(v.as_slice());
                out.append(&mut rest);
                proof { assert(out@ =~= seq![1u8] + v@); }
            },
        }
        out
    }

    /// The entry that stored bytes hold; `Decode` when they are malformed.
    pub fn from_bytes(b: &[u8]) -> (r: Result<ChangeSet, StorageError>)
        ensures
            r matches Ok(c) ==> changeset_of(b@) == Some(bytes_view(c.old)),
            r matches Err(e) ==> changeset_of(b@) is None && e == StorageError::Decode,
    {
        if b.len() == 1 && b[0] == 0 {
            proof { assert(b@ =~= seq![0u8]); }
            return Ok(ChangeSet { old: None });
        }
        if b.len() >= 1 && b[0] == 1 {
            let rest = slice_to_vec(slice_subrange(b, 1, b.len()));
            proof {
                assert(rest@ =~= b@.drop_first());
                assert(b@ != seq![0u8]);
            }
            return Ok(ChangeSet { old: Some(rest) });
        }
        proof {
            if b@ == seq![0u8] {
                assert(b@.len() == 1 && b@[0] == 0);
            }
        }
        Err(StorageError::Decode)
    }
}

pub open spec fn bound_bytes(o: Option<&[u8]>) -> Option<Seq<u8>> {
    match o {
        Some(v) => Some(v@),
        None => None,
    }
}

/// The height encoded as a key atom.
pub open spec fn height_atom(h: u64) -> Seq<u8> {
    be_bytes(h as nat, 8)
}

/// Where the checkpoint counter of a height is stored.
pub open spec fn checkpoint_path(cp: Seq<u8>, h: u64) -> Seq<u8> {
    key_path(cp, seq![height_atom(h)])
}

/// Where the changelog entry of a key at a height is stored.
pub open spec fn changelog_path(cl: Seq<u8>, k: Seq<u8>, h: u64) -> Seq<u8> {
    key_path(cl, seq![k, height_atom(h)])
}

/// The prefix of all changelog entries of a key.
pub open spec fn change_prefix(cl: Seq<u8>, k: Seq<u8>) -> Seq<u8> {
    nested_prefix(seq![cl, k])
}

/// The checkpoint count of a height: 0 when absent, `None` when the stored counter is malformed.
pub open spec fn checkpoint_count(m: Map<Seq<u8>, Seq<u8>>, cp: Seq<u8>, h: u64) -> Option<nat> {
    match stored(m, checkpoint_path(cp, h)) {
        None => Some(0),
        Some(v) => if v.len() == 4 {
            Some(be_value(v))
        } else {
            None
        },
    }
}

/// Histories of keys: a checkpoint counter per height and a changelog of previous values per
/// key and height.
#[derive(Clone, Debug)]
pub struct Snapshot {
    checkpoints: StorageMap,
    changelog: StorageMap,
    strategy: Strategy,
}

impl Snapshot {
    pub closed spec fn checkpoints_ns(&self) -> Seq<u8> {
        self.checkpoints@
    }

    pub closed spec fn changelog_ns(&self) -> Seq<u8> {
        self.changelog@
    }

    pub closed spec fn strategy(&self) -> Strategy {
        self.strategy
    }

    /// Both namespaces fit a 2-byte length header.
    pub open spec fn addressable(&self) -> bool {
        self.checkpoints_ns().len() < 65536 && self.changelog_ns().len() < 65536
    }

    /// Whether the history at height `h` can be reconstructed.
    pub open spec fn is_checkpointed(&self, m: Map<Seq<u8>, Seq<u8>>, h: u64) -> bool {
        match self.strategy() {
            Strategy::EveryBlock => true,
            Strategy::Never => false,
            Strategy::Selected => m.contains_key(checkpoint_path(self.checkpoints_ns(), h)),
            Strategy::Interval(_) => m.contains_key(checkpoint_path(self.checkpoints_ns(), h)),
        }
    }

    pub fn new(checkpoints: &'static str, changelog: &'static str, strategy: Strategy) -> (r: Snapshot)
        ensures
            r.checkpoints_ns() == vstd::utf8::encode_utf8(checkpoints@),
            r.changelog_ns() == vstd::utf8::encode_utf8(changelog@),
            r.strategy() == strategy,
    {
        Snapshot { checkpoints: StorageMap::new(checkpoints), changelog: StorageMap::new(changelog), strategy }
    }

    pub fn new_dyn(checkpoints: Namespace, changelog: Namespace, strategy: Strategy) -> (r: Snapshot)
        ensures
            r.checkpoints_ns() == checkpoints@,
            r.changelog_ns() == changelog@,
            r.strategy() == strategy,
    {
        Snapshot { checkpoints: StorageMap::new_dyn(checkpoints), changelog: StorageMap::new_dyn(changelog), strategy }
    }

    fn height_key(height: u64) -> (r: Vec<Vec<u8>>)
        ensures
            r.deep_view() == seq![height_atom(height)],
            r@.len() == 1,
    {
        let mut k: Vec<Vec<u8>> = Vec::new();
        k.push(encode_u64(height));
        proof { assert(k.deep_view() =~= seq![height_atom(height)]); }
        k
    }

    fn change_key(key: &[u8], height: u64) -> (r: Vec<Vec<u8>>)
        ensures
            r.deep_view() == seq![key@, height_atom(height)],
    {
        let mut k: Vec<Vec<u8>> = Vec::new();
        k.push(slice_to_vec(key));
        k.push(encode_u64(height));
        proof { assert(k.deep_view() =~= seq![key@, height_atom(height)]); }
        k
    }

    /// Reads the checkpoint counter of a height.
    fn load_count(&self, store: &Store, height: u64) -> (r: Result<u32, StorageError>)
        requires
            self.addressable(),
        ensures
            r matches Ok(c) ==> checkpoint_count(store@, self.checkpoints_ns(), height) == Some(c as nat),
            r matches Err(e) ==> checkpoint_count(store@, self.checkpoints_ns(), height) is None && e == StorageError::Decode,
    {
        let k = Self::height_key(height);
        match self.checkpoints.may_load(store, &k) {
            None => Ok(0),
            Some(v) => {
                proof {
                    lemma_pow256_values();
                    crate::codec::lemma_be_value_bound(v@);
                }
                decode_u32(v.as_slice())
            },
        }
    }

    /// Opens one more checkpoint at `height`.
    pub fn add_checkpoint(&self, store: &mut Store, height: u64) -> (r: Result<(), StorageError>)
        requires
            self.addressable(),
        ensures
            r is Ok <==> (checkpoint_count(old(store)@, self.checkpoints_ns(), height) matches Some(c) && c < 4294967295),
            r is Ok ==> final(store)@ == old(store)@.insert(checkpoint_path(self.checkpoints_ns(), height),
                be_bytes(checkpoint_count(old(store)@, self.checkpoints_ns(), height).unwrap() + 1, 4)),
            r is Err ==> final(store)@ == old(store)@,
            r matches Err(e) ==> (e == StorageError::Decode || e == StorageError::InvariantViolation),
    {
        let count = match self.load_count(store, height) {
            Ok(c) => c,
            Err(e) => return Err(e),
        };
        if count == u32::MAX {
            return Err(StorageError::InvariantViolation);
        }
        let k = Self::height_key(height);
        let v = encode_u32(count + 1);
        proof { lemma_be_len_4((count + 1) as nat); }
        self.checkpoints.save(store, &k, v.as_slice());
        Ok(())
    }

    /// Closes one checkpoint at `height`; the counter goes when it reaches zero.
    pub fn remove_checkpoint(&self, store: &mut Store, height: u64) -> (r: Result<(), StorageError>)
        requires
            self.addressable(),
        ensures
            r is Ok <==> checkpoint_count(old(store)@, self.checkpoints_ns(), height) is Some,
            r is Ok ==> final(store)@ == if checkpoint_count(old(store)@, self.checkpoints_ns(), height).unwrap() <= 1 {
                old(store)@.remove(checkpoint_path(self.checkpoints_ns(), height))
            } else {
                old(store)@.insert(checkpoint_path(self.checkpoints_ns(), height),
                    be_bytes((checkpoint_count(old(store)@, self.checkpoints_ns(), height).unwrap() - 1) as nat, 4))
            },
            r is Err ==> final(store)@ == old(store)@,
            r matches Err(e) ==> e == StorageError::Decode,
    {
        let count = match self.load_count(store, height) {
            Ok(c) => c,
            Err(e) => return Err(e),
        };
        let k = Self::height_key(height);
        if count <= 1 {
            self.checkpoints.remove(store, &k);
        } else {
            let v = encode_u32(count - 1);
            proof { lemma_be_len_4((count - 1) as nat); }
            self.checkpoints.save(store, &k, v.as_slice());
        }
        Ok(())
    }

    /// The first changelog entry of `key` at or after `height`.
    fn first_change_since(&self, store: &Store, key: &[u8], height: u64) -> (r: Option<(Vec<u8>, Vec<u8>)>)
        requires
            self.addressable(),
            key@.len() < 65536,
        ensures
            is_first(store@, Some(change_prefix(self.changelog_ns(), key@) + height_atom(height)),
                incremented(change_prefix(self.changelog_ns(), key@)), Order::Ascending, record_view(r)),
    {
        let mut sub: Vec<Vec<u8>> = Vec::new();
        sub.push(slice_to_vec(key));
        proof {
            assert(sub.deep_view() =~= seq![key@]);
            assert(seq![self.changelog_ns()] + sub.deep_view() =~= seq![self.changelog_ns(), key@]);
        }
        let p = self.changelog.prefix(&sub);
        let mut start = slice_to_vec(p.as_slice());
        let mut h = encode_u64(height);
        start.append(&mut h);
        match increment_last_byte(p.as_slice()) {
            Some(end) => store.first(Some(start.as_slice()), Some(end.as_slice()), Order::Ascending),
            None => store.first(Some(start.as_slice()), None, Order::Ascending),
        }
    }

    /// The height of the most recent open checkpoint, if any.
    fn last_checkpoint(&self, store: &Store) -> (r: Result<Option<u64>, StorageError>)
        requires
            self.addressable(),
        ensures
            exists|full: Option<(Vec<u8>, Vec<u8>)>| {
                &&& is_first(store@, Some(map_prefix(self.checkpoints_ns())), incremented(map_prefix(self.checkpoints_ns())),
                    Order::Descending, record_view(full))
                &&& match full {
                    None => r == Ok::<Option<u64>, StorageError>(None),
                    Some(p) => {
                        let suffix = p.0@.subrange(map_prefix(self.checkpoints_ns()).len() as int, p.0@.len() as int);
                        if p.0@.len() < map_prefix(self.checkpoints_ns()).len() {
                            r == Err::<Option<u64>, StorageError>(StorageError::InvariantViolation)
                        } else if suffix.len() == 8 {
                            r == Ok::<Option<u64>, StorageError>(Some(be_value(suffix) as u64))
                                && height_atom(be_value(suffix) as u64) == suffix
                        } else {
                            r == Err::<Option<u64>, StorageError>(StorageError::Decode)
                        }
                    },
                }
            },
    {
        match self.checkpoints.last(store) {
            Ok(None) => Ok(None),
            Ok(Some((k, _))) => {
                proof {
                    lemma_pow256_values();
                    crate::codec::lemma_be_value_bound(k@);
                    crate::codec::lemma_be_bytes_of_value(k@);
                }
                match decode_u64(k.as_slice()) {
                    Ok(h) => Ok(Some(h)),
                    Err(e) => Err(e),
                }
            },
            Err(e) => Err(e),
        }
    }

    /// Whether a change of `key` at `height` should be written to the changelog.
    pub fn should_checkpoint(&self, store: &Store, key: &[u8], height: u64) -> (r: Result<bool, StorageError>)
        requires
            self.addressable(),
            key@.len() < 65536,
        ensures
            self.strategy() == Strategy::EveryBlock ==> r == Ok::<bool, StorageError>(true),
            self.strategy() == Strategy::Never ==> r == Ok::<bool, StorageError>(false),
            self.strategy() matches Strategy::Interval(i) ==> exists|first: Option<(Vec<u8>, Vec<u8>)>| {
                &&& is_first(store@, Some(change_prefix(self.changelog_ns(), key@) + height_atom(
                    if height >= i.interval { (height - i.interval) as u64 } else { 0 })),
                    incremented(change_prefix(self.changelog_ns(), key@)), Order::Ascending, record_view(first))
                &&& r == Ok::<bool, StorageError>(first is None)
            },
            self.strategy() == Strategy::Selected ==> exists|full: Option<(Vec<u8>, Vec<u8>)>| {
                &&& is_first(store@, Some(map_prefix(self.checkpoints_ns())), incremented(map_prefix(self.checkpoints_ns())),
                    Order::Descending, record_view(full))
                &&& match full {
                    None => r == Ok::<bool, StorageError>(false),
                    Some(p) => {
                        let suffix = p.0@.subrange(map_prefix(self.checkpoints_ns()).len() as int, p.0@.len() as int);
                        if p.0@.len() < map_prefix(self.checkpoints_ns()).len() {
                            r == Err::<bool, StorageError>(StorageError::InvariantViolation)
                        } else if suffix.len() != 8 {
                            r == Err::<bool, StorageError>(StorageError::Decode)
                        } else {
                            exists|first: Option<(Vec<u8>, Vec<u8>)>| {
                                &&& is_first(store@, Some(change_prefix(self.changelog_ns(), key@) + suffix),
                                    incremented(change_prefix(self.changelog_ns(), key@)), Order::Ascending, record_view(first))
                                &&& r == Ok::<bool, StorageError>(first is None)
                            }
                        }
                    },
                }
            },
    {
        match self.strategy {
            Strategy::EveryBlock => Ok(true),
            Strategy::Never => Ok(false),
            Strategy::Interval(i) => {
                let since = height.saturating_sub(i.interval);
                Ok(self.first_change_since(store, key, since).is_none())
            },
            Strategy::Selected => {
                match self.last_checkpoint(store) {
                    Err(e) => Err(e),
                    Ok(None) => Ok(false),
                    Ok(Some(h)) => {
                        let first = self.first_change_since(store, key, h);
                        Ok(first.is_none())
                    },
                }
            },
        }
    }

    /// `Ok` when the history at `height` can be reconstructed, `NotFound` otherwise.
    pub fn assert_checkpointed(&self, store: &Store, height: u64) -> (r: Result<(), StorageError>)
        requires
            self.addressable(),
        ensures
            r is Ok <==> self.is_checkpointed(store@, height),
            r matches Err(e) ==> e == StorageError::NotFound,
    {
        let has = match self.strategy {
            Strategy::EveryBlock => true,
            Strategy::Never => false,
            Strategy::Selected => self.checkpoints.has(store, &Self::height_key(height)),
            Strategy::Interval(_) => self.checkpoints.has(store, &Self::height_key(height)),
        };
        if has {
            Ok(())
        } else {
            Err(StorageError::NotFound)
        }
    }

    /// Whether a changelog entry of `key` exists at exactly `height`.
    pub fn has_changelog(&self, store: &Store, key: &[u8], height: u64) -> (r: bool)
        requires
            self.addressable(),
            key@.len() < 65536,
        ensures
            r == store@.contains_key(changelog_path(self.changelog_ns(), key@, height)),
    {
        self.changelog.has(store, &Self::change_key(key, height))
    }

    /// Records that before the change at `height`, `key` held `old` (`None`: it was absent).
    pub fn write_changelog(&self, store: &mut Store, key: &[u8], height: u64, previous: Option<&[u8]>)
        requires
            self.addressable(),
            key@.len() < 65536,
        ensures
            final(store)@ == old(store)@.insert(changelog_path(self.changelog_ns(), key@, height), changeset_bytes(bound_bytes(previous))),
    {
        let change = ChangeSet {
            old: match previous {
                Some(p) => Some(slice_to_vec(p)),
                None => None,
            },
        };
        let v = change.to_bytes();
        self.changelog.save(store, &Self::change_key(key, height), v.as_slice())
    }

    /// The value of `key` at `height`: `NotFound` when the height has no checkpoint; `Ok(None)`
    /// when no change of the key was logged since, so the live value holds; `Ok(Some(old))` with
    /// the previous value that the first logged change at or after `height` recorded.
    pub fn may_load_at_height(&self, store: &Store, key: &[u8], height: u64) -> (r: Result<Option<Option<Vec<u8>>>, StorageError>)
        requires
            self.addressable(),
            key@.len() < 65536,
        ensures
            !self.is_checkpointed(store@, height) ==> r == Err::<Option<Option<Vec<u8>>>, StorageError>(StorageError::NotFound),
            self.is_checkpointed(store@, height) ==> exists|first: Option<(Vec<u8>, Vec<u8>)>| {
                &&& is_first(store@, Some(change_prefix(self.changelog_ns(), key@) + height_atom(height)),
                    incremented(change_prefix(self.changelog_ns(), key@)), Order::Ascending, record_view(first))
                &&& match first {
                    None => r == Ok::<Option<Option<Vec<u8>>>, StorageError>(None),
                    Some(p) => match changeset_of(p.1@) {
                        Some(old) => r matches Ok(Some(o)) && bytes_view(o) == old,
                        None => r == Err::<Option<Option<Vec<u8>>>, StorageError>(StorageError::Decode),
                    },
                }
            },
    {
        if let Err(e) = self.assert_checkpointed(store, height) {
            return Err(e);
        }
        match self.first_change_since(store, key, height) {
            None => Ok(None),
            Some((_, v)) => match ChangeSet::from_bytes(v.as_slice()) {
                Ok(change) => Ok(Some(change.old)),
                Err(e) => Err(e),
            },
        }
    }
}

proof fn lemma_be_len_4(v: nat)
    ensures
        be_bytes(v, 4).len() == 4,
{
    crate::codec::lemma_be_bytes_len(v, 4);
}

} // verus!
