//! The absolute storage address of one entry: a nested namespace and a composite key.
use vstd::prelude::*;
use vstd::slice::slice_to_vec;

use crate::codec::{namespace_with_key, nested_prefix, prefixable};
use crate::error::StorageError;
use crate::order::lemma_bytes_deep_view;
use crate::store::Store;

verus! {

broadcast use lemma_bytes_deep_view;

/// The address of a key under a namespace: the namespace and all key atoms but the last
/// length-prefixed, then the last atom.
pub open spec fn key_path(namespace: Seq<u8>, keys: Seq<Seq<u8>>) -> Seq<u8> {
    nested_prefix(seq![namespace] + keys.drop_last()) + keys.last()
}

/// The atoms of a key fit under a namespace: there is at least one, and the namespace and all
/// atoms but the last fit a 2-byte length header.
pub open spec fn addressable(namespace: Seq<u8>, keys: Seq<Seq<u8>>) -> bool {
    &&& keys.len() >= 1
    &&& namespace.len() < 65536
    &&& forall|i: int| 0 <= i < keys.len() - 1 ==> #[trigger] keys[i].len() < 65536
}

/// The stored value of an entry, `None` when absent.
pub open spec fn stored(m: Map<Seq<u8>, Seq<u8>>, k: Seq<u8>) -> Option<Seq<u8>> {
    if m.contains_key(k) {
        Some(m[k])
    } else {
        None
    }
}

pub open spec fn bytes_view(o: Option<Vec<u8>>) -> Option<Seq<u8>> {
    match o {
        Some(v) => Some(v@),
        None => None,
    }
}

/// An absolute storage key.
#[derive(Clone, Debug)]
pub struct Path {
    storage_key: Vec<u8>,
}

impl View for Path {
    type V = Seq<u8>;

    closed spec fn view(&self) -> Seq<u8> {
        self.storage_key@
    }
}

impl Path {
    /// The address of `keys` under `namespace`.
    pub fn new(namespace: &[u8], keys: &Vec<Vec<u8>>) -> (r: Path)
        requires
            addressable(namespace@, keys.deep_view()),
        ensures
            r@ == key_path(namespace@, keys.deep_view()),
    {
        let l = keys.len();
        let mut combined: Vec<Vec<u8>> = Vec::new();
        combined.push(slice_to_vec(namespace));
        let mut i: usize = 0;
        while i < l - 1
            invariant
                l == keys@.len(),
                l >= 1,
                0 <= i <= l - 1,
                combined@.len() == i + 1,
                combined.deep_view() =~= seq![namespace@] + keys.deep_view().subrange(0, i as int),
            decreases l - 1 - i,
        {
            let atom = slice_to_vec(keys[i].as_slice());
            let ghost before = combined@;
            let ghost before_dv = combined.deep_view();
            combined.push(atom);
            proof {
                assert forall|j: int| 0 <= j < i + 2 implies #[trigger] combined.deep_view()[j] == (seq![namespace@] + keys.deep_view().subrange(0, i + 1))[j] by {
                    if j < i + 1 {
                        assert(combined@[j] == before[j]);
                        assert(before_dv[j] == before[j].deep_view());
                    } else {
                        assert(combined@[j] == atom);
                    }
                }
                assert(combined.deep_view() =~= seq![namespace@] + keys.deep_view().subrange(0, i + 1));
            }
            i = i + 1;
        }
        proof {
            let kv = keys.deep_view();
            assert(kv.drop_last() =~= kv.subrange(0, l - 1));
            assert(prefixable(combined.deep_view())) by {
                assert forall|j: int| 0 <= j < combined.deep_view().len() implies #[trigger] combined.deep_view()[j].len() < 65536 by {
                    if j > 0 {
                        assert(combined.deep_view()[j] == kv[j - 1]);
                    }
                }
            }
        }
        Path { storage_key: namespace_with_key(&combined, keys[l - 1].as_slice()) }
    }

    pub fn as_slice(&self) -> (r: &[u8])
        ensures
            r@ == self@,
    {
        self.storage_key.as_slice()
    }

    /// Stores the value at this address.
    pub fn save(&self, store: &mut Store, data: &[u8])
        requires
            data@.len() > 0,
        ensures
            final(store)@ == old(store)@.insert(self@, data@),
    {
        store.set(self.storage_key.as_slice(), data)
    }

    /// Removes the value at this address; removing an absent one changes nothing.
    pub fn remove(&self, store: &mut Store)
        ensures
            final(store)@ == old(store)@.remove(self@),
    {
        store.remove(self.storage_key.as_slice())
    }

    /// The value at this address, or `NotFound`.
    pub fn load(&self, store: &Store) -> (r: Result<Vec<u8>, StorageError>)
        ensures
            r matches Ok(v) ==> stored(store@, self@) == Some(v@),
            r matches Err(e) ==> stored(store@, self@) is None && e == StorageError::NotFound,
    {
        match store.get(self.storage_key.as_slice()) {
            Some(v) => Ok(v),
            None => Err(StorageError::NotFound),
        }
    }

    /// The value at this address, if any.
    pub fn may_load(&self, store: &Store) -> (r: Option<Vec<u8>>)
        ensures
            bytes_view(r) == stored(store@, self@),
    {
        store.get(self.storage_key.as_slice())
    }

    /// Whether a value is stored at this address.
    pub fn has(&self, store: &Store) -> (r: bool)
        ensures
            r == store@.contains_key(self@),
    {
        store.get(self.storage_key.as_slice()).is_some()
    }

    /// Loads the value, hands it to `action`, and stores what the action returns. When the
    /// action fails nothing is written.
    pub fn update<A, E>(&self, store: &mut Store, action: A) -> (r: Result<Vec<u8>, E>)
        where
            A: FnOnce(Option<Vec<u8>>) -> Result<Vec<u8>, E>,
        requires
            forall|input: Option<Vec<u8>>| #[trigger] action.requires((input,)),
            forall|input: Option<Vec<u8>>, out: Result<Vec<u8>, E>|
                #[trigger] action.ensures((input,), out) ==> (out matches Ok(v) ==> v@.len() > 0),
        ensures
            exists|input: Option<Vec<u8>>| {
                &&& bytes_view(input) == stored(old(store)@, self@)
                &&& action.ensures((input,), r)
            },
            r matches Ok(v) ==> final(store)@ == old(store)@.insert(self@, v@),
            r is Err ==> final(store)@ == old(store)@,
    {
        let input = self.may_load(store);
        let output = action(input);
        match output {
            Ok(v) => {
                self.save(store, v.as_slice());
                Ok(v)
            },
            Err(e) => Err(e),
        }
    }
}

} // verus!
