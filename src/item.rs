//! One value stored at a fixed key.
use vstd::prelude::*;

use crate::error::StorageError;
use crate::namespace::Namespace;
use crate::path::{bytes_view, stored};
use crate::store::Store;

verus! {

/// A single value stored at the namespace bytes themselves, with no length prefix.
#[derive(Clone, Debug)]
pub struct Item {
    storage_key: Namespace,
}

impl View for Item {
    type V = Seq<u8>;

    closed spec fn view(&self) -> Seq<u8> {
        self.storage_key@
    }
}

impl Item {
    /// An item stored at the UTF-8 bytes of the given name.
    pub fn new(storage_key: &'static str) -> (r: Item)
        ensures
            r@ == vstd::utf8::encode_utf8(storage_key@),
    {
        Item { storage_key: Namespace::from_static_str(storage_key) }
    }

    /// An item stored at the given namespace.
    pub fn new_dyn(storage_key: Namespace) -> (r: Item)
        ensures
            r@ == storage_key@,
    {
        Item { storage_key }
    }

    /// The key the item is stored at.
    pub fn as_slice(&self) -> (r: &[u8])
        ensures
            r@ == self@,
    {
        self.storage_key.as_slice()
    }

    /// Stores the value.
    pub fn save(&self, store: &mut Store, data: &[u8])
        requires
            data@.len() > 0,
        ensures
            final(store)@ == old(store)@.insert(self@, data@),
    {
        store.set(self.storage_key.as_slice(), data)
    }

    /// Removes the value; removing an absent one changes nothing.
    pub fn remove(&self, store: &mut Store)
        ensures
            final(store)@ == old(store)@.remove(self@),
    {
        store.remove(self.storage_key.as_slice())
    }

    /// The value, or `NotFound`.
    pub fn load(&self, store: &Store) -> (r: Result<Vec<u8>, StorageError>)
        ensures
            r matches Ok(v) ==> stored(store@, self@) == Some(v@),
            r matches Err(e) ==> stored(store@, self@) is None && e == StorageError::NotFound,
    {
        match store.get(self.storage_key.as_slice()) {
            Some(v) => Ok(v),
            None => Err(StorageError::NotFound),
        }
    }

    /// The value, if any.
    pub fn may_load(&self, store: &Store) -> (r: Option<Vec<u8>>)
        ensures
            bytes_view(r) == stored(store@, self@),
    {
        store.get(self.storage_key.as_slice())
    }

    /// Whether a value is stored.
    pub fn has(&self, store: &Store) -> (r: bool)
        ensures
            r == store@.contains_key(self@),
    {
        store.get(self.storage_key.as_slice()).is_some()
    }

    /// Loads the value, which must be present, hands it to `action` and stores what it
    /// returns. When the value is absent the error is `NotFound` converted; when the action
    /// fails nothing is written.
    pub fn update<A, E>(&self, store: &mut Store, action: A) -> (r: Result<Vec<u8>, E>)
        where
            A: FnOnce(Vec<u8>) -> Result<Vec<u8>, E>,
            E: From<StorageError>,
        requires
            forall|input: Vec<u8>| #[trigger] action.requires((input,)),
            forall|input: Vec<u8>, out: Result<Vec<u8>, E>|
                #[trigger] action.ensures((input,), out) ==> (out matches Ok(v) ==> v@.len() > 0),
        ensures
            stored(old(store)@, self@) is None ==> final(store)@ == old(store)@ && (r matches Err(e)
                && call_ensures(E::from, (StorageError::NotFound,), e)),
            stored(old(store)@, self@) is Some ==> exists|input: Vec<u8>| {
                &&& Some(input@) == stored(old(store)@, self@)
                &&& action.ensures((input,), r)
            },
            r matches Ok(v) ==> final(store)@ == old(store)@.insert(self@, v@),
            r is Err ==> final(store)@ == old(store)@,
    {
        let input = match self.load(store) {
            Ok(v) => v,
            Err(e) => return Err(E::from(e)),
        };
        match action(input) {
            Ok(v) => {
                self.save(store, v.as_slice());
                Ok(v)
            },
            Err(e) => Err(e),
        }
    }
}

} // verus!
