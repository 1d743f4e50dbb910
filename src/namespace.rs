//! The byte-string identity of a collection.
use vstd::prelude::*;
use vstd::slice::slice_to_vec;
use vstd::utf8::encode_utf8;

verus! {

/// The namespace of a storage container: a byte string fixed when the container is made.
#[derive(Clone, Debug, PartialEq, Eq, Hash, PartialOrd, Ord)]
pub struct Namespace {
    bytes: Vec<u8>,
}

impl View for Namespace {
    type V = Seq<u8>;

    closed spec fn view(&self) -> Seq<u8> {
        self.bytes@
    }
}

impl Namespace {
    /// The namespace named by a string: its UTF-8 bytes.
    pub fn from_static_str(s: &'static str) -> (r: Namespace)
        ensures
            r@ == encode_utf8(s@),
    {
        Namespace { bytes: slice_to_vec(s.as_bytes()) }
    }

    /// The namespace named by an owned string.
    pub fn from_string(s: String) -> (r: Namespace)
        ensures
            r@ == encode_utf8(s@),
    {
        Namespace { bytes: slice_to_vec(s.as_str().as_bytes()) }
    }

    /// The namespace with the given bytes.
    pub fn from_bytes(bytes: Vec<u8>) -> (r: Namespace)
        ensures
            r@ == bytes@,
    {
        Namespace { bytes }
    }

    pub fn as_slice(&self) -> (r: &[u8])
        ensures
            r@ == self@,
    {
        self.bytes.as_slice()
    }
}

} // verus!
