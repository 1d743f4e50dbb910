//! Framing of encoded values for a store that cannot hold empty values.
use vstd::prelude::*;
use vstd::slice::slice_subrange;

verus! {

/// The stored form of an encoded value: an empty encoding (protobuf writes zero, `false` or an
/// all-absent message as no bytes) becomes a single zero byte, which no protobuf encoding is.
pub open spec fn framed(bytes: Seq<u8>) -> Seq<u8> {
    if bytes.len() == 0 {
        seq![0u8]
    } else {
        bytes
    }
}

/// The encoding that stored bytes hold: a single zero byte stands for the empty encoding.
pub open spec fn unframed(bytes: Seq<u8>) -> Seq<u8> {
    if bytes == seq![0u8] {
        seq![]
    } else {
        bytes
    }
}

/// Frames an encoded value for storage; the result is never empty.
pub fn frame_encoded(bytes: Vec<u8>) -> (r: Vec<u8>)
    ensures
        r@ == framed(bytes@),
        r@.len() > 0,
{
    if bytes.len() == 0 {
        let mut r: Vec<u8> = Vec::new();
        r.push(0);
        proof { assert(r@ =~= seq![0u8]); }
        r
    } else {
        bytes
    }
}

/// The encoded value that stored bytes hold.
pub fn unframe_stored(bytes: &[u8]) -> (r: &[u8])
    ensures
        r@ == unframed(bytes@),
{
    if bytes.len() == 1 && bytes[0] == 0 {
        proof { assert(bytes@ =~= seq![0u8]); }
        let r = slice_subrange(bytes, 0, 0);
        proof { assert(r@ =~= Seq::<u8>::empty()); }
        r
    } else {
        proof {
            if bytes@ == seq![0u8] {
                assert(bytes@[0] == 0);
            }
        }
        bytes
    }
}

/// Reading back a framed value gives the encoding that was framed, for every encoding other
/// than the single zero byte.
pub proof fn lemma_frame_round_trip(bytes: Seq<u8>)
    requires
        bytes != seq![0u8],
    ensures
        unframed(framed(bytes)) == bytes,
{
    if bytes.len() == 0 {
        assert(bytes =~= Seq::<u8>::empty());
    }
}

} // verus!
