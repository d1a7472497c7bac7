//! The bytes of a block, borrowed from the image or owned.

use vstd::prelude::*;

verus! {

#[verifier::external_type_specification]
#[verifier::external_body]
pub struct ExBytes(bytes::Bytes);

/// The bytes that a `bytes::Bytes` holds.
pub uninterp spec fn shared_bytes(b: bytes::Bytes) -> Seq<u8>;

/// `<bytes::Bytes as From<Vec<u8>>>::from`: a buffer that holds the bytes of
/// the vector.
#[verifier::external_body]
pub(crate) fn share(v: Vec<u8>) -> (b: bytes::Bytes)
    ensures
        shared_bytes(b) == v@,
{
    bytes::Bytes::from(v)
}

/// `<bytes::Bytes as Deref>::deref`: the bytes that the buffer holds.
#[verifier::external_body]
fn shared_slice(b: &bytes::Bytes) -> (s: &[u8])
    ensures
        s@ == shared_bytes(*b),
{
    b
}

/// Something that holds the bytes of a block.
pub trait Block {
    /// The bytes.
    spec fn bytes(&self) -> Seq<u8>;

    /// The bytes.
    fn as_bytes(&self) -> (s: &[u8])
        ensures
            s@ == self.bytes(),
    ;
}

impl<'a> Block for &'a [u8] {
    open spec fn bytes(&self) -> Seq<u8> {
        self@
    }

    fn as_bytes(&self) -> (s: &[u8]) {
        self
    }
}

impl Block for Vec<u8> {
    open spec fn bytes(&self) -> Seq<u8> {
        self@
    }

    fn as_bytes(&self) -> (s: &[u8]) {
        self.as_slice()
    }
}

impl Block for bytes::Bytes {
    open spec fn bytes(&self) -> Seq<u8> {
        shared_bytes(*self)
    }

    fn as_bytes(&self) -> (s: &[u8]) {
        shared_slice(self)
    }
}

} // verus!
