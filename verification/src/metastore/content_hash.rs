//! The digest an ETag is made from.

use vstd::array::array_as_slice;
use vstd::prelude::*;
use vstd::std_specs::convert::FromSpecImpl;

use crate::text::{hex, hex_string};

verus! {

/// Size of a content hash in bytes (the width of an MD5 digest).
pub const CONTENT_HASH_SIZE: usize = 16;

/// MD5 digest of an object's (or multipart part's) full content: the source of
/// the S3 ETag. It is never a block address.
#[derive(Debug, Clone, Copy, PartialEq, Eq)]
pub struct ContentHash(pub [u8; 16]);

impl View for ContentHash {
    type V = Seq<u8>;

    open spec fn view(&self) -> Seq<u8> {
        self.0@
    }
}

impl ContentHash {
    /// Returns the digest as a byte slice.
    pub fn as_slice(&self) -> (bytes: &[u8])
        ensures
            bytes@ == self@,
    {
        array_as_slice(&self.0)
    }

    /// Returns the digest as lowercase hex, the form an ETag is rendered in.
    pub fn to_hex(&self) -> (text: String)
        ensures
            text@ == hex(self@),
    {
        hex_string(self.as_slice())
    }
}

impl From<[u8; 16]> for ContentHash {
    fn from(bytes: [u8; 16]) -> (hash: Self) {
        ContentHash(bytes)
    }
}

impl FromSpecImpl<[u8; 16]> for ContentHash {
    open spec fn obeys_from_spec() -> bool {
        true
    }

    open spec fn from_spec(bytes: [u8; 16]) -> Self {
        ContentHash(bytes)
    }
}

impl From<ContentHash> for [u8; 16] {
    fn from(hash: ContentHash) -> (bytes: Self) {
        hash.0
    }
}

impl FromSpecImpl<ContentHash> for [u8; 16] {
    open spec fn obeys_from_spec() -> bool {
        true
    }

    open spec fn from_spec(hash: ContentHash) -> Self {
        hash.0
    }
}

} // verus!
