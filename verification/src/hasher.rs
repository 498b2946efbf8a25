//! The hash function that addresses blocks.

use vstd::prelude::*;
use vstd::string::*;

use crate::metastore::block::BlockId;
use crate::text::{dec, put_dec};

verus! {

/// The block hash of a store: BLAKE3, at one of two widths.
#[derive(Debug, Clone, Copy, PartialEq, Eq, Structural)]
pub enum Hasher {
    /// Truncated to 16 bytes.
    Blake3W16,
    /// All 32 bytes.
    Blake3W32,
}

/// Why a header's hash fields name no hash of this build.
#[derive(Debug, Clone, Copy, PartialEq, Eq)]
pub enum HasherError {
    /// The algorithm id is not known.
    UnknownAlgo(u8),
    /// The algorithm is known, the width is not.
    UnsupportedWidth(u8),
}

impl HasherError {
    /// The message an operator reads.
    pub open spec fn text(self) -> Seq<char> {
        match self {
            HasherError::UnknownAlgo(algo) => "unknown block hash algorithm id "@ + dec(
                algo as nat,
            ),
            HasherError::UnsupportedWidth(width) => "unsupported block hash width "@ + dec(
                width as nat,
            ),
        }
    }

    /// Renders the message.
    pub fn to_string(&self) -> (out: String)
        ensures
            out@ == self.text(),
    {
        match self {
            HasherError::UnknownAlgo(algo) => {
                let mut out = "unknown block hash algorithm id ".to_owned();
                put_dec(&mut out, *algo as u64);
                out
            },
            HasherError::UnsupportedWidth(width) => {
                let mut out = "unsupported block hash width ".to_owned();
                put_dec(&mut out, *width as u64);
                out
            },
        }
    }
}

/// The hash that a header's two fields name.
pub open spec fn header_hasher(algo: u8, width: u8) -> Result<Hasher, HasherError> {
    if algo != 1 {
        Err(HasherError::UnknownAlgo(algo))
    } else if width == 16 {
        Ok(Hasher::Blake3W16)
    } else if width == 32 {
        Ok(Hasher::Blake3W32)
    } else {
        Err(HasherError::UnsupportedWidth(width))
    }
}

/// The BLAKE3 digest of some bytes.
pub uninterp spec fn blake3_digest(data: Seq<u8>) -> Seq<u8>;

/// Calls `blake3::hash`: the 32-byte digest of the input, which depends on the
/// input alone.
#[verifier::external_body]
fn blake3_hash(data: &[u8]) -> (digest: [u8; 32])
    ensures
        digest@ == blake3_digest(data@),
{
    *blake3::hash(data).as_bytes()
}

impl Hasher {
    /// The algorithm id written to a store header.
    pub open spec fn algo(self) -> u8 {
        1
    }

    /// The address width in bytes.
    pub open spec fn bytes(self) -> u8 {
        match self {
            Hasher::Blake3W16 => 16,
            Hasher::Blake3W32 => 32,
        }
    }

    /// The address of a block with these contents.
    pub open spec fn address(self, data: Seq<u8>) -> Seq<u8> {
        blake3_digest(data).subrange(0, self.bytes() as int)
    }

    /// The hash that a header's two fields name.
    pub fn from_header(algo: u8, width: u8) -> (out: Result<Self, HasherError>)
        ensures
            out == header_hasher(algo, width),
    {
        if algo != 1 {
            return Err(HasherError::UnknownAlgo(algo));
        }
        match width {
            16 => Ok(Hasher::Blake3W16),
            32 => Ok(Hasher::Blake3W32),
            other => Err(HasherError::UnsupportedWidth(other)),
        }
    }

    /// The algorithm id written to a store header.
    pub fn algo_id(&self) -> (id: u8)
        ensures
            id == self.algo(),
    {
        1
    }

    /// The address width in bytes.
    pub fn width(&self) -> (width: u8)
        ensures
            width == self.bytes(),
    {
        match self {
            Hasher::Blake3W16 => 16,
            Hasher::Blake3W32 => 32,
        }
    }

    /// The address of a block with these contents.
    pub fn hash(&self, data: &[u8]) -> (id: BlockId)
        ensures
            id@ == self.address(data@),
    {
        self.truncate(blake3_hash(data))
    }

    /// The address that a digest is cut to.
    pub fn truncate(&self, digest: [u8; 32]) -> (id: BlockId)
        ensures
            id@ == digest@.subrange(0, self.bytes() as int),
    {
        match self {
            Hasher::Blake3W16 => {
                let mut short = [0u8;16];
                let mut i: usize = 0;
                while i < 16
                    invariant
                        i <= 16,
                        forall|j: int| 0 <= j < i ==> short@[j] == digest@[j],
                    decreases 16 - i,
                {
                    short[i] = digest[i];
                    i = i + 1;
                }
                proof {
                    assert(short@ =~= digest@.subrange(0, 16));
                }
                BlockId::from(short)
            },
            Hasher::Blake3W32 => {
                proof {
                    assert(digest@ =~= digest@.subrange(0, 32));
                }
                BlockId::from(digest)
            },
        }
    }
}

} // verus!
