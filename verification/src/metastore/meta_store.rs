//! The metadata store: buckets, objects, blocks and usage counters over a
//! backing database.

use vstd::prelude::*;
use vstd::string::*;

use super::block::{decode_block, Block};
use super::errors::{FsError, MetaError};
use super::traits::{lookup, Rows, Store};
use crate::bytes::{get_le, le_value};
use crate::text::{dec, put_len_dec};

pub mod block_tree;
pub mod ops;
pub mod transaction;

pub use block_tree::BlockTree;
pub use transaction::{BlockDecrement, Transaction};

verus! {

/// The tree of bucket records.
pub const DEFAULT_BUCKET_TREE: &'static str = "_BUCKETS";

/// The tree of block records, in the shared blocks database.
pub const DEFAULT_BLOCK_TREE: &'static str = "_BLOCKS";

/// The tree of in-flight multipart part records, in the shared blocks database.
/// Part records hold references to blocks.
pub const MULTIPART_PARTS_TREE: &'static str = "_MULTIPART_PARTS";

/// The tree of in-flight multipart upload records, in the shared blocks
/// database. An upload exists exactly while its record does.
pub const UPLOADS_TREE: &'static str = "_UPLOADS";

/// The tree of per-bucket usage counters: the logical bytes that a bucket's
/// records add up to, one 8-byte little-endian row per bucket name.
pub const DEFAULT_USAGE_TREE: &'static str = "_USAGE";

/// The metadata store.
pub struct MetaStore<S: Store> {
    /// The backing database.
    pub store: S,
    /// Objects up to this record size keep their data in the record.
    pub inlined_metadata_size: usize,
}

/// The record of a block, where there is one.
pub open spec fn block_at(rows: Rows, id: Seq<u8>) -> Option<Result<Block, FsError>> {
    match lookup(rows, DEFAULT_BLOCK_TREE@, id) {
        Some(raw) => Some(decode_block(raw)),
        None => None,
    }
}

/// What a usage counter row says; nothing where it has another width than eight
/// bytes.
pub open spec fn usage_value(raw: Seq<u8>) -> Option<nat> {
    if raw.len() == 8 {
        Some(le_value(raw))
    } else {
        None
    }
}

/// The complaint about a usage counter row of the wrong width.
pub open spec fn usage_text(bucket: Seq<char>, width: nat) -> Seq<char> {
    "the usage counter of "@ + bucket + " is "@ + dec(width) + " bytes, not 8"@
}

/// Whether an error is the complaint about a usage counter row.
pub open spec fn is_usage_error(e: MetaError, bucket: Seq<char>, raw: Seq<u8>) -> bool {
    e matches MetaError::OtherDBError(text) && text@ == usage_text(bucket, raw.len())
}

/// Reads a usage counter row.
///
/// The width is exact: a row of any other length is damage, and answering a
/// quota from a misread number is worse than refusing to.
pub fn decode_usage(bucket: &str, raw: &[u8]) -> (out: Result<u64, MetaError>)
    ensures
        match out {
            Ok(n) => usage_value(raw@) == Some(n as nat),
            Err(e) => usage_value(raw@) is None && is_usage_error(e, bucket@, raw@),
        },
{
    if raw.len() == 8 {
        Ok(get_le(raw))
    } else {
        let mut text = "the usage counter of ".to_owned();
        text.append(bucket);
        text.append(" is ");
        put_len_dec(&mut text, raw.len());
        text.append(" bytes, not 8");
        Err(MetaError::OtherDBError(text))
    }
}

/// A usage counter moved by a number of bytes: never below zero, never past
/// what eight bytes hold.
pub open spec fn moved_usage(current: nat, delta: int) -> nat {
    if current + delta < 0 {
        0
    } else if current + delta > u64::MAX {
        u64::MAX as nat
    } else {
        (current + delta) as nat
    }
}

} // verus!
