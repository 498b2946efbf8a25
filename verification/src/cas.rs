//! The block store that a namespace's objects refer to.

use vstd::prelude::*;

use crate::hasher::Hasher;
use crate::metastore::meta_store::MetaStore;
use crate::metastore::traits::Store;

pub mod multipart;

verus! {

/// Directory of the blocks database, under the blocks directory of a meta root.
pub const BLOCKS_DB_DIR_NAME: &'static str = ".db";

/// Directory that block files are written in before they are renamed into
/// place.
pub const TMP_DIR_NAME: &'static str = ".tmp";

/// Directory that repairs move files to.
pub const QUARANTINE_DIR_NAME: &'static str = ".quarantine";

/// File that names the store a blocks root belongs to.
pub const STORE_ID_MARKER_NAME: &'static str = ".store-id";

/// The shared half of a store: block records, part and upload records, and
/// where the block files are.
pub struct SharedBlockStore<S: Store> {
    /// The blocks database.
    pub meta: MetaStore<S>,
    /// Root directory of the block files.
    pub blocks_root: String,
    /// The hash that addresses the blocks.
    pub hasher: Hasher,
}

impl<S: Store> SharedBlockStore<S> {
    /// Puts the shared half of a store together.
    pub fn new(meta: MetaStore<S>, blocks_root: String, hasher: Hasher) -> (shared: Self)
        ensures
            shared == (SharedBlockStore { meta, blocks_root, hasher }),
    {
        SharedBlockStore { meta, blocks_root, hasher }
    }

    /// The blocks database.
    pub fn meta_store(&self) -> (meta: &MetaStore<S>)
        ensures
            *meta == self.meta,
    {
        &self.meta
    }

    /// Root directory of the block files.
    pub fn blocks_root(&self) -> (root: &str)
        ensures
            root@ == self.blocks_root@,
    {
        &self.blocks_root
    }

    /// The hash that addresses the blocks.
    pub fn hasher(&self) -> (hasher: Hasher)
        ensures
            hasher == self.hasher,
    {
        self.hasher
    }
}

} // verus!
