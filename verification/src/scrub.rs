//! Offline consistency checking: walk a store's holders, block records and
//! block files, report what disagrees, and plan what is safely fixable.

use vstd::prelude::*;
use vstd::string::*;

use crate::cas::{SharedBlockStore, BLOCKS_DB_DIR_NAME};
use crate::metastore::block::{join_path, path_join};
use crate::metastore::meta_store::MetaStore;
use crate::metastore::store_header::STORE_HEADER_SIDECAR;
use crate::metastore::traits::{Store, TransactionBackend};

pub mod disk;
pub mod engine;
pub mod findings;
pub mod holder_laws;
pub mod holders;
pub mod id_map;
pub mod pairing;
pub mod passes;
pub mod records;
pub mod repair;
pub mod report;
pub mod trees;

pub use disk::{walk_disk, BlockFile, DiskWalk, ForeignPath};
pub use engine::{run, ScrubError, ScrubOptions};
pub use findings::{Finding, FindingClass, HolderRef, Severity};
pub use holders::{expected_counts, holders_of, ExpectedCounts, HolderEnumerationError};
pub use pairing::{re_pair, Pairing, PairingError, RePair};
pub use records::{walk_records, RecordWalk};
pub use repair::run::{repair, RepairRun};
pub use repair::summary::{RepairCounts, RepairOutcome, RepairStatus, RepairSummary};
pub use repair::{RepairAction, RepairContext, RepairError};
pub use report::{exit_code, Pass, Report, StoreRef, Summary};

verus! {

/// What a walker needs from an opened store.
///
/// The two halves are separate databases and neither can see the other's
/// records: the namespace database holds the bucket trees, the shared block
/// store holds the block, part and upload records.
pub struct ScrubContext<'a, N: Store, B: Store> {
    /// The namespace metadata store.
    pub namespace: &'a MetaStore<N>,
    /// The shared block store.
    pub shared: &'a SharedBlockStore<B>,
    /// The metadata root, if the opener supplied it.
    pub meta_root: Option<String>,
}

/// The paths of a store's own metadata under a meta root.
pub open spec fn own_paths(meta_root: Seq<char>) -> Seq<Seq<char>> {
    seq![
        path_join(meta_root, "db"@),
        path_join(meta_root, STORE_HEADER_SIDECAR@),
        path_join(path_join(meta_root, "blocks"@), BLOCKS_DB_DIR_NAME@),
        path_join(path_join(meta_root, "blocks"@), STORE_HEADER_SIDECAR@),
    ]
}

impl<'a, N: Store, B: Store> ScrubContext<'a, N, B> {
    /// Whether both databases answer every call.
    pub open spec fn healthy(&self) -> bool {
        self.namespace.store.healthy() && self.shared.meta.store.healthy()
    }

    /// Builds a context over an opened namespace and its block store.
    pub fn new(namespace: &'a MetaStore<N>, shared: &'a SharedBlockStore<B>) -> (ctx: Self)
        ensures
            ctx == (ScrubContext { namespace, shared, meta_root: None }),
    {
        ScrubContext { namespace, shared, meta_root: None }
    }

    /// Records the metadata root, for the report to name.
    pub fn with_meta_root(self, meta_root: String) -> (ctx: Self)
        ensures
            ctx == (ScrubContext { meta_root: Some(meta_root), ..self }),
    {
        ScrubContext {
            namespace: self.namespace,
            shared: self.shared,
            meta_root: Some(meta_root),
        }
    }

    /// The metadata root, if the opener supplied it.
    pub fn meta_root(&self) -> (root: Option<&str>)
        ensures
            match (root, self.meta_root) {
                (Some(root), Some(have)) => root@ == have@,
                (None, None) => true,
                _ => false,
            },
    {
        match &self.meta_root {
            Some(root) => Some(root.as_str()),
            None => None,
        }
    }

    /// Paths that are the store's own metadata rather than block data: the two
    /// databases and the header copy beside each. Without a meta root there is
    /// nothing to derive them from.
    pub fn store_own_paths(&self) -> (paths: Vec<String>)
        ensures
            match self.meta_root {
                None => paths@.len() == 0,
                Some(root) => paths@.map_values(|p: String| p@) == own_paths(root@),
            },
    {
        let mut paths: Vec<String> = Vec::new();
        match &self.meta_root {
            None => {},
            Some(root) => {
                let blocks = join_path(root, "blocks");
                paths.push(join_path(root, "db"));
                paths.push(join_path(root, STORE_HEADER_SIDECAR));
                paths.push(join_path(&blocks, BLOCKS_DB_DIR_NAME));
                paths.push(join_path(&blocks, STORE_HEADER_SIDECAR));
                proof {
                    assert(paths@.map_values(|p: String| p@) =~= own_paths(root@));
                }
            },
        }
        paths
    }

    /// The namespace metadata store.
    pub fn namespace(&self) -> (namespace: &MetaStore<N>)
        ensures
            namespace == self.namespace,
    {
        self.namespace
    }

    /// The shared block store.
    pub fn shared(&self) -> (shared: &SharedBlockStore<B>)
        ensures
            shared == self.shared,
    {
        self.shared
    }

    /// Root directory of the block data files.
    pub fn blocks_root(&self) -> (root: &str)
        ensures
            root@ == self.shared.blocks_root@,
    {
        self.shared.blocks_root()
    }

    /// Width in bytes of the addresses this store files its blocks under.
    pub fn id_width(&self) -> (width: usize)
        ensures
            width == self.shared.hasher.bytes(),
    {
        self.shared.hasher().width() as usize
    }
}

/// A store's own metadata under a root is the namespace database, the blocks
/// database and a copy of each one's header, and nothing else.
pub proof fn lemma_own_paths(root: Seq<char>, path: Seq<char>)
    requires
        root.len() > 0,
        root.last() != '/',
    ensures
        own_paths(root).contains(path) <==> {
            ||| path == root + "/"@ + "db"@
            ||| path == root + "/"@ + "store_header.bin"@
            ||| path == root + "/"@ + "blocks"@ + "/"@ + ".db"@
            ||| path == root + "/"@ + "blocks"@ + "/"@ + "store_header.bin"@
        },
{
    reveal_strlit("/");
    reveal_strlit("blocks");
    let own = own_paths(root);
    let blocks = root + "/"@ + "blocks"@;
    assert(blocks.last() == 's');
    assert(path_join(root, "blocks"@) =~= blocks);
    assert(own[0] =~= root + "/"@ + "db"@);
    assert(own[1] =~= root + "/"@ + "store_header.bin"@);
    assert(own[2] =~= blocks + "/"@ + ".db"@);
    assert(own[3] =~= blocks + "/"@ + "store_header.bin"@);
}

} // verus!
