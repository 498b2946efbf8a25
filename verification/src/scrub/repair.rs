//! Repair: what to do about what a scrub found.
//!
//! Four rules hold this together:
//!
//! - **Report first.** The report is an input, produced before any of this runs.
//! - **Idempotent.** Each action tolerates having already been applied: a count
//!   is set to a value rather than adjusted, unlinks and moves tolerate a file
//!   that is gone, the degraded flag is set rather than toggled.
//! - **Loss-never.** A count only ever moves to a value derived from a complete
//!   holder walk, so every action that moves one is gated on the recount having
//!   run.
//! - **Quarantine, never delete**, for corrupt blocks and foreign files. Only
//!   files nothing can reference are deleted.

use vstd::prelude::*;
use vstd::string::*;

use self::summary::{OutcomeView, RepairOutcome, RepairStatus};
use super::engine::ScrubError;
use super::findings::storage_key_text;
use super::holders::HolderEnumerationError;
use super::ScrubContext;
use crate::cas::SharedBlockStore;
use crate::metastore::block::BlockId;
use crate::metastore::errors::MetaError;
use crate::metastore::meta_store::MetaStore;
use crate::metastore::traits::Store;
use crate::text::{copy_opt, hex, opt_text};

pub mod action_laws;
pub mod actions;
pub mod adopt;
pub mod apply;
pub mod apply_laws;
pub mod fixed_point;
pub mod laws;
pub mod plan;
pub mod plan_blocks;
pub mod plan_laws;
pub mod quarantine;
pub mod release;
pub mod run;
pub mod summary;
pub mod unfinished;

verus! {

/// Schema version of the repair document. Bumped only by a breaking change to
/// the field names or their meaning.
pub const REPAIR_VERSION: u32 = 1;

/// What a repair run may touch: one opened store.
pub struct RepairContext<N: Store, B: Store> {
    /// The namespace metadata store.
    pub namespace: MetaStore<N>,
    /// The shared block store.
    pub shared: SharedBlockStore<B>,
    /// The metadata root, if the opener supplied it.
    pub meta_root: Option<String>,
}

impl<N: Store, B: Store> RepairContext<N, B> {
    /// Builds a repair context over an opened store.
    pub fn new(namespace: MetaStore<N>, shared: SharedBlockStore<B>) -> (ctx: Self)
        ensures
            ctx == (RepairContext { namespace, shared, meta_root: None }),
    {
        RepairContext { namespace, shared, meta_root: None }
    }

    /// Records the metadata root, so the report after the repair can name the
    /// store it is about.
    pub fn with_meta_root(self, meta_root: String) -> (ctx: Self)
        ensures
            ctx == (RepairContext { meta_root: Some(meta_root), ..self }),
    {
        RepairContext { namespace: self.namespace, shared: self.shared, meta_root: Some(meta_root) }
    }

    /// The read-only view of the same store, for the walks and the passes.
    pub fn scrub_context(&self) -> (ctx: ScrubContext<'_, N, B>)
        ensures
            *ctx.namespace == self.namespace,
            *ctx.shared == self.shared,
            opt_text(ctx.meta_root) == opt_text(self.meta_root),
    {
        ScrubContext {
            namespace: &self.namespace,
            shared: &self.shared,
            meta_root: copy_opt(&self.meta_root),
        }
    }
}

/// A repair that could not run at all.
#[derive(Debug)]
pub enum RepairError {
    /// The passes after the repair could not be run.
    Scrub(ScrubError),
    /// The holder set would not close for the recount the repair was authorised
    /// to apply.
    Holders(HolderEnumerationError),
    /// The metadata store would not answer.
    Store(MetaError),
    /// The blocks root would not walk.
    Disk(String),
}

impl RepairError {
    /// The message.
    pub open spec fn text(self) -> Seq<char> {
        match self {
            RepairError::Scrub(e) => "the post-repair scrub could not run: "@ + e.text(),
            RepairError::Holders(e) => e.text()
                + ". The report this repair was authorised by did close the holder set, so the store changed under the run: re-run fsck"@,
            RepairError::Store(e) => "the metadata store could not be read: "@ + e.text(),
            RepairError::Disk(e) => "the blocks root could not be walked: "@ + e@,
        }
    }

    /// The message.
    pub fn to_string(&self) -> (out: String)
        ensures
            out@ == self.text(),
    {
        match self {
            RepairError::Scrub(e) => {
                let mut out = "the post-repair scrub could not run: ".to_owned();
                out.append(&e.to_string());
                out
            },
            RepairError::Holders(e) => {
                let mut out = e.to_string();
                out.append(
                    ". The report this repair was authorised by did close the holder set, so the store changed under the run: re-run fsck",
                );
                out
            },
            RepairError::Store(e) => {
                let mut out = "the metadata store could not be read: ".to_owned();
                out.append(&e.to_string());
                out
            },
            RepairError::Disk(e) => {
                let mut out = "the blocks root could not be walked: ".to_owned();
                out.append(e);
                out
            },
        }
    }
}

/// One repair, named by the kind of finding it answers.
///
/// Declaration order is application order: holders are removed before anything
/// is counted; corrupt files are quarantined before anything can delete them;
/// adoption runs before the recount, so a count is set against the depth a
/// record ends up naming; what is still fileless afterwards is marked degraded;
/// unreferenced files go last.
#[derive(Debug, PartialEq, Eq)]
pub enum RepairAction {
    /// Resume a bucket teardown that stopped after its bucket row was removed.
    ResumeBucketTeardown {
        /// Name of the stranded object tree.
        bucket: String,
    },
    /// Reap a part record whose upload record does not exist.
    ReapOrphanPart {
        /// Bucket the dead upload targeted.
        bucket: String,
        /// Key the dead upload targeted.
        key: String,
        /// Upload the part belonged to.
        upload_id: String,
        /// Position of the part within that upload.
        part_number: i64,
        /// The key the record is filed under, carried whole rather than rebuilt.
        storage_key: Vec<u8>,
    },
    /// Move a block file whose bytes do not hash to its own name out of the
    /// blocks root, and mark its record degraded.
    QuarantineCorrupt {
        /// The block the file claims to be.
        block: BlockId,
        /// Where the file is now.
        path: String,
    },
    /// Point a record at a copy of its block at another depth, after re-hashing
    /// that copy.
    AdoptOrphan {
        /// The record's block.
        block: BlockId,
        /// The depth the record names, where no file is.
        record_depth: u8,
        /// Every copy of the id on disk, shallowest first.
        candidates: Vec<(u8, String)>,
    },
    /// Set a record's rc to the walked holder count. Zero means free.
    SetRc {
        /// The record's block.
        block: BlockId,
        /// What the record said when this was planned.
        from: u64,
        /// What the holder walk counted.
        to: u64,
    },
    /// Flag a record whose bytes are gone.
    MarkDegraded {
        /// The record's block.
        block: BlockId,
    },
    /// Delete a block file no record names.
    DeleteOrphan {
        /// The block the file names itself with.
        block: BlockId,
        /// Where it is.
        path: String,
    },
    /// Delete a copy of a block at a depth its record does not name, while the
    /// record's own file is where it says.
    DeleteOffDepth {
        /// The block the file names itself with.
        block: BlockId,
        /// Where it is.
        path: String,
    },
    /// Move something that is not part of this store's layout out of the blocks
    /// root. Never deleted.
    QuarantineForeign {
        /// Where it is.
        path: String,
    },
}

/// What an action states.
#[verifier::ext_equal]
pub ghost enum ActionView {
    ResumeBucketTeardown(Seq<char>),
    ReapOrphanPart(Seq<char>, Seq<char>, Seq<char>, int, Seq<u8>),
    QuarantineCorrupt(Seq<u8>, Seq<char>),
    AdoptOrphan(Seq<u8>, u8, Seq<(u8, Seq<char>)>),
    SetRc(Seq<u8>, u64, u64),
    MarkDegraded(Seq<u8>),
    DeleteOrphan(Seq<u8>, Seq<char>),
    DeleteOffDepth(Seq<u8>, Seq<char>),
    QuarantineForeign(Seq<char>),
}

/// Copies of a block by their depth and path.
pub open spec fn candidate_views(list: Seq<(u8, String)>) -> Seq<(u8, Seq<char>)> {
    list.map_values(|c: (u8, String)| (c.0, c.1@))
}

impl View for RepairAction {
    type V = ActionView;

    open spec fn view(&self) -> ActionView {
        match self {
            RepairAction::ResumeBucketTeardown { bucket } => ActionView::ResumeBucketTeardown(
                bucket@,
            ),
            RepairAction::ReapOrphanPart { bucket, key, upload_id, part_number, storage_key } =>
                ActionView::ReapOrphanPart(
                bucket@,
                key@,
                upload_id@,
                *part_number as int,
                storage_key@,
            ),
            RepairAction::QuarantineCorrupt { block, path } => ActionView::QuarantineCorrupt(
                block@,
                path@,
            ),
            RepairAction::AdoptOrphan { block, record_depth, candidates } =>
                ActionView::AdoptOrphan(block@, *record_depth, candidate_views(candidates@)),
            RepairAction::SetRc { block, from, to } => ActionView::SetRc(block@, *from, *to),
            RepairAction::MarkDegraded { block } => ActionView::MarkDegraded(block@),
            RepairAction::DeleteOrphan { block, path } => ActionView::DeleteOrphan(block@, path@),
            RepairAction::DeleteOffDepth { block, path } => ActionView::DeleteOffDepth(
                block@,
                path@,
            ),
            RepairAction::QuarantineForeign { path } => ActionView::QuarantineForeign(path@),
        }
    }
}

/// Actions by what they state.
pub open spec fn action_views(list: Seq<RepairAction>) -> Seq<ActionView> {
    list.map_values(|a: RepairAction| a@)
}

/// Appends an action.
pub fn add_action(list: &mut Vec<RepairAction>, action: RepairAction)
    ensures
        action_views(final(list)@) == action_views(old(list)@).push(action@),
{
    let ghost before = list@;
    list.push(action);
    proof {
        assert(action_views(list@) =~= action_views(before).push(action@));
    }
}

/// Moves all actions of one list behind those of another.
pub fn add_actions(list: &mut Vec<RepairAction>, more: Vec<RepairAction>)
    ensures
        action_views(final(list)@) == action_views(old(list)@) + action_views(more@),
{
    let mut rest = more;
    let ghost before = list@;
    let ghost added = rest@;
    list.append(&mut rest);
    proof {
        assert(action_views(list@) =~= action_views(before) + action_views(added));
    }
}

/// The two ways an action can succeed.
#[derive(Debug, PartialEq, Eq)]
pub enum Done {
    /// The store changed.
    Applied(String),
    /// It did not need to.
    Skipped(String),
}

/// What one action reports back, before it is dressed as an outcome. `Err` is a
/// failure, carrying what went wrong.
pub type ActionResult = Result<Done, String>;

/// What an action's result states: how it ended, and the words for it.
pub open spec fn ended(result: ActionResult) -> (RepairStatus, Seq<char>) {
    match result {
        Ok(Done::Applied(detail)) => (RepairStatus::Applied, detail@),
        Ok(Done::Skipped(detail)) => (RepairStatus::Skipped, detail@),
        Err(detail) => (RepairStatus::Failed, detail@),
    }
}

impl ActionView {
    /// The name an action carries in the summary.
    pub open spec fn name(self) -> Seq<char> {
        match self {
            ActionView::ResumeBucketTeardown(_) => "resume_bucket_teardown"@,
            ActionView::ReapOrphanPart(_, _, _, _, _) => "reap_orphan_part"@,
            ActionView::QuarantineCorrupt(_, _) => "quarantine_corrupt"@,
            ActionView::AdoptOrphan(_, _, _) => "adopt_orphan"@,
            ActionView::SetRc(_, _, _) => "set_rc"@,
            ActionView::MarkDegraded(_) => "mark_degraded"@,
            ActionView::DeleteOrphan(_, _) => "delete_orphan"@,
            ActionView::DeleteOffDepth(_, _) => "delete_off_depth"@,
            ActionView::QuarantineForeign(_) => "quarantine_foreign"@,
        }
    }

    /// The block an action is about, when it is about one.
    pub open spec fn block(self) -> Option<Seq<u8>> {
        match self {
            ActionView::QuarantineCorrupt(block, _) => Some(block),
            ActionView::AdoptOrphan(block, _, _) => Some(block),
            ActionView::SetRc(block, _, _) => Some(block),
            ActionView::MarkDegraded(block) => Some(block),
            ActionView::DeleteOrphan(block, _) => Some(block),
            ActionView::DeleteOffDepth(block, _) => Some(block),
            _ => None,
        }
    }

    /// The path or record key an action is about, when it is about one.
    pub open spec fn place(self) -> Option<Seq<char>> {
        match self {
            ActionView::QuarantineCorrupt(_, path) => Some(path),
            ActionView::DeleteOrphan(_, path) => Some(path),
            ActionView::DeleteOffDepth(_, path) => Some(path),
            ActionView::QuarantineForeign(path) => Some(path),
            ActionView::ReapOrphanPart(_, _, _, _, key) => Some(storage_key_text(key)),
            _ => None,
        }
    }

    /// Whether applying an action can move a refcount.
    pub open spec fn moves_count(self) -> bool {
        self is SetRc || self is ResumeBucketTeardown || self is ReapOrphanPart
    }

    /// The outcome of an action that ended in some way.
    pub open spec fn outcome(self, status: RepairStatus, detail: Seq<char>) -> OutcomeView {
        OutcomeView {
            action: self.name(),
            status,
            severity: status.severity(),
            block: match self.block() {
                Some(id) => Some(hex(id)),
                None => None,
            },
            path: self.place(),
            detail,
        }
    }
}

impl RepairAction {
    /// The name this action carries in the summary.
    pub fn kind(&self) -> (name: &'static str)
        ensures
            name@ == self@.name(),
    {
        match self {
            RepairAction::ResumeBucketTeardown { .. } => "resume_bucket_teardown",
            RepairAction::ReapOrphanPart { .. } => "reap_orphan_part",
            RepairAction::QuarantineCorrupt { .. } => "quarantine_corrupt",
            RepairAction::AdoptOrphan { .. } => "adopt_orphan",
            RepairAction::SetRc { .. } => "set_rc",
            RepairAction::MarkDegraded { .. } => "mark_degraded",
            RepairAction::DeleteOrphan { .. } => "delete_orphan",
            RepairAction::DeleteOffDepth { .. } => "delete_off_depth",
            RepairAction::QuarantineForeign { .. } => "quarantine_foreign",
        }
    }

    /// The block this action is about, when it is about one.
    pub fn block(&self) -> (block: Option<BlockId>)
        ensures
            match block {
                Some(id) => self@.block() == Some(id@),
                None => self@.block() is None,
            },
    {
        match self {
            RepairAction::QuarantineCorrupt { block, .. }
            | RepairAction::AdoptOrphan { block, .. }
            | RepairAction::SetRc { block, .. }
            | RepairAction::MarkDegraded { block }
            | RepairAction::DeleteOrphan { block, .. }
            | RepairAction::DeleteOffDepth { block, .. } => Some(*block),
            RepairAction::ResumeBucketTeardown { .. }
            | RepairAction::ReapOrphanPart { .. }
            | RepairAction::QuarantineForeign { .. } => None,
        }
    }

    /// The path this action is about, when it is about one.
    pub fn path(&self) -> (path: Option<&str>)
        ensures
            match path {
                Some(path) => self@ !is ReapOrphanPart && self@.place() == Some(path@),
                None => self@ is ReapOrphanPart || self@.place() is None,
            },
    {
        match self {
            RepairAction::QuarantineCorrupt { path, .. }
            | RepairAction::DeleteOrphan { path, .. }
            | RepairAction::DeleteOffDepth { path, .. }
            | RepairAction::QuarantineForeign { path } => Some(path.as_str()),
            RepairAction::ResumeBucketTeardown { .. }
            | RepairAction::ReapOrphanPart { .. }
            | RepairAction::AdoptOrphan { .. }
            | RepairAction::SetRc { .. }
            | RepairAction::MarkDegraded { .. } => None,
        }
    }

    /// The raw record key this action is about, when it is about one.
    pub fn storage_key(&self) -> (key: Option<&[u8]>)
        ensures
            match key {
                Some(key) => self@ is ReapOrphanPart && self@->ReapOrphanPart_4 == key@,
                None => self@ !is ReapOrphanPart,
            },
    {
        match self {
            RepairAction::ReapOrphanPart { storage_key, .. } => Some(storage_key),
            RepairAction::ResumeBucketTeardown { .. }
            | RepairAction::QuarantineCorrupt { .. }
            | RepairAction::AdoptOrphan { .. }
            | RepairAction::SetRc { .. }
            | RepairAction::MarkDegraded { .. }
            | RepairAction::DeleteOrphan { .. }
            | RepairAction::DeleteOffDepth { .. }
            | RepairAction::QuarantineForeign { .. } => None,
        }
    }

    /// Dresses what an action reported back as its outcome. A failed action is
    /// an outcome too: the run goes on to the actions that can still succeed.
    pub fn outcome(&self, result: ActionResult) -> (outcome: RepairOutcome)
        ensures
            outcome@ == self@.outcome(ended(result).0, ended(result).1),
    {
        let mut outcome = match result {
            Ok(Done::Applied(detail)) => RepairOutcome::new(
                self.kind(),
                RepairStatus::Applied,
                detail,
            ),
            Ok(Done::Skipped(detail)) => RepairOutcome::new(
                self.kind(),
                RepairStatus::Skipped,
                detail,
            ),
            Err(detail) => RepairOutcome::new(self.kind(), RepairStatus::Failed, detail),
        };
        match self.block() {
            Some(block) => {
                outcome = outcome.with_block(&block);
            },
            None => {},
        }
        match self.path() {
            Some(path) => {
                outcome = outcome.with_path(path);
            },
            None => {},
        }
        match self.storage_key() {
            Some(key) => {
                outcome = outcome.with_storage_key(key);
            },
            None => {},
        }
        outcome
    }
}

} // verus!
