//! Applying a repair action: what each one does to the store, and what it wants
//! done with files.

use vstd::prelude::*;
use vstd::string::*;

use super::actions::{
    flags, mark_degraded_action, quarantine_corrupt, quarantine_foreign, set_rc, set_rc_step,
    sets_aside, settles, Moved, RecordStep, StepView,
};
use super::adopt::{adopt_orphan, adopts, start_step, AdoptStep};
use super::release::{
    delete_all, frees_unrecorded, lemma_delete_frees, lemma_delete_says, lemma_half_deleted_frees,
    lemma_reap_frees, lemma_unnamed_objects, part_text, reap_orphan_part, reap_step,
    resume_bucket_teardown, row_keys, tears_down, torn_down, torn_halfway, unnamed_objects,
};
use super::summary::{outcome_views, OutcomeView, RepairOutcome, RepairStatus};
use super::{candidate_views, ended, ActionResult, ActionView, RepairAction, RepairContext};
use crate::metastore::traits::{listing, tree_of, Store, TransactionBackend};
use crate::scrub::trees::text_views;
use crate::text::hex;

verus! {

/// How far an action has come.
#[derive(Debug)]
pub enum ApplyStep {
    /// It is over.
    Finished(ActionResult),
    /// The file at a path is to be unlinked; the action is then described so.
    Unlink {
        /// Where the file is.
        path: String,
        /// What the action has done once the file is gone.
        detail: String,
    },
    /// An adoption is under way.
    Adopting(AdoptStep),
    /// The file at the path is to be deleted.
    Delete(String),
    /// The file at the path is to be moved into quarantine.
    Quarantine(String),
}

impl ApplyStep {
    /// Whether this is the end of an action, in some way.
    pub open spec fn ends(self, end: (RepairStatus, Seq<char>)) -> bool {
        self matches ApplyStep::Finished(result) && ended(result) == end
    }

    /// Whether this is a step on a record.
    pub open spec fn steps(self, step: StepView) -> bool {
        match step {
            StepView::Finished(status, detail) => self.ends((status, detail)),
            StepView::Unlink(path, detail) => {
                &&& self matches ApplyStep::Unlink { path: p, detail: d }
                &&& p@ == path
                &&& d@ == detail
            },
        }
    }
}

/// Copies the candidates of an adoption.
fn copy_candidates(list: &Vec<(u8, String)>) -> (out: Vec<(u8, String)>)
    ensures
        candidate_views(out@) == candidate_views(list@),
{
    let mut out: Vec<(u8, String)> = Vec::new();
    let mut i: usize = 0;
    while i < list.len()
        invariant
            i <= list@.len(),
            out@.len() == i,
            forall|j: int|
                0 <= j < i ==> (#[trigger] out@[j]).0 == list@[j].0 && out@[j].1@ == list@[j].1@,
        decreases list@.len() - i,
    {
        out.push((list[i].0, list[i].1.as_str().to_owned()));
        i = i + 1;
    }
    proof {
        assert(candidate_views(out@) =~= candidate_views(list@));
    }
    out
}

/// Whether an action started as it should. Only taking holders away frees files,
/// and only a teardown has something to say before its own outcome.
pub open spec fn applies<N: Store, B: Store>(
    action: ActionView,
    before: RepairContext<N, B>,
    after: RepairContext<N, B>,
    freed: (Seq<Seq<char>>, Seq<Seq<char>>),
    extra: (Seq<OutcomeView>, Seq<OutcomeView>),
    step: ApplyStep,
) -> bool {
    let rows = before.shared.meta.store.committed();
    let now = after.shared.meta.store.committed();
    let healthy = before.shared.meta.store.healthy();
    let root = before.shared.blocks_root@;
    let kept = freed.1 == freed.0 && extra.1 == extra.0;
    match action {
        ActionView::ResumeBucketTeardown(bucket) => step matches ApplyStep::Finished(result)
            && tears_down(before, after, bucket, freed, extra, ended(result)),
        ActionView::ReapOrphanPart(bucket, key, upload_id, part_number, storage_key) => {
            let want = reap_step(rows, root, storage_key);
            let name = part_text(bucket, key, upload_id, part_number);
            &&& step matches ApplyStep::Finished(result)
            &&& after.namespace == before.namespace
            &&& extra.1 == extra.0
            &&& {
                ||| now == want.0 && ended(result) == (want.1, name + want.2) && freed.1 == freed.0
                    + want.3
                ||| !healthy && ended(result).0 is Failed && freed.1 == freed.0 && (now == rows
                    || now == want.0)
            }
        },
        ActionView::QuarantineCorrupt(_, path) => {
            &&& step matches ApplyStep::Quarantine(p)
            &&& p@ == path
            &&& after == before
            &&& kept
        },
        ActionView::QuarantineForeign(path) => {
            &&& step matches ApplyStep::Quarantine(p)
            &&& p@ == path
            &&& after == before
            &&& kept
        },
        ActionView::DeleteOrphan(_, path) => {
            &&& step matches ApplyStep::Delete(p)
            &&& p@ == path
            &&& after == before
            &&& kept
        },
        ActionView::DeleteOffDepth(_, path) => {
            &&& step matches ApplyStep::Delete(p)
            &&& p@ == path
            &&& after == before
            &&& kept
        },
        ActionView::AdoptOrphan(block, record_depth, candidates) => {
            &&& step matches ApplyStep::Adopting(adopting)
            &&& adopts(
                healthy,
                rows,
                rows,
                adopting@,
                start_step(rows, root, block, record_depth, candidates),
            )
            &&& after == before
            &&& kept
        },
        ActionView::SetRc(block, from, to) => {
            &&& after.namespace == before.namespace
            &&& kept
            &&& exists|s: StepView|
                {
                    &&& #[trigger] step.steps(s)
                    &&& settles(healthy, rows, now, s, set_rc_step(rows, root, block, from, to))
                }
        },
        ActionView::MarkDegraded(block) => {
            &&& after.namespace == before.namespace
            &&& kept
            &&& step matches ApplyStep::Finished(result)
            &&& flags(healthy, rows, now, block, ended(result))
        },
    }
}

impl RepairAction {
    /// Starts applying this action.
    ///
    /// A failed action is a result too: the run must go on to the actions that
    /// can still succeed. The bucket teardown adds an outcome per object key it
    /// could not act on. The files that are freed are to be unlinked.
    pub fn apply<N: Store, B: Store>(
        &self,
        ctx: &mut RepairContext<N, B>,
        extra: &mut Vec<RepairOutcome>,
        freed: &mut Vec<String>,
    ) -> (step: ApplyStep)
        ensures
            applies(
                self@,
                *old(ctx),
                *final(ctx),
                (text_views(old(freed)@), text_views(final(freed)@)),
                (outcome_views(old(extra)@), outcome_views(final(extra)@)),
                step,
            ),
            final(ctx).shared.blocks_root == old(ctx).shared.blocks_root,
            final(ctx).shared.hasher == old(ctx).shared.hasher,
            final(ctx).meta_root == old(ctx).meta_root,
            old(ctx).healthy() ==> final(ctx).healthy(),
    {
        match self {
            RepairAction::ResumeBucketTeardown { bucket } => ApplyStep::Finished(
                resume_bucket_teardown(ctx, bucket, extra, freed),
            ),
            RepairAction::ReapOrphanPart { bucket, key, upload_id, part_number, storage_key } =>
                ApplyStep::Finished(
                reap_orphan_part(
                    &mut ctx.shared,
                    bucket,
                    key,
                    upload_id,
                    *part_number,
                    storage_key,
                    freed,
                ),
            ),
            RepairAction::QuarantineCorrupt { path, .. }
            | RepairAction::QuarantineForeign { path } => ApplyStep::Quarantine(
                path.as_str().to_owned(),
            ),
            RepairAction::DeleteOrphan { path, .. } | RepairAction::DeleteOffDepth { path, .. } =>
                ApplyStep::Delete(path.as_str().to_owned()),
            RepairAction::AdoptOrphan { block, record_depth, candidates } => ApplyStep::Adopting(
                adopt_orphan(&ctx.shared, block, *record_depth, copy_candidates(candidates)),
            ),
            RepairAction::SetRc { block, from, to } => {
                let record = set_rc(&mut ctx.shared, block, *from, *to);
                let ghost s = record@;
                let step = match record {
                    RecordStep::Finished(result) => ApplyStep::Finished(result),
                    RecordStep::Unlink { path, detail } => ApplyStep::Unlink { path, detail },
                };
                proof {
                    assert(step.steps(s));
                }
                step
            },
            RepairAction::MarkDegraded { block } => ApplyStep::Finished(
                mark_degraded_action(&mut ctx.shared, block),
            ),
        }
    }

    /// Goes on once the file of a quarantine was moved, or could not be.
    pub fn after_quarantine<N: Store, B: Store>(
        &self,
        ctx: &mut RepairContext<N, B>,
        moved: &Moved,
    ) -> (out: ActionResult)
        requires
            self is QuarantineCorrupt || self is QuarantineForeign,
        ensures
            match (self@, *moved) {
                (ActionView::QuarantineCorrupt(_, _), Moved::Failed(e)) => ended(out) == (
                    RepairStatus::Failed,
                    e@,
                ) && *final(ctx) == *old(ctx),
                (ActionView::QuarantineCorrupt(block, path), _) => sets_aside(
                    old(ctx).shared.meta.store.healthy(),
                    old(ctx).shared.meta.store.committed(),
                    final(ctx).shared.meta.store.committed(),
                    (block, path),
                    *moved,
                    ended(out),
                ),
                (_, Moved::Absent) => ended(out) == (RepairStatus::Skipped, "already gone"@)
                    && *final(ctx) == *old(ctx),
                (_, Moved::To(dest)) => ended(out) == (
                    RepairStatus::Applied,
                    "moved out of the blocks root to "@ + dest@
                        + "; fsck did not put it there and does not delete it"@,
                ) && *final(ctx) == *old(ctx),
                (_, Moved::Failed(e)) => ended(out) == (RepairStatus::Failed, e@) && *final(ctx)
                    == *old(ctx),
            },
            final(ctx).namespace == old(ctx).namespace,
            final(ctx).shared.blocks_root == old(ctx).shared.blocks_root,
            final(ctx).shared.hasher == old(ctx).shared.hasher,
            final(ctx).meta_root == old(ctx).meta_root,
            old(ctx).healthy() ==> final(ctx).healthy(),
    {
        match self {
            RepairAction::QuarantineCorrupt { block, path } => quarantine_corrupt(
                &mut ctx.shared,
                block,
                path,
                moved,
            ),
            _ => quarantine_foreign(moved),
        }
    }
}

/// What is said of an action once it ended: first what it says of single objects,
/// and last its own outcome.
pub open spec fn said(
    action: ActionView,
    extra: Seq<OutcomeView>,
    end: (RepairStatus, Seq<char>),
) -> Seq<OutcomeView> {
    extra + seq![action.outcome(end.0, end.1)]
}

/// The keys of the objects that a bucket still holds.
pub open spec fn held_keys<N: Store, B: Store>(
    ctx: RepairContext<N, B>,
    bucket: Seq<char>,
) -> Seq<Seq<u8>> {
    row_keys(listing(tree_of(ctx.namespace.store.committed(), bucket)))
}

/// Every action has its own outcome to report, and reports it last: under its
/// name, with the block and the place it is about, CRITICAL exactly where it
/// failed. Nothing comes before it but one skipped WARN for each object with a key
/// that is not text that a teardown passed over.
pub proof fn lemma_action_reported<N: Store, B: Store>(
    action: ActionView,
    before: RepairContext<N, B>,
    after: RepairContext<N, B>,
    freed: (Seq<Seq<char>>, Seq<Seq<char>>),
    extra: Seq<OutcomeView>,
    step: ApplyStep,
    end: (RepairStatus, Seq<char>),
)
    requires
        applies(action, before, after, freed, (Seq::empty(), extra), step),
    ensures
        said(action, extra, end).len() == extra.len() + 1,
        ({
            let own = said(action, extra, end).last();
            &&& own.action == action.name()
            &&& own.status == end.0
            &&& own.detail == end.1
            &&& own.severity is Critical <==> end.0 is Failed
            &&& own.block == match action.block() {
                Some(id) => Some(hex(id)),
                None => None,
            }
            &&& own.path == action.place()
        }),
        forall|i: int|
            0 <= i < extra.len() ==> (#[trigger] extra[i]).status is Skipped && extra[i].severity
                is Warn && extra[i].action == "resume_bucket_teardown"@,
        match action {
            ActionView::ResumeBucketTeardown(bucket) => exists|n: int|
                0 <= n <= held_keys(before, bucket).len() && extra == unnamed_objects(
                    bucket,
                    #[trigger] held_keys(before, bucket).subrange(0, n),
                ),
            _ => extra.len() == 0,
        },
{
    if let ActionView::ResumeBucketTeardown(bucket) = action {
        let none = Seq::<OutcomeView>::empty();
        let t = before.teardown(0, 0, freed.0, none);
        let root = before.shared.blocks_root@;
        let keys = held_keys(before, bucket);
        let result = step->Finished_0;
        let k = if torn_down(before, after, bucket, freed, (none, extra), ended(result)) {
            let n = lemma_delete_says(t, root, bucket, keys);
            assert(keys.subrange(0, keys.len() as int) =~= keys);
            n
        } else {
            let n = choose|n: int| #[trigger]
                torn_halfway(before, after, bucket, freed, (none, extra), n);
            let reached = keys.subrange(0, n);
            lemma_delete_says(t, root, bucket, reached);
            n
        };
        let some = unnamed_objects(bucket, keys.subrange(0, k));
        assert(none + some =~= some);
        assert(extra == some);
        assert forall|i: int| 0 <= i < extra.len() implies (#[trigger] extra[i]).status is Skipped
            && extra[i].severity is Warn && extra[i].action == "resume_bucket_teardown"@ by {
            lemma_unnamed_objects(bucket, keys.subrange(0, k), i);
        }
    }
}

/// An action frees only files that no record names: each was the one that a block
/// record named, and that record is gone.
pub proof fn lemma_action_frees_unrecorded<N: Store, B: Store>(
    action: ActionView,
    before: RepairContext<N, B>,
    after: RepairContext<N, B>,
    freed: (Seq<Seq<char>>, Seq<Seq<char>>),
    extra: (Seq<OutcomeView>, Seq<OutcomeView>),
    step: ApplyStep,
)
    requires
        applies(action, before, after, freed, extra, step),
    ensures
        freed.0.len() <= freed.1.len(),
        freed.1.subrange(0, freed.0.len() as int) == freed.0,
        frees_unrecorded(
            before.shared.meta.store.committed(),
            after.shared.meta.store.committed(),
            before.shared.blocks_root@,
            freed.1,
            freed.0.len(),
        ),
{
    let root = before.shared.blocks_root@;
    assert(freed.0.subrange(0, freed.0.len() as int) =~= freed.0);
    match action {
        ActionView::ResumeBucketTeardown(bucket) => {
            let keys = held_keys(before, bucket);
            let t = before.teardown(0, 0, freed.0, extra.0);
            let result = step->Finished_0;
            if torn_down(before, after, bucket, freed, extra, ended(result)) {
                let left = match delete_all(t, root, bucket, keys) {
                    Ok(done) => done,
                    Err((left, _, _)) => left,
                };
                lemma_delete_frees(t, root, bucket, keys, left);
            } else {
                let n = choose|n: int| #[trigger]
                    torn_halfway(before, after, bucket, freed, extra, n);
                let left = delete_all(t, root, bucket, keys.subrange(0, n))->Ok_0;
                lemma_delete_frees(t, root, bucket, keys.subrange(0, n), left);
                if n < keys.len() {
                    lemma_half_deleted_frees(
                        t,
                        left,
                        after.teardown(0, 0, freed.1, extra.1),
                        root,
                        bucket,
                        keys[n],
                    );
                }
            }
        },
        ActionView::ReapOrphanPart(_, _, _, _, storage_key) => {
            lemma_reap_frees(before.shared.meta.store.committed(), root, storage_key, freed);
        },
        _ => {},
    }
}

/// Quarantine, never delete: a corrupt or foreign file is to be moved, and nothing
/// else is touched. A file is to be deleted only by the two actions that are about
/// a file nothing references; beside them, only a count set to zero unlinks one,
/// and only taking holders away frees some.
pub proof fn lemma_quarantine_never_deletes<N: Store, B: Store>(
    action: ActionView,
    before: RepairContext<N, B>,
    after: RepairContext<N, B>,
    freed: (Seq<Seq<char>>, Seq<Seq<char>>),
    extra: (Seq<OutcomeView>, Seq<OutcomeView>),
    step: ApplyStep,
)
    requires
        applies(action, before, after, freed, extra, step),
    ensures
        action is QuarantineCorrupt || action is QuarantineForeign <==> step is Quarantine,
        step matches ApplyStep::Quarantine(path) ==> action.place() == Some(path@) && after
            == before && freed.1 == freed.0,
        step matches ApplyStep::Delete(path) ==> (action is DeleteOrphan || action
            is DeleteOffDepth) && action.place() == Some(path@),
        step is Unlink ==> (action matches ActionView::SetRc(_, _, to) && to == 0),
        freed.1 != freed.0 ==> action is ResumeBucketTeardown || action is ReapOrphanPart,
{
}

} // verus!
