//! What starting each repair action does to a store that answers, said of its rows.

use vstd::prelude::*;
use vstd::utf8::*;

use super::action_laws::{
    lemma_all_deleted, lemma_degrade_flags, lemma_part_reaped, lemma_set_rc_sets, lost, same_but,
};
use super::actions::{degrade_report, degrades, set_rc_step, settles, StepView};
use super::adopt::{AdoptStepView, TaskView};
use super::apply::{applies, held_keys, ApplyStep};
use super::release::{delete_all, reap_step};
use super::summary::{OutcomeView, RepairStatus};
use super::{ended, ActionView, RepairContext};
use crate::cas::multipart::decode_part;
use crate::metastore::block::{block_path, Block};
use crate::metastore::errors::FsError;
use crate::metastore::meta_store::block_at;
use crate::metastore::traits::{lookup, Store};
use crate::scrub::findings::storage_key_text;
use crate::text::hex;

verus! {

/// A count that is applied is the record's afterwards, and its size, depth and flags
/// are as they were; a count of zero takes the record away and has the file that it
/// named unlinked. A record that counts so already, one that is gone and one that
/// does not decode are left alone. No other row of either database changes.
pub proof fn lemma_count_applied<N: Store, B: Store>(
    before: RepairContext<N, B>,
    after: RepairContext<N, B>,
    id: Seq<u8>,
    from: u64,
    to: u64,
    freed: (Seq<Seq<char>>, Seq<Seq<char>>),
    extra: (Seq<OutcomeView>, Seq<OutcomeView>),
    step: ApplyStep,
)
    requires
        applies(ActionView::SetRc(id, from, to), before, after, freed, extra, step),
        before.namespace.store.healthy(),
        before.shared.meta.store.healthy(),
        to <= usize::MAX,
    ensures
        after.namespace == before.namespace,
        freed.1 == freed.0 && extra.1 == extra.0,
        same_but(
            before.shared.meta.store.committed(),
            after.shared.meta.store.committed(),
            id,
        ),
        ({
            let now = block_at(after.shared.meta.store.committed(), id);
            match block_at(before.shared.meta.store.committed(), id) {
                None => now is None && (step matches ApplyStep::Finished(r) && ended(r).0
                    is Skipped),
                Some(Err(damage)) => now == Some(
                    Err::<Block, _>(damage),
                ) && (step matches ApplyStep::Finished(r) && ended(r).0 is Failed),
                Some(Ok(b)) => if b.rc == to {
                    now == Some(Ok::<_, FsError>(b)) && (step
                        matches ApplyStep::Finished(r) && ended(r).0 is Skipped)
                } else if to == 0 {
                    now is None && (step matches ApplyStep::Unlink { path, detail } && path@
                        == block_path(id, b.depth as nat, before.shared.blocks_root@))
                } else {
                    &&& now matches Some(Ok(c))
                    &&& c.rc == to && c.size == b.size && c.depth == b.depth && c.flags == b.flags
                    &&& step matches ApplyStep::Finished(r)
                    &&& ended(r).0 is Applied
                },
            }
        }),
{
    let rows = before.shared.meta.store.committed();
    let root = before.shared.blocks_root@;
    let now = after.shared.meta.store.committed();
    let s = choose|s: StepView|
        {
            &&& #[trigger] step.steps(s)
            &&& settles(true, rows, now, s, set_rc_step(rows, root, id, from, to))
        };
    lemma_set_rc_sets(rows, root, id, from, to);
}

/// A flagging that is applied leaves the record flagged, with its count, size and
/// depth as they were. It is skipped where the record is gone or was flagged, and
/// fails where the record does not decode. No other row of either database changes.
pub proof fn lemma_flag_applied<N: Store, B: Store>(
    before: RepairContext<N, B>,
    after: RepairContext<N, B>,
    id: Seq<u8>,
    freed: (Seq<Seq<char>>, Seq<Seq<char>>),
    extra: (Seq<OutcomeView>, Seq<OutcomeView>),
    step: ApplyStep,
)
    requires
        applies(ActionView::MarkDegraded(id), before, after, freed, extra, step),
        before.namespace.store.healthy(),
        before.shared.meta.store.healthy(),
    ensures
        after.namespace == before.namespace,
        freed.1 == freed.0 && extra.1 == extra.0,
        same_but(
            before.shared.meta.store.committed(),
            after.shared.meta.store.committed(),
            id,
        ),
        step is Finished,
        ({
            let now = block_at(after.shared.meta.store.committed(), id);
            let status = ended(step->Finished_0).0;
            match block_at(before.shared.meta.store.committed(), id) {
                None => now is None && status is Skipped,
                Some(Err(_)) => now matches Some(r) && r is Err && status is Failed,
                Some(Ok(b)) => {
                    &&& now matches Some(Ok(c))
                    &&& c.flags % 2 == 1 && c.flags / 2 == b.flags / 2
                    &&& c.rc == b.rc && c.size == b.size && c.depth == b.depth
                    &&& if b.flags % 2 == 1 {
                        status is Skipped
                    } else {
                        status is Applied
                    }
                },
            }
        }),
{
    let rows = before.shared.meta.store.committed();
    let now = after.shared.meta.store.committed();
    let end = ended(step->Finished_0);
    let flagged = choose|flagged: Result<bool, Seq<char>>|
        {
            &&& #[trigger] degrades(true, rows, now, id, flagged)
            &&& end == degrade_report(flagged)
        };
    assert(degrades(true, rows, now, id, flagged));
    lemma_degrade_flags(rows, id);
}

/// What is about a file alone wants that file moved or deleted, and changes no row:
/// a corrupt and a foreign file are moved, an orphan and an off-depth copy deleted.
pub proof fn lemma_file_applied<N: Store, B: Store>(
    before: RepairContext<N, B>,
    after: RepairContext<N, B>,
    action: ActionView,
    id: Seq<u8>,
    path: Seq<char>,
    freed: (Seq<Seq<char>>, Seq<Seq<char>>),
    extra: (Seq<OutcomeView>, Seq<OutcomeView>),
    step: ApplyStep,
)
    requires
        applies(action, before, after, freed, extra, step),
    ensures
        action == ActionView::QuarantineCorrupt(id, path) || action
            == ActionView::QuarantineForeign(path) ==> (step matches ApplyStep::Quarantine(p) && p@
            == path) && after == before && freed.1 == freed.0 && extra.1 == extra.0,
        action == ActionView::DeleteOrphan(id, path) || action == ActionView::DeleteOffDepth(
            id,
            path,
        ) ==> (step matches ApplyStep::Delete(p) && p@ == path) && after == before && freed.1
            == freed.0 && extra.1 == extra.0,
{
}

/// An adoption begins by looking for the file that the record names, and is over at
/// once where there is no record or it does not decode. It changes no row yet.
pub proof fn lemma_adoption_applied<N: Store, B: Store>(
    before: RepairContext<N, B>,
    after: RepairContext<N, B>,
    id: Seq<u8>,
    depth: u8,
    candidates: Seq<(u8, Seq<char>)>,
    freed: (Seq<Seq<char>>, Seq<Seq<char>>),
    extra: (Seq<OutcomeView>, Seq<OutcomeView>),
    step: ApplyStep,
)
    requires
        applies(
            ActionView::AdoptOrphan(id, depth, candidates),
            before,
            after,
            freed,
            extra,
            step,
        ),
        before.namespace.store.healthy(),
        before.shared.meta.store.healthy(),
    ensures
        after == before && freed.1 == freed.0 && extra.1 == extra.0,
        step is Adopting,
        ({
            let adopting = step->Adopting_0@;
            match block_at(before.shared.meta.store.committed(), id) {
                None => adopting matches AdoptStepView::Finished(s, _) && s is Skipped,
                Some(Err(_)) => adopting matches AdoptStepView::Finished(s, _) && s is Failed,
                Some(Ok(b)) => {
                    &&& adopting matches AdoptStepView::Wants(a, task)
                    &&& a.block == id && a.record == b && a.candidates == candidates && a.at == 0
                    &&& task == TaskView::Stat(
                        block_path(id, b.depth as nat, before.shared.blocks_root@),
                    )
                },
            }
        }),
{
}

/// A part that is reaped loses its row, and each block it lists as many references
/// as it occurs there, with its record and its file where none is left. A part that
/// is gone is skipped, one that does not decode fails, and neither changes a row.
pub proof fn lemma_part_applied<N: Store, B: Store>(
    before: RepairContext<N, B>,
    after: RepairContext<N, B>,
    action: ActionView,
    key: Seq<u8>,
    id: Seq<u8>,
    freed: (Seq<Seq<char>>, Seq<Seq<char>>),
    extra: (Seq<OutcomeView>, Seq<OutcomeView>),
    step: ApplyStep,
)
    requires
        applies(action, before, after, freed, extra, step),
        action matches ActionView::ReapOrphanPart(_, _, _, _, k) && k == key,
        before.namespace.store.healthy(),
        before.shared.meta.store.healthy(),
    ensures
        after.namespace == before.namespace && extra.1 == extra.0,
        step is Finished,
        freed.0.is_prefix_of(freed.1),
        ({
            let rows = before.shared.meta.store.committed();
            let now = after.shared.meta.store.committed();
            let status = ended(step->Finished_0).0;
            match lookup(rows, "_MULTIPART_PARTS"@, key) {
                None => now == rows && status is Skipped && freed.1 == freed.0,
                Some(raw) => match decode_part(raw) {
                    Err(_) => now == rows && status is Failed && freed.1 == freed.0,
                    Ok(p) => {
                        &&& status is Applied || status is Failed
                        &&& status is Failed ==> now == rows && freed.1 == freed.0 && exists|k: int|
                            0 <= k < p.blocks.len() && (block_at(rows, #[trigger] p.blocks[k])
                                matches Some(r) && r is Err)
                        &&& status is Applied ==> lookup(now, "_MULTIPART_PARTS"@, key) is None
                            && lost(
                            rows,
                            now,
                            before.shared.blocks_root@,
                            id,
                            p.blocks.to_multiset().count(id),
                            freed.1,
                        )
                    },
                },
            }
        }),
{
    let rows = before.shared.meta.store.committed();
    let root = before.shared.blocks_root@;
    let want = reap_step(rows, root, key);
    lemma_part_reaped(rows, root, key, id);
    assert(freed.1 == freed.0 + want.3);
    if want.3.len() == 0 {
        assert(freed.1 =~= freed.0);
    }
    if let Some(Ok(b)) = block_at(rows, id) {
        let path = block_path(id, b.depth as nat, root);
        if want.3.contains(path) {
            let k = choose|k: int| 0 <= k < want.3.len() && want.3[k] == path;
            assert(freed.1[freed.0.len() + k] == path);
        }
    }
}

/// A teardown that is applied leaves nothing of the bucket: no object row, no bucket
/// record and no usage counter, and no tree. Every other row of the namespace stays.
pub proof fn lemma_teardown_applied<N: Store, B: Store>(
    before: RepairContext<N, B>,
    after: RepairContext<N, B>,
    bucket: Seq<char>,
    freed: (Seq<Seq<char>>, Seq<Seq<char>>),
    extra: (Seq<OutcomeView>, Seq<OutcomeView>),
    step: ApplyStep,
    tree: Seq<char>,
    key: Seq<u8>,
)
    requires
        applies(
            ActionView::ResumeBucketTeardown(bucket),
            before,
            after,
            freed,
            extra,
            step,
        ),
        before.namespace.store.healthy(),
        before.shared.meta.store.healthy(),
    ensures
        step is Finished,
        ended(step->Finished_0).0 is Applied ==> {
            let rows = before.namespace.store.committed();
            let now = after.namespace.store.committed();
            &&& !after.namespace.store.names().contains(bucket)
            &&& lookup(now, tree, key) == (if tree == bucket || (key == encode_utf8(bucket) && (tree
                == "_BUCKETS"@ || tree == "_USAGE"@)) {
                None
            } else {
                lookup(rows, tree, key)
            })
        },
        !(ended(step->Finished_0).0 is Skipped),
{
    let rows = before.namespace.store.committed();
    let t = before.teardown(0, 0, freed.0, extra.0);
    let root = before.shared.blocks_root@;
    let keys = held_keys(before, bucket);
    if delete_all(t, root, bucket, keys) is Ok {
        lemma_all_deleted(t, root, bucket, keys);
        let done = delete_all(t, root, bucket, keys)->Ok_0;
        assert(lookup(done.namespace, tree, key) == (if tree == bucket && keys.contains(key)
            && valid_utf8(key) {
            None
        } else {
            lookup(t.namespace, tree, key)
        }));
    }
}

/// An action is called by what it does, and is about the block and the path or key it
/// was planned for; a teardown is about neither. Its outcome carries both.
pub proof fn lemma_action_named(
    action: ActionView,
    status: RepairStatus,
    detail: Seq<char>,
)
    ensures
        match action {
            ActionView::ResumeBucketTeardown(_) => action.name() == "resume_bucket_teardown"@
                && action.block() is None && action.place() is None,
            ActionView::ReapOrphanPart(_, _, _, _, k) => action.name() == "reap_orphan_part"@
                && action.block() is None && action.place() == Some(storage_key_text(k)),
            ActionView::QuarantineCorrupt(b, p) => action.name() == "quarantine_corrupt"@
                && action.block() == Some(b) && action.place() == Some(p),
            ActionView::AdoptOrphan(b, _, _) => action.name() == "adopt_orphan"@ && action.block()
                == Some(b) && action.place() is None,
            ActionView::SetRc(b, _, _) => action.name() == "set_rc"@ && action.block() == Some(b)
                && action.place() is None,
            ActionView::MarkDegraded(b) => action.name() == "mark_degraded"@ && action.block()
                == Some(b) && action.place() is None,
            ActionView::DeleteOrphan(b, p) => action.name() == "delete_orphan"@ && action.block()
                == Some(b) && action.place() == Some(p),
            ActionView::DeleteOffDepth(b, p) => action.name() == "delete_off_depth"@
                && action.block() == Some(b) && action.place() == Some(p),
            ActionView::QuarantineForeign(p) => action.name() == "quarantine_foreign"@
                && action.block() is None && action.place() == Some(p),
        },
        ({
            let o = action.outcome(status, detail);
            &&& o.action == action.name() && o.status == status && o.detail == detail
            &&& o.path == action.place()
            &&& action.block() matches Some(b) ==> o.block == Some(hex(b))
            &&& action.block() is None ==> o.block is None
            &&& o.severity is Critical <==> status is Failed
        }),
        RepairStatus::Applied.label() == "APPLIED"@,
        RepairStatus::Skipped.label() == "SKIPPED"@,
        RepairStatus::Failed.label() == "FAILED"@,
{
}

} // verus!
