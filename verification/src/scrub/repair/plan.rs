//! What to do about a report, in application order, and what it means for a
//! repairable finding to survive the run.

use vstd::prelude::*;
use vstd::slice::slice_to_vec;
use vstd::string::*;

use super::summary::{add_outcome, outcome_views, OutcomeView, RepairOutcome, RepairStatus};
use super::{action_views, add_action, ActionView, RepairAction, RepairError};
use crate::cas::multipart::{decode_part, MultiPart, PartView};
use crate::metastore::errors::MetaError;
use crate::metastore::meta_store::{MetaStore, MULTIPART_PARTS_TREE, UPLOADS_TREE};
use crate::metastore::traits::{pairs, Store, TransactionBackend};
use crate::scrub::findings::Severity;
use crate::scrub::passes::buckets::{bucket_names_refused, stranded, stranded_trees};
use crate::scrub::passes::multipart::{
    bad_part, find_upload, holds_uploads, part_triple, read_uploads, triples, uploads_in, Triple,
};
use crate::scrub::report::{Pass, Report};
use crate::scrub::trees::{lemma_prefix, lists_sorted, sorted, text_views, tree_rows};
use crate::scrub::ScrubContext;
use crate::text::{dec, put_len_dec};

verus! {

/// An outcome that says a rule kept actions from being planned.
pub open spec fn held_back(action: Seq<char>, detail: Seq<char>) -> OutcomeView {
    OutcomeView::new(action, RepairStatus::Skipped, detail).at(Severity::Warn)
}

/// What is planned for stranded trees, given which passes ran.
pub open spec fn teardown_plan(trees: Seq<Seq<char>>, passes: Seq<Pass>) -> Seq<ActionView> {
    if passes.contains(Pass::BucketIntegrity) && passes.contains(Pass::Recount) {
        trees.map_values(|tree: Seq<char>| ActionView::ResumeBucketTeardown(tree))
    } else {
        Seq::empty()
    }
}

/// What is said of stranded trees that are left alone.
pub open spec fn teardown_skips(trees: Seq<Seq<char>>, passes: Seq<Pass>) -> Seq<OutcomeView> {
    if passes.contains(Pass::BucketIntegrity) && !passes.contains(Pass::Recount) && trees.len()
        > 0 {
        seq![
            held_back(
                "resume_bucket_teardown"@,
                dec(trees.len())
                    + " half-deleted bucket(s) left alone: the report's holder set was not closed, and a teardown decrements refcounts"@,
            ),
        ]
    } else {
        Seq::empty()
    }
}

/// The half-deleted buckets, in name order.
///
/// Gated on the recount: the teardown drives refcounts down, and no refcount may
/// move while the holder set is unclosed.
pub fn plan_teardowns<S: Store>(
    namespace: &MetaStore<S>,
    report: &Report,
    outcomes: &mut Vec<RepairOutcome>,
) -> (out: Result<Vec<RepairAction>, RepairError>)
    ensures
        match out {
            Ok(actions) => {
                let names = stranded(namespace.store.names(), namespace.store.committed());
                let trees = sorted(names);
                &&& report.passes_run@.contains(Pass::BucketIntegrity) ==> lists_sorted(
                    trees,
                    names,
                )
                &&& action_views(actions@) == teardown_plan(trees, report.passes_run@)
                &&& outcome_views(final(outcomes)@) == outcome_views(old(outcomes)@)
                    + teardown_skips(trees, report.passes_run@)
            },
            Err(RepairError::Store(e)) => {
                &&& report.passes_run@.contains(Pass::BucketIntegrity)
                &&& namespace.store.healthy() ==> bucket_names_refused(*namespace, e)
            },
            Err(_) => false,
        },
{
    let mut actions: Vec<RepairAction> = Vec::new();
    let ghost said = outcome_views(outcomes@);
    proof {
        assert(action_views(actions@) =~= Seq::<ActionView>::empty());
        assert(said + Seq::<OutcomeView>::empty() =~= said);
    }
    if !report.ran(Pass::BucketIntegrity) {
        return Ok(actions);
    }
    let trees = match stranded_trees(namespace) {
        Ok(trees) => trees,
        Err(e) => {
            return Err(RepairError::Store(e));
        },
    };
    let ghost names = text_views(trees@);
    if !report.ran(Pass::Recount) {
        if trees.len() > 0 {
            let mut text = String::new();
            put_len_dec(&mut text, trees.len());
            text.append(
                " half-deleted bucket(s) left alone: the report's holder set was not closed, and a teardown decrements refcounts",
            );
            proof {
                assert(text@ =~= dec(trees@.len())
                    + " half-deleted bucket(s) left alone: the report's holder set was not closed, and a teardown decrements refcounts"@);
            }
            let outcome = RepairOutcome::new(
                "resume_bucket_teardown",
                RepairStatus::Skipped,
                text,
            ).at(Severity::Warn);
            add_outcome(outcomes, outcome);
            proof {
                assert(said.push(outcome@) =~= said + teardown_skips(names, report.passes_run@));
            }
        }
        return Ok(actions);
    }
    let ghost want = teardown_plan(names, report.passes_run@);
    let mut i: usize = 0;
    proof {
        assert(want.subrange(0, 0) =~= Seq::<ActionView>::empty());
    }
    while i < trees.len()
        invariant
            i <= trees@.len(),
            names == text_views(trees@),
            want == names.map_values(|tree: Seq<char>| ActionView::ResumeBucketTeardown(tree)),
            action_views(actions@) == want.subrange(0, i as int),
        decreases trees@.len() - i,
    {
        let action = RepairAction::ResumeBucketTeardown { bucket: trees[i].as_str().to_owned() };
        proof {
            assert(want[i as int] == action@);
            assert(want.subrange(0, i + 1) =~= want.subrange(0, i as int).push(action@));
        }
        add_action(&mut actions, action);
        i = i + 1;
    }
    proof {
        assert(want.subrange(0, want.len() as int) =~= want);
    }
    Ok(actions)
}

/// The part records whose upload record does not exist, with the keys they are
/// filed under, in key order.
pub open spec fn orphans_in(
    rows: Seq<(Seq<u8>, Seq<u8>)>,
    uploads: Map<Triple, int>,
) -> Seq<(Seq<u8>, PartView)>
    decreases rows.len(),
{
    if rows.len() == 0 {
        Seq::empty()
    } else {
        let init = orphans_in(rows.drop_last(), uploads);
        match decode_part(rows.last().1) {
            Ok(part) => if uploads.contains_key(part_triple(part)) {
                init
            } else {
                init.push((rows.last().0, part))
            },
            Err(_) => init,
        }
    }
}

/// Orphan parts by what they state.
pub open spec fn orphan_views(list: Seq<(Vec<u8>, MultiPart)>) -> Seq<(Seq<u8>, PartView)> {
    list.map_values(|o: (Vec<u8>, MultiPart)| (o.0@, o.1@))
}

/// Whether an error reports the record in the way of telling orphan parts: the
/// first upload record that does not decode, or else the first part record.
pub open spec fn orphans_refused<N: Store, B: Store>(
    ctx: ScrubContext<'_, N, B>,
    e: MetaError,
) -> bool {
    match uploads_in(ctx.upload_rows()) {
        Err(why) => e == MetaError::Corruption(why.damage),
        Ok(_) => bad_part(ctx.part_rows()) matches Some(why) && e == MetaError::Corruption(
            why.damage,
        ),
    }
}

proof fn lemma_bad_part_at(rows: Seq<(Seq<u8>, Seq<u8>)>, n: int)
    requires
        0 <= n <= rows.len(),
        bad_part(rows.subrange(0, n)) is Some,
    ensures
        bad_part(rows) == bad_part(rows.subrange(0, n)),
    decreases rows.len() - n,
{
    if n == rows.len() {
        assert(rows.subrange(0, n) =~= rows);
    } else {
        lemma_prefix(rows, n);
        lemma_bad_part_at(rows, n + 1);
    }
}

/// Part records whose upload record does not exist, each with the key it is
/// filed under, in key order.
///
/// The triple checked against the upload records is the one the part record's
/// value carries, so a record whose key no point read can rebuild is recognised
/// too.
pub fn orphan_parts<N: Store, B: Store>(ctx: &ScrubContext<'_, N, B>) -> (out: Result<
    Vec<(Vec<u8>, MultiPart)>,
    MetaError,
>)
    ensures
        match out {
            Ok(orphans) => {
                &&& uploads_in(ctx.upload_rows()) matches Ok(uploads)
                &&& bad_part(ctx.part_rows()) is None
                &&& orphan_views(orphans@) == orphans_in(ctx.part_rows(), uploads)
                &&& ctx.uploads_listed()
            },
            Err(e) => ctx.shared.meta.store.healthy() ==> orphans_refused(*ctx, e),
        },
{
    let meta = ctx.shared().meta_store();
    let rows = match tree_rows(meta, UPLOADS_TREE) {
        Ok(rows) => rows,
        Err(e) => {
            return Err(e);
        },
    };
    let uploads = match read_uploads(&rows) {
        Ok(uploads) => uploads,
        Err((_, damage)) => {
            return Err(MetaError::Corruption(damage));
        },
    };
    let parts = match tree_rows(meta, MULTIPART_PARTS_TREE) {
        Ok(parts) => parts,
        Err(e) => {
            return Err(e);
        },
    };
    let ghost map = uploads_in(ctx.upload_rows())->Ok_0;
    let ghost all = pairs(parts@);
    let ghost names = triples(uploads@);
    let mut orphans: Vec<(Vec<u8>, MultiPart)> = Vec::new();
    let mut i: usize = 0;
    proof {
        assert(all.subrange(0, 0) =~= Seq::<(Seq<u8>, Seq<u8>)>::empty());
        assert(orphan_views(orphans@) =~= Seq::<(Seq<u8>, PartView)>::empty());
    }
    while i < parts.len()
        invariant
            i <= parts@.len(),
            all == pairs(parts@),
            all == ctx.part_rows(),
            uploads_in(ctx.upload_rows()) is Ok,
            names == triples(uploads@),
            holds_uploads(uploads@, map),
            bad_part(all.subrange(0, i as int)) is None,
            orphan_views(orphans@) == orphans_in(all.subrange(0, i as int), map),
        decreases parts@.len() - i,
    {
        proof {
            lemma_prefix(all, i as int);
            assert(all[i as int] == (parts@[i as int].0@, parts@[i as int].1@));
        }
        match MultiPart::try_from(&parts[i].1) {
            Err(damage) => {
                proof {
                    lemma_bad_part_at(all, i + 1);
                }
                return Err(MetaError::Corruption(damage));
            },
            Ok(part) => match find_upload(&uploads, &part.bucket, &part.key, &part.upload_id) {
                Some(at) => {
                    proof {
                        assert(names[at as int] == part_triple(part@));
                        assert(names.contains(part_triple(part@)));
                    }
                },
                None => {
                    let ghost before = orphans@;
                    let ghost item = (parts@[i as int].0@, part@);
                    proof {
                        assert(!names.contains(part_triple(part@)));
                    }
                    orphans.push((slice_to_vec(&parts[i].0), part));
                    proof {
                        assert(orphan_views(orphans@) =~= orphan_views(before).push(item));
                    }
                },
            },
        }
        i = i + 1;
    }
    proof {
        assert(all.subrange(0, all.len() as int) =~= all);
    }
    Ok(orphans)
}

/// The action on an orphan part.
pub open spec fn reap(orphan: (Seq<u8>, PartView)) -> ActionView {
    ActionView::ReapOrphanPart(
        orphan.1.bucket,
        orphan.1.key,
        orphan.1.upload_id,
        orphan.1.part_number,
        orphan.0,
    )
}

/// What is planned for orphan parts, given which passes ran.
pub open spec fn reap_plan(orphans: Seq<(Seq<u8>, PartView)>, passes: Seq<Pass>) -> Seq<
    ActionView,
> {
    if passes.contains(Pass::MultipartReport) && passes.contains(Pass::Recount) {
        orphans.map_values(|o: (Seq<u8>, PartView)| reap(o))
    } else {
        Seq::empty()
    }
}

/// What is said of orphan parts that are left alone.
pub open spec fn reap_skips(orphans: Seq<(Seq<u8>, PartView)>, passes: Seq<Pass>) -> Seq<
    OutcomeView,
> {
    if passes.contains(Pass::MultipartReport) && !passes.contains(Pass::Recount) && orphans.len()
        > 0 {
        seq![
            held_back(
                "reap_orphan_part"@,
                dec(orphans.len())
                    + " orphan part record(s) left alone: the report's holder set was not closed, and reaping a part releases the block references it held"@,
            ),
        ]
    } else {
        Seq::empty()
    }
}

/// The part records no upload record owns, in key order.
///
/// Gated twice: on the report on uploads, because without the full set of upload
/// records a live upload's part cannot be told from an orphan; and on the
/// recount, like every action whose consequence is a refcount.
pub fn plan_orphan_parts<N: Store, B: Store>(
    ctx: &ScrubContext<'_, N, B>,
    report: &Report,
    outcomes: &mut Vec<RepairOutcome>,
) -> (out: Result<Vec<RepairAction>, RepairError>)
    ensures
        match out {
            Ok(actions) => if report.passes_run@.contains(Pass::MultipartReport) {
                &&& uploads_in(ctx.upload_rows()) matches Ok(uploads)
                &&& bad_part(ctx.part_rows()) is None
                &&& ctx.uploads_listed()
                &&& action_views(actions@) == reap_plan(
                    orphans_in(ctx.part_rows(), uploads),
                    report.passes_run@,
                )
                &&& outcome_views(final(outcomes)@) == outcome_views(old(outcomes)@) + reap_skips(
                    orphans_in(ctx.part_rows(), uploads),
                    report.passes_run@,
                )
            } else {
                &&& actions@.len() == 0
                &&& outcome_views(final(outcomes)@) == outcome_views(old(outcomes)@)
            },
            Err(RepairError::Store(e)) => {
                &&& report.passes_run@.contains(Pass::MultipartReport)
                &&& ctx.shared.meta.store.healthy() ==> orphans_refused(*ctx, e)
            },
            Err(_) => false,
        },
{
    let mut actions: Vec<RepairAction> = Vec::new();
    let ghost said = outcome_views(outcomes@);
    proof {
        assert(action_views(actions@) =~= Seq::<ActionView>::empty());
        assert(said + Seq::<OutcomeView>::empty() =~= said);
    }
    if !report.ran(Pass::MultipartReport) {
        return Ok(actions);
    }
    let orphans = match orphan_parts(ctx) {
        Ok(orphans) => orphans,
        Err(e) => {
            return Err(RepairError::Store(e));
        },
    };
    let ghost list = orphan_views(orphans@);
    if !report.ran(Pass::Recount) {
        if orphans.len() > 0 {
            let mut text = String::new();
            put_len_dec(&mut text, orphans.len());
            text.append(
                " orphan part record(s) left alone: the report's holder set was not closed, and reaping a part releases the block references it held",
            );
            proof {
                assert(text@ =~= dec(orphans@.len())
                    + " orphan part record(s) left alone: the report's holder set was not closed, and reaping a part releases the block references it held"@);
            }
            let outcome = RepairOutcome::new("reap_orphan_part", RepairStatus::Skipped, text).at(
                Severity::Warn,
            );
            add_outcome(outcomes, outcome);
            proof {
                assert(said.push(outcome@) =~= said + reap_skips(list, report.passes_run@));
            }
        }
        return Ok(actions);
    }
    let ghost want = reap_plan(list, report.passes_run@);
    let mut i: usize = 0;
    proof {
        assert(want.subrange(0, 0) =~= Seq::<ActionView>::empty());
    }
    while i < orphans.len()
        invariant
            i <= orphans@.len(),
            list == orphan_views(orphans@),
            want == list.map_values(|o: (Seq<u8>, PartView)| reap(o)),
            action_views(actions@) == want.subrange(0, i as int),
        decreases orphans@.len() - i,
    {
        let part = &orphans[i].1;
        let action = RepairAction::ReapOrphanPart {
            bucket: part.bucket.as_str().to_owned(),
            key: part.key.as_str().to_owned(),
            upload_id: part.upload_id.as_str().to_owned(),
            part_number: part.part_number,
            storage_key: slice_to_vec(&orphans[i].0),
        };
        proof {
            assert(list[i as int] == (orphans@[i as int].0@, orphans@[i as int].1@));
            assert(want[i as int] == reap(list[i as int]));
            assert(want[i as int] == action@);
            assert(want.subrange(0, i + 1) =~= want.subrange(0, i as int).push(action@));
        }
        add_action(&mut actions, action);
        i = i + 1;
    }
    proof {
        assert(want.subrange(0, want.len() as int) =~= want);
    }
    Ok(actions)
}

/// What is left alone for want of a recount is said once, as a skipped WARN, where
/// there is anything; where the recount ran nothing is left alone.
pub proof fn lemma_left_alone(
    trees: Seq<Seq<char>>,
    orphans: Seq<(Seq<u8>, PartView)>,
    passes: Seq<Pass>,
)
    ensures
        passes.contains(Pass::Recount) ==> teardown_skips(trees, passes).len() == 0 && reap_skips(
            orphans,
            passes,
        ).len() == 0,
        !passes.contains(Pass::Recount) && passes.contains(Pass::BucketIntegrity) && trees.len() > 0
            ==> teardown_skips(trees, passes).len() == 1 && teardown_skips(trees, passes)[0].status
            is Skipped && teardown_skips(trees, passes)[0].severity is Warn && teardown_skips(
            trees,
            passes,
        )[0].action == "resume_bucket_teardown"@,
        !passes.contains(Pass::Recount) && passes.contains(Pass::MultipartReport) && orphans.len()
            > 0 ==> reap_skips(orphans, passes).len() == 1 && reap_skips(orphans, passes)[0].status
            is Skipped && reap_skips(orphans, passes)[0].severity is Warn && reap_skips(
            orphans,
            passes,
        )[0].action == "reap_orphan_part"@,
{
}

} // verus!
