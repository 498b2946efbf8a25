//! A repair that ended clean leaves nothing for the next one.

use vstd::prelude::*;

use super::laws::{is_settled, lemma_nothing_to_do};
use super::plan::{orphans_in, orphans_refused};
use super::plan_blocks::{corrupt_plan, corrupt_skips, expected_of, file_action};
use super::run::{first_round, Round, RunView};
use super::summary::OutcomeView;
use super::unfinished::{judged, repairable, unfinished};
use super::ActionView;
use crate::metastore::block::Block;
use crate::metastore::errors::MetaError;
use crate::metastore::traits::Store;
use crate::scrub::disk::{FileView, ForeignView};
use crate::scrub::engine::{
    expected_map, reports_at, run_refused, Parts, ScrubError, Sightings,
};
use crate::scrub::findings::{finding_views, FindingView};
use crate::scrub::holders::HolderEnumerationError;
use crate::scrub::id_map::key_order;
use crate::scrub::passes::buckets::{bucket_names_refused, reports_tree, stranded};
use crate::scrub::passes::dangling::{dangling, dangling_all, gone, present_at, radius_attached};
use crate::scrub::passes::disk_sweep::{file_finding, file_findings, seen_at, swept};
use crate::scrub::passes::multipart::{
    lists_uploads, orphan_findings, upload_findings, uploads_in, Triple,
};
use crate::scrub::passes::recount::{
    lemma_recount_clean, miscount, miscounts, recounted, unheld, unheld_all,
};
use crate::scrub::report::order::lemma_permuted;
use crate::scrub::report::{exit_code, lemma_worst_unordered, some_of, worst, Report};
use crate::scrub::trees::sorted;
use crate::scrub::ScrubContext;

verus! {

/// Whether a finding is a mere notice: of no weight, and nothing that a repair
/// claims to repair.
pub open spec fn is_notice(f: FindingView) -> bool {
    f.severity is Info && !repairable(f.class)
}

/// Whether findings are mere notices.
pub open spec fn only_notices(list: Seq<FindingView>) -> bool {
    forall|i: int| 0 <= i < list.len() ==> is_notice(#[trigger] list[i])
}

proof fn lemma_notices(list: Seq<FindingView>)
    ensures
        only_notices(list) <==> worst(list) == exit_code::CLEAN && !unfinished(list),
{
    if only_notices(list) {
        assert(worst(list) == exit_code::CLEAN && !unfinished(list));
    }
    if worst(list) == exit_code::CLEAN && !unfinished(list) {
        assert forall|i: int| 0 <= i < list.len() implies is_notice(#[trigger] list[i]) by {
            assert(!repairable(list[i].class));
            if list[i].severity is Critical {
                assert(some_of(list, list[i].severity));
            }
            if list[i].severity is Warn {
                assert(some_of(list, list[i].severity));
            }
        }
    }
}

proof fn lemma_notices_permuted(a: Seq<FindingView>, b: Seq<FindingView>)
    requires
        a.to_multiset() == b.to_multiset(),
        only_notices(a),
    ensures
        only_notices(b),
{
    assert forall|i: int| 0 <= i < b.len() implies is_notice(#[trigger] b[i]) by {
        assert(b.contains(b[i]));
        lemma_permuted(b, a, b[i]);
        let j = choose|j: int| 0 <= j < a.len() && a[j] == b[i];
        assert(is_notice(a[j]));
    }
}

proof fn lemma_notices_joined(a: Seq<FindingView>, b: Seq<FindingView>)
    ensures
        only_notices(a + b) <==> only_notices(a) && only_notices(b),
{
    let all = a + b;
    if only_notices(all) {
        assert forall|i: int| 0 <= i < a.len() implies is_notice(#[trigger] a[i]) by {
            assert(all[i] == a[i]);
        }
        assert forall|i: int| 0 <= i < b.len() implies is_notice(#[trigger] b[i]) by {
            assert(all[a.len() + i] == b[i]);
        }
    }
}

/// What a run found is mere notices exactly where what each pass found is.
proof fn lemma_notices_of_parts(parts: Parts, seen: Sightings, scrub: bool)
    ensures
        only_notices(parts.all(seen, scrub)) <==> {
            &&& only_notices(finding_views(seen.records.findings@))
            &&& only_notices(parts.recount)
            &&& only_notices(swept(seen.disk@, seen.records.records@))
            &&& only_notices(parts.dangling)
            &&& scrub ==> only_notices(finding_views(seen.rotten@))
            &&& only_notices(parts.uploads)
            &&& only_notices(parts.buckets)
        },
{
    let a = finding_views(seen.records.findings@);
    let b = a + parts.recount;
    let c = b + swept(seen.disk@, seen.records.records@);
    let d = c + parts.dangling;
    let rotten = if scrub {
        finding_views(seen.rotten@)
    } else {
        Seq::empty()
    };
    let e = d + rotten;
    let f = e + parts.uploads;
    lemma_notices_joined(a, parts.recount);
    lemma_notices_joined(b, swept(seen.disk@, seen.records.records@));
    lemma_notices_joined(c, parts.dangling);
    lemma_notices_joined(d, rotten);
    lemma_notices_joined(e, parts.uploads);
    lemma_notices_joined(f, parts.buckets);
}

proof fn lemma_miscounts_loud(
    ids: Seq<Seq<u8>>,
    expected: Map<Seq<u8>, u64>,
    records: Map<Seq<u8>, Block>,
)
    requires
        only_notices(miscounts(ids, expected, records)),
    ensures
        miscounts(ids, expected, records).len() == 0,
    decreases ids.len(),
{
    if ids.len() > 0 {
        let list = miscounts(ids, expected, records);
        if let Some(f) = miscount(ids.last(), expected[ids.last()], records) {
            assert(is_notice(list[list.len() - 1]));
        } else {
            lemma_miscounts_loud(ids.drop_last(), expected, records);
        }
    }
}

proof fn lemma_unheld_loud(
    ids: Seq<Seq<u8>>,
    expected: Map<Seq<u8>, u64>,
    records: Map<Seq<u8>, Block>,
)
    requires
        only_notices(unheld_all(ids, expected, records)),
    ensures
        unheld_all(ids, expected, records).len() == 0,
    decreases ids.len(),
{
    if ids.len() > 0 {
        let list = unheld_all(ids, expected, records);
        if let Some(f) = unheld(ids.last(), records[ids.last()], expected) {
            assert(is_notice(list[list.len() - 1]));
        } else {
            lemma_unheld_loud(ids.drop_last(), expected, records);
        }
    }
}

proof fn lemma_files_loud(
    list: Seq<FileView>,
    files: Seq<FileView>,
    records: Map<Seq<u8>, Block>,
    i: int,
)
    requires
        only_notices(file_findings(list, files, records)),
        0 <= i < list.len(),
    ensures
        file_action(list[i], files, records) is None,
    decreases list.len(),
{
    let found = file_findings(list, files, records);
    if let Some(f) = file_finding(list.last(), files, records) {
        assert(is_notice(found[found.len() - 1]));
    } else if i < list.len() - 1 {
        lemma_files_loud(list.drop_last(), files, records, i);
    }
}

proof fn lemma_dangling_loud(
    ids: Seq<Seq<u8>>,
    records: Map<Seq<u8>, Block>,
    present: Seq<bool>,
    files: Seq<FileView>,
    root: Seq<char>,
    i: int,
)
    requires
        only_notices(dangling_all(ids, records, present, files, root)),
        0 <= i < ids.len(),
    ensures
        records[ids[i]].degraded() || present_at(present, i),
    decreases ids.len(),
{
    let found = dangling_all(ids, records, present, files, root);
    let init = dangling_all(ids.drop_last(), records, present, files, root);
    let n = ids.len() - 1;
    if let Some(f) = dangling(ids.last(), records[ids.last()], present_at(present, n), files, root) {
        assert(is_notice(found[found.len() - 1]));
        assert forall|k: int| 0 <= k < init.len() implies is_notice(#[trigger] init[k]) by {
            assert(found[k] == init[k]);
        }
    }
    if i < n {
        lemma_dangling_loud(ids.drop_last(), records, present, files, root, i);
    }
}

/// Holders that are filled in change neither class nor weight of a finding.
proof fn lemma_radius_notices<N: Store, B: Store>(
    ctx: ScrubContext<'_, N, B>,
    blocks: Seq<Seq<u8>>,
    before: Seq<FindingView>,
    after: Seq<FindingView>,
)
    requires
        radius_attached(ctx, blocks, before, after),
    ensures
        only_notices(before) <==> only_notices(after),
{
    assert(after.len() == before.len());
    assert forall|i: int| 0 <= i < before.len() implies (#[trigger] after[i]).class
        == before[i].class && after[i].severity == before[i].severity by {}
    if only_notices(before) {
        assert forall|i: int| 0 <= i < after.len() implies is_notice(#[trigger] after[i]) by {
            assert(is_notice(before[i]));
        }
    }
    if only_notices(after) {
        assert forall|i: int| 0 <= i < before.len() implies is_notice(#[trigger] before[i]) by {
            assert(is_notice(after[i]));
        }
    }
}

proof fn lemma_orphans_loud(rows: Seq<(Seq<u8>, Seq<u8>)>, uploads: Map<Triple, int>)
    requires
        only_notices(orphan_findings(rows, uploads)),
    ensures
        orphan_findings(rows, uploads).len() == 0,
        orphans_in(rows, uploads).len() == 0,
    decreases rows.len(),
{
    if rows.len() > 0 {
        let list = orphan_findings(rows, uploads);
        let init = orphan_findings(rows.drop_last(), uploads);
        if list.len() > init.len() {
            assert(is_notice(list[list.len() - 1]));
        } else {
            lemma_orphans_loud(rows.drop_last(), uploads);
        }
    }
}

proof fn lemma_no_corrupt_block(findings: Seq<FindingView>, files: Seq<FileView>)
    requires
        !unfinished(findings),
    ensures
        corrupt_plan(findings, files) == Seq::<ActionView>::empty(),
        corrupt_skips(findings, files) == Seq::<OutcomeView>::empty(),
    decreases findings.len(),
{
    if findings.len() > 0 {
        let init = findings.drop_last();
        assert(!repairable(findings[findings.len() - 1].class));
        assert(!unfinished(init)) by {
            if unfinished(init) {
                let i = choose|i: int| 0 <= i < init.len() && repairable((#[trigger] init[i]).class);
                assert(repairable(findings[i].class));
            }
        }
        lemma_no_corrupt_block(init, files);
    }
}

/// Whether two looks at a store saw the same.
pub open spec fn seen_alike(a: Sightings, b: Sightings) -> bool {
    &&& a.records.records@ == b.records.records@
    &&& finding_views(a.records.findings@) == finding_views(b.records.findings@)
    &&& a.disk@ == b.disk@
    &&& a.present@ == b.present@
    &&& finding_views(a.rotten@) == finding_views(b.rotten@)
}

/// A round without an action, in a run that said nothing so far.
pub open spec fn idle(round: Round) -> RunView {
    RunView { round, actions: Seq::empty(), next: 0, outcomes: Seq::empty() }
}

/// What the passes of a run found, where that is mere notices: both enumerations
/// ended, and there is nothing to tear down, to reap, to count or to move.
proof fn lemma_quiet_parts<N: Store, B: Store>(
    ctx: ScrubContext<'_, N, B>,
    seen: Sightings,
    now: int,
    parts: Parts,
    scrub: bool,
)
    requires
        parts.hold(ctx, seen, now),
        only_notices(parts.all(seen, scrub)),
    ensures
        parts.recounted,
        parts.uploads_ran,
        parts.recount.len() == 0,
        parts.buckets.len() == 0,
        sorted(stranded(ctx.namespace.store.names(), ctx.namespace.store.committed())).len() == 0,
        orphan_findings(ctx.part_rows(), uploads_in(ctx.upload_rows())->Ok_0).len() == 0,
        orphans_in(ctx.part_rows(), uploads_in(ctx.upload_rows())->Ok_0).len() == 0,
        is_settled(seen, expected_map(ctx.holders()->Ok_0)),
{
    let records = seen.records.records@;
    let files = seen.disk@.files;
    lemma_notices_of_parts(parts, seen, scrub);
    if !parts.recounted {
        assert(is_notice(parts.recount[0]));
    }
    if !parts.uploads_ran {
        assert(is_notice(parts.uploads[0]));
    }
    let expected = expected_map(ctx.holders()->Ok_0);
    lemma_notices_joined(
        miscounts(key_order(expected), expected, records),
        unheld_all(key_order(records), expected, records),
    );
    lemma_miscounts_loud(key_order(expected), expected, records);
    lemma_unheld_loud(key_order(records), expected, records);
    lemma_recount_clean(expected, records);

    let trees = sorted(stranded(ctx.namespace.store.names(), ctx.namespace.store.committed()));
    if trees.len() > 0 {
        assert(reports_tree(*ctx.namespace, trees[0], parts.buckets[0]));
        assert(is_notice(parts.buckets[0]));
    }
    let uploads = uploads_in(ctx.upload_rows())->Ok_0;
    let order = choose|order: Seq<Triple>| #[trigger]
        lists_uploads(order, uploads) && parts.uploads == upload_findings(
            order,
            uploads,
            ctx.part_rows(),
            now,
        ) + orphan_findings(ctx.part_rows(), uploads);
    lemma_notices_joined(
        upload_findings(order, uploads, ctx.part_rows(), now),
        orphan_findings(ctx.part_rows(), uploads),
    );
    lemma_orphans_loud(ctx.part_rows(), uploads);

    let foreign = seen.disk@.foreign.map_values(|f: ForeignView| f.finding());
    lemma_notices_joined(file_findings(files, files, records), foreign);
    if seen.disk@.foreign.len() > 0 {
        assert(is_notice(foreign[0]));
    }
    let ids = key_order(records);
    let root = ctx.shared.blocks_root@;
    let found = dangling_all(ids, records, seen.present@, files, root);
    lemma_radius_notices(ctx, gone(ids, records, seen.present@, files), found, parts.dangling);
    assert forall|i: int| 0 <= i < ids.len() implies ({
        let b = records[#[trigger] ids[i]];
        &&& b.degraded() || present_at(seen.present@, i)
        &&& b.rc as u64 == expected_of(expected, ids[i])
    }) by {
        lemma_dangling_loud(ids, records, seen.present@, files, root, i);
        assert(ids.contains(ids[i]));
        assert(records.contains_key(ids[i]));
        assert(expected.contains_key(ids[i]));
    }
    assert forall|i: int| 0 <= i < files.len() implies ({
        let file = #[trigger] files[i];
        &&& records.contains_key(file.id)
        &&& records[file.id].depth == file.depth || !seen_at(
            files,
            file.id,
            records[file.id].depth,
        )
    }) by {
        lemma_files_loud(files, files, records, i);
    }
}

/// A clean report plans nothing: no bucket is torn down and no part is reaped,
/// and a look that sees what the report saw plans nothing for records and files
/// either. Nothing is said to have been left alone.
pub proof fn lemma_clean_plans_nothing<N: Store, B: Store>(
    ctx: ScrubContext<'_, N, B>,
    scrub: bool,
    seen: Sightings,
    now: int,
    report: Report,
    look: Sightings,
)
    requires
        reports_at(ctx, scrub, seen, now, report),
        report.exit_code == exit_code::CLEAN,
        !unfinished(finding_views(report.findings@)),
        seen_alike(seen, look),
    ensures
        first_round(ctx, report).settled(ctx, report) == idle(Round::Parts),
        idle(Round::Parts).looked(ctx, report, look) == idle(Round::Blocks),
{
    let findings = finding_views(report.findings@);
    let parts = choose|parts: Parts| #[trigger]
        parts.hold(ctx, seen, now) && parts.reported(seen, scrub, report);
    let all = parts.all(seen, scrub);
    lemma_worst_unordered(findings, all);
    lemma_notices(findings);
    lemma_notices_permuted(findings, all);
    lemma_quiet_parts(ctx, seen, now, parts, scrub);

    let first = first_round(ctx, report);
    assert(first.actions =~= Seq::<ActionView>::empty());
    assert(first.outcomes =~= Seq::<OutcomeView>::empty());
    assert(first.settled(ctx, report) =~= idle(Round::Parts));

    lemma_no_corrupt_block(findings, look.disk@.files);
    let expected = expected_map(ctx.holders()->Ok_0);
    assert(is_settled(look, expected));
    lemma_nothing_to_do(findings, look, ctx.shared.blocks_root@, expected);
    assert(idle(Round::Parts).looked(ctx, report, look) =~= idle(Round::Blocks));
}

/// A repair that ended clean is the last one that is needed: as long as the store
/// answers and stays as it was seen, neither the next report nor its repair is
/// refused, the report is clean again, and the repair applies nothing, says
/// nothing, and is judged by that report alone.
pub proof fn lemma_repair_settles<N: Store, B: Store>(
    ctx: ScrubContext<'_, N, B>,
    scrub: bool,
    seen: Sightings,
    now: int,
    post: Report,
    told: Report,
    again: Sightings,
    later: int,
    next: Report,
    look: Sightings,
)
    requires
        ctx.healthy(),
        reports_at(ctx, scrub, seen, now, post),
        judged(post, told),
        told.exit_code == exit_code::CLEAN,
        reports_at(ctx, scrub, again, later, next),
        seen_alike(seen, again),
        seen_alike(seen, look),
    ensures
        next.exit_code == exit_code::CLEAN,
        forall|e: ScrubError| !#[trigger] run_refused(ctx, e),
        forall|e: MetaError| !#[trigger] bucket_names_refused(*ctx.namespace, e),
        forall|e: MetaError| !#[trigger] orphans_refused(ctx, e),
        forall|e: HolderEnumerationError| !#[trigger] ctx.refused(e),
        forall|end: Report| #[trigger] judged(next, end) ==> end == next,
        first_round(ctx, next).settled(ctx, next) == idle(Round::Parts),
        idle(Round::Parts).looked(ctx, next, look) == idle(Round::Blocks),
{
    let findings = finding_views(post.findings@);
    let a = choose|parts: Parts| #[trigger]
        parts.hold(ctx, seen, now) && parts.reported(seen, scrub, post);
    lemma_worst_unordered(findings, a.all(seen, scrub));
    lemma_notices(findings);
    lemma_notices_permuted(findings, a.all(seen, scrub));
    lemma_quiet_parts(ctx, seen, now, a, scrub);
    lemma_notices_of_parts(a, seen, scrub);

    assert forall|e: MetaError| !#[trigger] bucket_names_refused(*ctx.namespace, e) by {}

    let b = choose|parts: Parts| #[trigger]
        parts.hold(ctx, again, later) && parts.reported(again, scrub, next);
    let records = seen.records.records@;
    let files = seen.disk@.files;
    let ids = key_order(records);
    let lost = gone(ids, records, seen.present@, files);
    let found = dangling_all(ids, records, seen.present@, files, ctx.shared.blocks_root@);
    lemma_radius_notices(ctx, lost, found, a.dangling);
    lemma_radius_notices(ctx, lost, found, b.dangling);

    let uploads = uploads_in(ctx.upload_rows())->Ok_0;
    assert(b.uploads_ran);
    let order = choose|order: Seq<Triple>| #[trigger]
        lists_uploads(order, uploads) && b.uploads == upload_findings(
            order,
            uploads,
            ctx.part_rows(),
            later,
        ) + orphan_findings(ctx.part_rows(), uploads);
    assert(only_notices(upload_findings(order, uploads, ctx.part_rows(), later)));
    lemma_notices_joined(
        upload_findings(order, uploads, ctx.part_rows(), later),
        orphan_findings(ctx.part_rows(), uploads),
    );
    assert(b.recounted);
    assert(only_notices(b.buckets));
    lemma_notices_of_parts(b, again, scrub);

    let list = finding_views(next.findings@);
    lemma_notices_permuted(b.all(again, scrub), list);
    lemma_notices(list);
    lemma_worst_unordered(list, b.all(again, scrub));
    lemma_clean_plans_nothing(ctx, scrub, again, later, next, look);
}

} // verus!
