//! What a report says of its findings.

use vstd::prelude::*;

use super::order::{lemma_permuted, precedes, report_order};
use super::{
    count_of, finding_texts, holder_lines, lemma_worst_unordered, pass_names, some_of, summarizes,
    worst, Pass, Report, Summary,
};
use crate::metastore::traits::{listing, tree_of, Store, TransactionBackend};
use crate::scrub::engine::{expected_map, passes_of, reports_at, Parts, Sightings};
use crate::scrub::findings::{finding_views, FindingView, HolderView, Severity};
use crate::scrub::id_map::key_order;
use crate::scrub::passes::buckets::{reports_stranded, stranded};
use crate::scrub::passes::dangling::{dangling_all, gone, radius_attached};
use crate::scrub::passes::disk_sweep::swept;
use crate::scrub::passes::multipart::{reports_uploads, uploads_in};
use crate::scrub::passes::recount::recounted;
use crate::scrub::trees::sorted;
use crate::scrub::ScrubContext;
use crate::text::{dec, text_lt};

verus! {

/// The exit code is 2 where some finding is CRITICAL, else 1 where some finding is
/// WARN, and else 0.
pub proof fn lemma_exit_code(list: Seq<FindingView>)
    ensures
        worst(list) == 2 <==> exists|i: int|
            0 <= i < list.len() && (#[trigger] list[i]).severity is Critical,
        worst(list) == 1 <==> (exists|i: int|
            0 <= i < list.len() && (#[trigger] list[i]).severity is Warn) && forall|i: int|
            0 <= i < list.len() ==> !((#[trigger] list[i]).severity is Critical),
        worst(list) == 0 <==> forall|i: int|
            0 <= i < list.len() ==> (#[trigger] list[i]).severity is Info,
{
    if exists|i: int| 0 <= i < list.len() && (#[trigger] list[i]).severity is Critical {
        let i = choose|i: int| 0 <= i < list.len() && (#[trigger] list[i]).severity is Critical;
        assert(list[i].severity == Severity::Critical);
        assert(some_of(list, Severity::Critical));
    }
    if exists|i: int| 0 <= i < list.len() && (#[trigger] list[i]).severity is Warn {
        let i = choose|i: int| 0 <= i < list.len() && (#[trigger] list[i]).severity is Warn;
        assert(list[i].severity == Severity::Warn);
        assert(some_of(list, Severity::Warn));
    }
}

/// A summary gives the number of findings of each severity, and of all.
pub proof fn lemma_summary_counts(summary: Summary, list: Seq<FindingView>)
    requires
        summarizes(summary, list),
    ensures
        summary.info == list.filter(|f: FindingView| f.severity is Info).len(),
        summary.warn == list.filter(|f: FindingView| f.severity is Warn).len(),
        summary.critical == list.filter(|f: FindingView| f.severity is Critical).len(),
        summary.total == list.len(),
        summary.total == summary.info + summary.warn + summary.critical,
{
    lemma_counted(list);
}

proof fn lemma_counted(list: Seq<FindingView>)
    ensures
        count_of(list, Severity::Info) == list.filter(|f: FindingView| f.severity is Info).len(),
        count_of(list, Severity::Warn) == list.filter(|f: FindingView| f.severity is Warn).len(),
        count_of(list, Severity::Critical) == list.filter(
            |f: FindingView| f.severity is Critical,
        ).len(),
        count_of(list, Severity::Info) + count_of(list, Severity::Warn) + count_of(
            list,
            Severity::Critical,
        ) == list.len(),
    decreases list.len(),
{
    reveal(Seq::filter);
    if list.len() > 0 {
        lemma_counted(list.drop_last());
    }
}

/// Whether an optional text is no greater than another one: nothing is less than
/// something, and texts go by their bytes.
pub open spec fn not_behind(a: Option<Seq<char>>, b: Option<Seq<char>>) -> bool {
    match a {
        None => true,
        Some(a) => b matches Some(b) && !text_lt(b, a),
    }
}

/// A report holds the findings it was made of, each as often, the worst first: no
/// finding comes behind one of a lesser severity. Those of one severity go by class,
/// those of one class by block, path and evidence, and nothing goes before something.
pub proof fn lemma_worst_first(before: Seq<FindingView>, after: Seq<FindingView>, i: int, j: int)
    requires
        report_order(before, after),
        0 <= i < j < after.len(),
    ensures
        after.to_multiset() == before.to_multiset(),
        after[j].severity is Critical ==> after[i].severity is Critical,
        after[j].severity is Warn ==> !(after[i].severity is Info),
        after[i].severity == after[j].severity ==> after[i].class.rank() <= after[j].class.rank(),
        after[i].severity == after[j].severity && after[i].class == after[j].class ==> {
            &&& not_behind(after[i].block, after[j].block)
            &&& after[i].block == after[j].block ==> not_behind(after[i].path, after[j].path)
            &&& after[i].block == after[j].block && after[i].path == after[j].path ==> !text_lt(
                after[j].evidence,
                after[i].evidence,
            )
        },
{
    assert(!precedes(after[j], after[i]));
}

/// The text of a report shows every finding behind those before it: its severity,
/// its class, its block and path where it has them, its evidence, and a line for
/// each holder.
pub proof fn lemma_finding_shown(list: Seq<FindingView>, f: FindingView, h: HolderView)
    ensures
        finding_texts(Seq::empty()) == Seq::<char>::empty(),
        finding_texts(list.push(f)) == finding_texts(list) + (f.severity.label() + " "@
            + f.class.name() + (match f.block {
            Some(block) => " block="@ + block,
            None => Seq::empty(),
        }) + "\n"@ + (match f.path {
            Some(path) => "    path: "@ + path + "\n"@,
            None => Seq::empty(),
        }) + "    "@ + f.evidence + "\n"@ + holder_lines(f.holders) + "\n"@),
        holder_lines(Seq::empty()) == Seq::<char>::empty(),
        holder_lines(f.holders.push(h)) == holder_lines(f.holders) + "    holder: "@ + h.text()
            + "\n"@,
{
    assert(list.push(f).drop_last() =~= list);
    assert(f.holders.push(h).drop_last() =~= f.holders);
}

/// A report names its version, its store and the passes that ran, joined by commas;
/// shows the findings or says that there are none; and ends in the counts and the
/// exit code.
pub proof fn lemma_report_text(r: Report, passes: Seq<Pass>, last: Pass)
    ensures
        r.text() == ("qss-storage fsck report (v"@ + dec(r.version as nat) + ")\nstore: "@
            + r.store.blocks_root@ + "\n"@ + (match r.store.meta_root {
            Some(root) => "meta:  "@ + root@ + "\n"@,
            None => Seq::empty(),
        }) + "passes: "@ + pass_names(r.passes_run@) + "\n\n"@) + (if r.findings@.len() == 0 {
            "no findings\n\n"@
        } else {
            finding_texts(finding_views(r.findings@))
        }) + (dec(r.summary.critical as nat) + " critical, "@ + dec(r.summary.warn as nat)
            + " warn, "@ + dec(r.summary.info as nat) + " info ("@ + dec(r.summary.total as nat)
            + " finding(s)); exit "@ + dec(r.exit_code as nat) + "\n"@),
        pass_names(Seq::empty()) == Seq::<char>::empty(),
        pass_names(seq![last]) == last.name(),
        passes.len() > 0 ==> pass_names(passes.push(last)) == pass_names(passes) + ", "@
            + last.name(),
{
    assert(passes.push(last).drop_last() =~= passes);
}

/// Whether a list holds everything that another one does.
pub open spec fn holds_all(list: Seq<FindingView>, part: Seq<FindingView>) -> bool {
    forall|i: int| 0 <= i < part.len() ==> list.contains(#[trigger] part[i])
}

proof fn lemma_holds_added(list: Seq<FindingView>, more: Seq<FindingView>)
    ensures
        holds_all(list + more, more),
        holds_all(list + more, list),
{
    assert forall|i: int| 0 <= i < more.len() implies (list + more).contains(
        #[trigger] more[i],
    ) by {
        assert((list + more)[list.len() + i] == more[i]);
    }
    assert forall|i: int| 0 <= i < list.len() implies (list + more).contains(
        #[trigger] list[i],
    ) by {
        assert((list + more)[i] == list[i]);
    }
}

proof fn lemma_holds_through(a: Seq<FindingView>, b: Seq<FindingView>, part: Seq<FindingView>)
    requires
        holds_all(b, part),
        holds_all(a, b),
    ensures
        holds_all(a, part),
{
    assert forall|i: int| 0 <= i < part.len() implies a.contains(#[trigger] part[i]) by {
        assert(b.contains(part[i]));
        let k = choose|k: int| 0 <= k < b.len() && b[k] == part[i];
        assert(a.contains(b[k]));
    }
}

/// Everything that the passes found stands in the whole.
proof fn lemma_parts_in_all(parts: Parts, seen: Sightings, scrub: bool)
    ensures
        ({
            let all = parts.all(seen, scrub);
            let rotten = finding_views(seen.rotten@);
            let found = swept(seen.disk@, seen.records.records@);
            &&& holds_all(all, finding_views(seen.records.findings@))
            &&& holds_all(all, parts.recount)
            &&& holds_all(all, found)
            &&& holds_all(all, parts.dangling)
            &&& scrub ==> holds_all(all, rotten)
            &&& holds_all(all, parts.uploads)
            &&& holds_all(all, parts.buckets)
            &&& all.len() == seen.records.findings@.len() + parts.recount.len() + found.len()
                + parts.dangling.len() + (if scrub {
                rotten.len()
            } else {
                0
            }) + parts.uploads.len() + parts.buckets.len()
        }),
{
    let a = finding_views(seen.records.findings@);
    let found = swept(seen.disk@, seen.records.records@);
    let rotten = if scrub {
        finding_views(seen.rotten@)
    } else {
        Seq::empty()
    };
    let b = a + parts.recount;
    let c = b + found;
    let d = c + parts.dangling;
    let e = d + rotten;
    let f = e + parts.uploads;
    let g = f + parts.buckets;
    lemma_holds_added(a, parts.recount);
    lemma_holds_added(b, found);
    lemma_holds_added(c, parts.dangling);
    lemma_holds_added(d, rotten);
    lemma_holds_added(e, parts.uploads);
    lemma_holds_added(f, parts.buckets);
    lemma_holds_through(g, f, parts.uploads);
    lemma_holds_through(g, f, e);
    lemma_holds_through(g, e, rotten);
    lemma_holds_through(g, e, d);
    lemma_holds_through(g, d, parts.dangling);
    lemma_holds_through(g, d, c);
    lemma_holds_through(g, c, found);
    lemma_holds_through(g, c, b);
    lemma_holds_through(g, b, parts.recount);
    lemma_holds_through(g, b, a);
}

proof fn lemma_holds_permuted(a: Seq<FindingView>, b: Seq<FindingView>, part: Seq<FindingView>)
    requires
        a.to_multiset() == b.to_multiset(),
        holds_all(a, part),
    ensures
        holds_all(b, part),
{
    assert forall|i: int| 0 <= i < part.len() implies b.contains(#[trigger] part[i]) by {
        assert(a.contains(part[i]));
        lemma_permuted(a, b, part[i]);
    }
}

/// What the passes of a run found: the recount what differs between the references
/// and the records, or, where it did not run, one CRITICAL refusal; the dangling
/// sweep the records without a file, with who holds them; the report on uploads the
/// uploads and the parts without one, or, where it did not run, one refusal; the
/// bucket pass the trees without a bucket.
pub proof fn lemma_parts_found<N: Store, B: Store>(
    ctx: ScrubContext<'_, N, B>,
    seen: Sightings,
    now: int,
    parts: Parts,
)
    requires
        parts.hold(ctx, seen, now),
    ensures
        ({
            let records = seen.records.records@;
            let names = ctx.namespace.store.names();
            let rows = ctx.namespace.store.committed();
            let blocks = ctx.shared.meta.store.committed();
            &&& if parts.recounted {
                ctx.holders() matches Ok(holders) && parts.recount == recounted(
                    expected_map(holders),
                    records,
                )
            } else {
                parts.recount.len() == 1 && parts.recount[0].class is HolderEnumerationFailed
                    && parts.recount[0].severity is Critical
            }
            &&& radius_attached(
                ctx,
                gone(key_order(records), records, seen.present@, seen.disk@.files),
                dangling_all(
                    key_order(records),
                    records,
                    seen.present@,
                    seen.disk@.files,
                    ctx.shared.blocks_root@,
                ),
                parts.dangling,
            )
            &&& if parts.uploads_ran {
                uploads_in(listing(tree_of(blocks, "_UPLOADS"@))) matches Ok(uploads)
                    && reports_uploads(
                    uploads,
                    listing(tree_of(blocks, "_MULTIPART_PARTS"@)),
                    now,
                    parts.uploads,
                )
            } else {
                parts.uploads.len() == 1 && parts.uploads[0].class is HolderEnumerationFailed
                    && parts.uploads[0].severity is Critical
            }
            &&& reports_stranded(
                *ctx.namespace,
                sorted(stranded(names, rows)),
                parts.buckets,
            )
        }),
{
}

/// A report leaves nothing out. It holds what the record walk found, what the disk
/// sweep finds and, where the files were to be re-hashed, what that found; what the
/// recount finds, where the recount ran, and what the dangling sweep, the report on
/// uploads and the bucket pass find. The sweeps and the bucket pass always ran, the
/// re-hash where it was asked for. Where the recount did not run, the report holds
/// a CRITICAL finding and the exit code is 2.
pub proof fn lemma_report_whole<N: Store, B: Store>(
    ctx: ScrubContext<'_, N, B>,
    scrub: bool,
    seen: Sightings,
    now: int,
    report: Report,
) -> (parts: Parts)
    requires
        reports_at(ctx, scrub, seen, now, report),
    ensures
        ({
            let views = finding_views(report.findings@);
            let passes = report.passes_run@;
            let rotten = finding_views(seen.rotten@);
            &&& holds_all(views, finding_views(seen.records.findings@))
            &&& holds_all(views, swept(seen.disk@, seen.records.records@))
            &&& scrub ==> holds_all(views, rotten)
            &&& holds_all(views, parts.recount)
            &&& holds_all(views, parts.dangling)
            &&& holds_all(views, parts.uploads)
            &&& holds_all(views, parts.buckets)
            &&& views.len() == seen.records.findings@.len() + parts.recount.len() + swept(
                seen.disk@,
                seen.records.records@,
            ).len() + parts.dangling.len() + (if scrub {
                rotten.len()
            } else {
                0
            }) + parts.uploads.len() + parts.buckets.len()
            &&& passes.contains(Pass::DiskSweep) && passes.contains(Pass::DanglingSweep)
                && passes.contains(Pass::BucketIntegrity)
            &&& passes.contains(Pass::CorruptionScrub) <==> scrub
            &&& passes.contains(Pass::Recount) <==> parts.recounted
            &&& passes.contains(Pass::MultipartReport) <==> parts.uploads_ran
            &&& passes.contains(Pass::Recount) ==> (ctx.holders() matches Ok(holders)
                && parts.recount == recounted(expected_map(holders), seen.records.records@))
            &&& !passes.contains(Pass::Recount) ==> report.exit_code == 2 && parts.recount.len()
                == 1 && parts.recount[0].class is HolderEnumerationFailed
                && parts.recount[0].severity is Critical
            &&& parts.hold(ctx, seen, now)
            &&& report.exit_code == 2 <==> exists|i: int|
                0 <= i < views.len() && (#[trigger] views[i]).severity is Critical
            &&& report.exit_code == 0 <==> forall|i: int|
                0 <= i < views.len() ==> (#[trigger] views[i]).severity is Info
        }),
{
    let views = finding_views(report.findings@);
    let parts = choose|parts: Parts| #[trigger]
        parts.hold(ctx, seen, now) && parts.reported(seen, scrub, report);
    let all = parts.all(seen, scrub);
    lemma_parts_in_all(parts, seen, scrub);
    lemma_holds_permuted(all, views, finding_views(seen.records.findings@));
    lemma_holds_permuted(all, views, parts.recount);
    lemma_holds_permuted(all, views, swept(seen.disk@, seen.records.records@));
    lemma_holds_permuted(all, views, parts.dangling);
    if scrub {
        lemma_holds_permuted(all, views, finding_views(seen.rotten@));
    }
    lemma_holds_permuted(all, views, parts.uploads);
    lemma_holds_permuted(all, views, parts.buckets);
    all.to_multiset_ensures();
    views.to_multiset_ensures();
    lemma_worst_unordered(views, all);
    lemma_exit_code(views);
    lemma_passes_of(parts.recounted, scrub, parts.uploads_ran);
    parts
}

/// The passes of a run: the sweeps and the bucket pass always, the others where
/// they ran.
proof fn lemma_passes_of(recounted: bool, scrub: bool, uploads: bool)
    ensures
        ({
            let passes = passes_of(recounted, scrub, uploads);
            &&& passes.contains(Pass::Recount) <==> recounted
            &&& passes.contains(Pass::DiskSweep)
            &&& passes.contains(Pass::DanglingSweep)
            &&& passes.contains(Pass::CorruptionScrub) <==> scrub
            &&& passes.contains(Pass::MultipartReport) <==> uploads
            &&& passes.contains(Pass::BucketIntegrity)
        }),
{
    let passes = passes_of(recounted, scrub, uploads);
    let r = if recounted { 1int } else { 0int };
    let s = if scrub { 1int } else { 0int };
    let u = if uploads { 1int } else { 0int };
    assert(passes.len() == r + 2 + s + u + 1);
    if recounted {
        assert(passes[0] == Pass::Recount);
    }
    assert(passes[r] == Pass::DiskSweep);
    assert(passes[r + 1] == Pass::DanglingSweep);
    if scrub {
        assert(passes[r + 2] == Pass::CorruptionScrub);
    }
    if uploads {
        assert(passes[r + 2 + s] == Pass::MultipartReport);
    }
    assert(passes[r + 2 + s + u] == Pass::BucketIntegrity);
    assert forall|i: int| 0 <= i < passes.len() implies (#[trigger] passes[i] == Pass::Recount
        ==> recounted) && (passes[i] == Pass::CorruptionScrub ==> scrub) && (passes[i]
        == Pass::MultipartReport ==> uploads) by {
        if i == r + 2 + s + u {
        } else if i >= r + 2 + s {
        } else if i >= r + 2 {
        } else if i >= r {
        }
    }
}

} // verus!
