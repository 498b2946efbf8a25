//! Running a scrub: hand what was walked to every pass, collect the report.
//!
//! There are two kinds of failure. Where the store cannot be walked at all
//! there is no trustworthy report to write: that is a [`ScrubError`]. Where the
//! holder set cannot be closed, that is a CRITICAL finding: the recount does not
//! run and is absent from the report, but everything the other passes can still
//! say gets said.

use vstd::prelude::*;
use vstd::string::*;

use super::disk::DiskWalk;
use super::findings::{
    add_finding, add_findings, finding_views, Finding, FindingClass, FindingView, Severity,
};
use super::holders::{
    counted, counts_holders, expected_counts, references, HolderEntry, HolderEnumerationError,
};
use super::id_map::{key_order, lists_keys};
use super::passes::buckets::{
    bucket_integrity, bucket_names_read, bucket_names_refused, reports_stranded, stranded,
};
use super::passes::dangling::{dangling_all, dangling_sweep, gone, radius_attached};
use super::passes::disk_sweep::{disk_sweep, swept};
use super::passes::multipart::{bad_part, multipart_report_at, reports_uploads, uploads_in};
use super::passes::recount::{recount, recounted};
use super::records::RecordWalk;
use super::report::order::report_order;
use super::report::{exit_code, some_of, summarizes, worst, Pass, Report, StoreRef, REPORT_VERSION};
use super::trees::{lists_sorted, sorted};
use super::ScrubContext;
use crate::clock::unix_now;
use crate::metastore::block::Block;
use crate::metastore::errors::MetaError;
use crate::metastore::traits::{Store, TransactionBackend};
use crate::text::{copy_opt, opt_text};

verus! {

/// Which passes to run.
///
/// Everything except the corruption scrub is always on. The scrub reads every
/// byte of every block, so it is asked for explicitly.
#[derive(Debug, Clone, Copy, PartialEq, Eq, Structural)]
pub struct ScrubOptions {
    /// Re-hash every block file against its own name.
    pub scrub: bool,
}

impl Default for ScrubOptions {
    /// Metadata passes only.
    fn default() -> (options: Self)
        ensures
            !options.scrub,
    {
        ScrubOptions { scrub: false }
    }
}

impl ScrubOptions {
    /// Metadata passes only: the default.
    pub fn metadata_only() -> (options: Self)
        ensures
            !options.scrub,
    {
        ScrubOptions { scrub: false }
    }

    /// Everything, including the disk-bound re-hash.
    pub fn full() -> (options: Self)
        ensures
            options.scrub,
    {
        ScrubOptions { scrub: true }
    }
}

/// A scrub that could not run.
#[derive(Debug)]
pub enum ScrubError {
    /// The block records could not be read.
    Records(MetaError),
    /// The blocks root could not be walked.
    Disk(String),
    /// The bucket list or tree list could not be read.
    Buckets(MetaError),
}

impl ScrubError {
    /// The message.
    pub open spec fn text(self) -> Seq<char> {
        match self {
            ScrubError::Records(e) => "the block records could not be read: "@ + e.text(),
            ScrubError::Disk(e) => "the blocks root could not be walked: "@ + e@,
            ScrubError::Buckets(e) => "the bucket list could not be read: "@ + e.text(),
        }
    }

    /// The message.
    pub fn to_string(&self) -> (out: String)
        ensures
            out@ == self.text(),
    {
        match self {
            ScrubError::Records(e) => {
                let mut out = "the block records could not be read: ".to_owned();
                out.append(&e.to_string());
                out
            },
            ScrubError::Disk(e) => {
                let mut out = "the blocks root could not be walked: ".to_owned();
                out.append(e);
                out
            },
            ScrubError::Buckets(e) => {
                let mut out = "the bucket list could not be read: ".to_owned();
                out.append(&e.to_string());
                out
            },
        }
    }
}

/// A refused holder enumeration as the finding the report carries.
pub open spec fn refusal(e: HolderEnumerationError) -> FindingView {
    FindingView::new(
        FindingClass::HolderEnumerationFailed,
        e.text()
            + ". No recount was run: a count over a partial holder set would authorise freeing blocks that are still referenced"@,
    )
}

/// Renders a refused holder enumeration as the finding the report carries.
pub fn refusal_finding(e: &HolderEnumerationError) -> (finding: Finding)
    ensures
        finding@ == refusal(*e),
{
    let mut text = e.to_string();
    text.append(
        ". No recount was run: a count over a partial holder set would authorise freeing blocks that are still referenced",
    );
    Finding::new(FindingClass::HolderEnumerationFailed, text)
}

/// What was seen of a store's records and files.
#[derive(Debug)]
pub struct Sightings {
    /// The block records.
    pub records: RecordWalk,
    /// The block files, and what else is under the blocks root.
    pub disk: DiskWalk,
    /// Whether the file of each record is there, in the order of the records.
    pub present: Vec<bool>,
    /// What re-hashing the block files found; of a run without the corruption
    /// scrub this is not looked at.
    pub rotten: Vec<Finding>,
}

/// How often each block is referenced.
pub open spec fn expected_map(holders: Seq<HolderEntry>) -> Map<Seq<u8>, u64> {
    Map::new(
        |id: Seq<u8>| references(holders, id) > 0,
        |id: Seq<u8>| counted(references(holders, id)),
    )
}

/// A count of the holders is how often each block is referenced.
pub proof fn lemma_counts_expected(counts: Map<Seq<u8>, u64>, holders: Seq<HolderEntry>)
    requires
        counts_holders(counts, holders),
    ensures
        counts == expected_map(holders),
{
    assert(counts =~= expected_map(holders));
}

/// Whether the recount found so much, or was refused.
pub open spec fn recount_part<N: Store, B: Store>(
    ctx: ScrubContext<'_, N, B>,
    records: Map<Seq<u8>, Block>,
    ran: bool,
    found: Seq<FindingView>,
) -> bool {
    if ran {
        &&& ctx.listed()
        &&& ctx.holders() matches Ok(holders)
        &&& found == recounted(expected_map(holders), records)
        &&& lists_keys(key_order(expected_map(holders)), expected_map(holders))
        &&& lists_keys(key_order(records), records)
    } else {
        exists|e: HolderEnumerationError| #[trigger] ctx.refused(e) && found == seq![refusal(e)]
    }
}

/// Whether the report on uploads found so much, or was refused.
pub open spec fn uploads_part<N: Store, B: Store>(
    ctx: ScrubContext<'_, N, B>,
    now: int,
    ran: bool,
    found: Seq<FindingView>,
) -> bool {
    if ran {
        &&& uploads_in(ctx.upload_rows()) matches Ok(uploads)
        &&& bad_part(ctx.part_rows()) is None
        &&& reports_uploads(uploads, ctx.part_rows(), now, found)
        &&& ctx.uploads_listed()
    } else {
        exists|e: HolderEnumerationError| #[trigger]
            ctx.upload_report_refused(e) && found == seq![refusal(e)]
    }
}

/// Whether the dangling sweep found so much.
pub open spec fn dangling_part<N: Store, B: Store>(
    ctx: ScrubContext<'_, N, B>,
    seen: Sightings,
    found: Seq<FindingView>,
) -> bool {
    let records = seen.records.records@;
    &&& lists_keys(key_order(records), records)
    &&& radius_attached(
        ctx,
        gone(key_order(records), records, seen.present@, seen.disk@.files),
        dangling_all(
            key_order(records),
            records,
            seen.present@,
            seen.disk@.files,
            ctx.shared.blocks_root@,
        ),
        found,
    )
}

/// Whether the bucket pass found so much.
pub open spec fn buckets_part<N: Store, B: Store>(
    ctx: ScrubContext<'_, N, B>,
    found: Seq<FindingView>,
) -> bool {
    let trees = stranded(ctx.namespace.store.names(), ctx.namespace.store.committed());
    &&& lists_sorted(sorted(trees), trees)
    &&& reports_stranded(*ctx.namespace, sorted(trees), found)
    &&& bucket_names_read(*ctx.namespace)
}

/// The passes of a run, in the order they ran.
pub open spec fn passes_of(recounted: bool, scrub: bool, uploads: bool) -> Seq<Pass> {
    (if recounted {
        seq![Pass::Recount]
    } else {
        Seq::empty()
    }) + seq![Pass::DiskSweep, Pass::DanglingSweep] + (if scrub {
        seq![Pass::CorruptionScrub]
    } else {
        Seq::empty()
    }) + (if uploads {
        seq![Pass::MultipartReport]
    } else {
        Seq::empty()
    }) + seq![Pass::BucketIntegrity]
}

/// What each pass of a run found.
pub ghost struct Parts {
    pub recounted: bool,
    pub recount: Seq<FindingView>,
    pub dangling: Seq<FindingView>,
    pub uploads_ran: bool,
    pub uploads: Seq<FindingView>,
    pub buckets: Seq<FindingView>,
}

impl Parts {
    /// Whether each pass found what it should.
    pub open spec fn hold<N: Store, B: Store>(
        self,
        ctx: ScrubContext<'_, N, B>,
        seen: Sightings,
        now: int,
    ) -> bool {
        &&& recount_part(ctx, seen.records.records@, self.recounted, self.recount)
        &&& dangling_part(ctx, seen, self.dangling)
        &&& uploads_part(ctx, now, self.uploads_ran, self.uploads)
        &&& buckets_part(ctx, self.buckets)
    }

    /// Everything found, in the order of the passes.
    pub open spec fn all(self, seen: Sightings, scrub: bool) -> Seq<FindingView> {
        finding_views(seen.records.findings@) + self.recount + swept(
            seen.disk@,
            seen.records.records@,
        ) + self.dangling + (if scrub {
            finding_views(seen.rotten@)
        } else {
            Seq::empty()
        }) + self.uploads + self.buckets
    }

    /// Whether a report is that of this run.
    pub open spec fn reported(self, seen: Sightings, scrub: bool, report: Report) -> bool {
        let all = self.all(seen, scrub);
        &&& report_order(all, finding_views(report.findings@))
        &&& report.exit_code == worst(all)
        &&& report.passes_run@ == passes_of(self.recounted, scrub, self.uploads_ran)
    }
}

/// Copies findings.
fn copy_findings(list: &Vec<Finding>) -> (out: Vec<Finding>)
    ensures
        finding_views(out@) == finding_views(list@),
{
    let mut out: Vec<Finding> = Vec::new();
    let mut i: usize = 0;
    while i < list.len()
        invariant
            i <= list@.len(),
            out@.len() == i,
            forall|j: int| 0 <= j < i ==> (#[trigger] out@[j])@ == list@[j]@,
        decreases list@.len() - i,
    {
        out.push(list[i].copy());
        i = i + 1;
    }
    proof {
        assert(finding_views(out@) =~= finding_views(list@));
    }
    out
}

/// Whether a report is what the passes say of a store at a time.
pub open spec fn reports_at<N: Store, B: Store>(
    ctx: ScrubContext<'_, N, B>,
    scrub: bool,
    seen: Sightings,
    now: int,
    report: Report,
) -> bool {
    &&& exists|parts: Parts| #[trigger]
        parts.hold(ctx, seen, now) && parts.reported(seen, scrub, report)
    &&& report.version == REPORT_VERSION
    &&& report.store.blocks_root@ == ctx.shared.blocks_root@
    &&& opt_text(report.store.meta_root) == opt_text(ctx.meta_root)
    &&& summarizes(report.summary, finding_views(report.findings@))
    &&& !report.passes_run@.contains(Pass::Recount) ==> report.exit_code == exit_code::CRITICAL
    &&& ctx.healthy() && ctx.holders() is Ok ==> report.passes_run@.contains(Pass::Recount)
}

/// Whether a run was refused for a reason there is: the bucket list does not
/// decode, or the store does not answer.
pub open spec fn run_refused<N: Store, B: Store>(
    ctx: ScrubContext<'_, N, B>,
    e: ScrubError,
) -> bool {
    e matches ScrubError::Buckets(e) && (ctx.namespace.store.healthy() ==> bucket_names_refused(
        *ctx.namespace,
        e,
    ))
}

/// Runs the passes over what was seen of a store, and returns the report. Ages
/// of uploads are measured against the wall clock.
///
/// The store is walked once: one record walk powers both the recount and the
/// dangling sweep, and one disk walk powers the disk sweep, the dangling sweep's
/// adoption check and, if asked for, the corruption scrub.
///
/// A refused holder enumeration is not an error: it is a CRITICAL finding.
pub fn run<N: Store, B: Store>(
    ctx: &ScrubContext<'_, N, B>,
    options: &ScrubOptions,
    seen: &Sightings,
) -> (out: Result<Report, ScrubError>)
    ensures
        match out {
            Ok(report) => exists|now: int| #[trigger]
                reports_at(*ctx, options.scrub, *seen, now, report),
            Err(e) => run_refused(*ctx, e),
        },
{
    let now: i64 = unix_now();
    run_at(ctx, options, seen, now)
}

/// Runs the passes over what was seen of a store; `now` is the time that the
/// ages of uploads are measured at.
pub fn run_at<N: Store, B: Store>(
    ctx: &ScrubContext<'_, N, B>,
    options: &ScrubOptions,
    seen: &Sightings,
    now: i64,
) -> (out: Result<Report, ScrubError>)
    ensures
        match out {
            Ok(report) => reports_at(*ctx, options.scrub, *seen, now as int, report),
            Err(e) => run_refused(*ctx, e),
        },
{
    let mut passes: Vec<Pass> = Vec::new();
    let mut findings = copy_findings(&seen.records.findings);
    let ghost records = seen.records.records@;

    let ghost recounted_now: bool;
    let ghost recount_found: Seq<FindingView>;
    match expected_counts(ctx) {
        Ok(expected) => {
            passes.push(Pass::Recount);
            let found = recount(&expected, &seen.records);
            proof {
                lemma_counts_expected(expected@, ctx.holders()->Ok_0);
                recounted_now = true;
                recount_found = finding_views(found@);
            }
            add_findings(&mut findings, found);
        },
        Err(e) => {
            let found = refusal_finding(&e);
            proof {
                recounted_now = false;
                recount_found = seq![found@];
                assert(ctx.refused(e));
            }
            let ghost before = finding_views(findings@);
            add_finding(&mut findings, found);
            proof {
                assert(before.push(found@) =~= before + seq![found@]);
            }
        },
    }

    passes.push(Pass::DiskSweep);
    add_findings(&mut findings, disk_sweep(&seen.disk, &seen.records));

    passes.push(Pass::DanglingSweep);
    let dangling = dangling_sweep(ctx, &seen.records, &seen.disk, &seen.present);
    let ghost dangling_found = finding_views(dangling@);
    add_findings(&mut findings, dangling);

    if options.scrub {
        passes.push(Pass::CorruptionScrub);
        add_findings(&mut findings, copy_findings(&seen.rotten));
    } else {
        proof {
            assert(finding_views(findings@) + Seq::<FindingView>::empty() =~= finding_views(
                findings@,
            ));
        }
    }

    let ghost uploads_now: bool;
    let ghost uploads_found: Seq<FindingView>;
    match multipart_report_at(ctx, now) {
        Ok(found) => {
            passes.push(Pass::MultipartReport);
            proof {
                uploads_now = true;
                uploads_found = finding_views(found@);
            }
            add_findings(&mut findings, found);
        },
        Err(e) => {
            let found = refusal_finding(&e);
            proof {
                uploads_now = false;
                uploads_found = seq![found@];
                assert(ctx.upload_report_refused(e));
            }
            let ghost before = finding_views(findings@);
            add_finding(&mut findings, found);
            proof {
                assert(before.push(found@) =~= before + seq![found@]);
            }
        },
    }

    passes.push(Pass::BucketIntegrity);
    let buckets = match bucket_integrity(ctx) {
        Ok(found) => found,
        Err(e) => {
            return Err(ScrubError::Buckets(e));
        },
    };
    let ghost parts = Parts {
        recounted: recounted_now,
        recount: recount_found,
        dangling: dangling_found,
        uploads_ran: uploads_now,
        uploads: uploads_found,
        buckets: finding_views(buckets@),
    };
    add_findings(&mut findings, buckets);
    let ghost all = finding_views(findings@);
    let store = StoreRef {
        blocks_root: ctx.blocks_root().to_owned(),
        meta_root: copy_opt(&ctx.meta_root),
    };
    let report = Report::new(store, passes, findings);
    proof {
        assert(all == parts.all(*seen, options.scrub));
        assert(report.passes_run@ =~= passes_of(recounted_now, options.scrub, uploads_now));
        assert(parts.hold(*ctx, *seen, now as int));
        assert(parts.reported(*seen, options.scrub, report));
        if recounted_now {
            assert(report.passes_run@[0] == Pass::Recount);
        } else {
            lemma_refusal_worst(parts, *seen, options.scrub);
            assert(exists|e: HolderEnumerationError| #[trigger]
                ctx.refused(e) && recount_found == seq![refusal(e)]);
        }
    }
    Ok(report)
}

/// A run that carries a refusal is CRITICAL.
proof fn lemma_refusal_worst(parts: Parts, seen: Sightings, scrub: bool)
    requires
        parts.recount.len() == 1,
        parts.recount[0].severity == Severity::Critical,
    ensures
        worst(parts.all(seen, scrub)) == exit_code::CRITICAL,
{
    let all = parts.all(seen, scrub);
    let n = finding_views(seen.records.findings@).len();
    assert(all[n as int] == parts.recount[0]);
    assert(some_of(all, Severity::Critical));
}

} // verus!
