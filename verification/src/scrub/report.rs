//! What a scrub run produces: an ordered set of findings, what it looked at,
//! and the number the shell sees.

use vstd::prelude::*;
use vstd::string::*;

use self::order::{lemma_permuted, report_order, sort_findings};
use super::findings::{finding_views, Finding, FindingView, HolderView, Severity};
use super::trees::lemma_prefix;
use crate::text::{dec, opt_text, put_dec, put_len_dec};

pub mod exit_code;
pub mod laws;
pub mod order;

verus! {

/// Schema version of the report document. Bumped only by a breaking change to
/// the field names or their meaning.
pub const REPORT_VERSION: u32 = 1;

/// Which pass produced findings in a run. A pass that did not run is absent.
#[derive(Debug, Clone, Copy, PartialEq, Eq, PartialOrd, Ord, Structural)]
pub enum Pass {
    /// Holder references versus block records.
    Recount,
    /// Block files versus the records that should name them.
    DiskSweep,
    /// Records whose file is not where they say.
    DanglingSweep,
    /// Re-hash of every block file.
    CorruptionScrub,
    /// In-flight multipart uploads.
    MultipartReport,
    /// Object trees with no bucket row.
    BucketIntegrity,
}

impl Pass {
    /// The name this pass carries in every rendering.
    pub open spec fn name(self) -> Seq<char> {
        match self {
            Pass::Recount => "recount"@,
            Pass::DiskSweep => "disk_sweep"@,
            Pass::DanglingSweep => "dangling_sweep"@,
            Pass::CorruptionScrub => "corruption_scrub"@,
            Pass::MultipartReport => "multipart_report"@,
            Pass::BucketIntegrity => "bucket_integrity"@,
        }
    }

    /// The name this pass carries in every rendering.
    pub fn as_str(self) -> (text: &'static str)
        ensures
            text@ == self.name(),
    {
        match self {
            Pass::Recount => "recount",
            Pass::DiskSweep => "disk_sweep",
            Pass::DanglingSweep => "dangling_sweep",
            Pass::CorruptionScrub => "corruption_scrub",
            Pass::MultipartReport => "multipart_report",
            Pass::BucketIntegrity => "bucket_integrity",
        }
    }

    /// The name this pass carries in every rendering.
    pub fn to_string(&self) -> (text: String)
        ensures
            text@ == self.name(),
    {
        self.as_str().to_owned()
    }
}

/// Which store was scrubbed.
#[derive(Debug, PartialEq, Eq)]
pub struct StoreRef {
    /// Root of the block data files.
    pub blocks_root: String,
    /// Root the metadata databases live under, when the caller knows it.
    pub meta_root: Option<String>,
}

/// How many findings of each severity.
#[derive(Debug, Clone, Copy, PartialEq, Eq, Structural)]
pub struct Summary {
    /// Expected leakage and information.
    pub info: usize,
    /// Inconsistencies.
    pub warn: usize,
    /// Loss or loss-risk.
    pub critical: usize,
    /// All of the above.
    pub total: usize,
}

impl Default for Summary {
    /// No findings at all.
    fn default() -> (summary: Self)
        ensures
            summary == (Summary { info: 0, warn: 0, critical: 0, total: 0 }),
    {
        Summary { info: 0, warn: 0, critical: 0, total: 0 }
    }
}

/// How many findings of a list carry a severity.
pub open spec fn count_of(list: Seq<FindingView>, severity: Severity) -> nat
    decreases list.len(),
{
    if list.len() == 0 {
        0
    } else {
        count_of(list.drop_last(), severity) + if list.last().severity == severity {
            1nat
        } else {
            0nat
        }
    }
}

/// Whether a summary counts a list of findings.
pub open spec fn summarizes(summary: Summary, list: Seq<FindingView>) -> bool {
    &&& summary.info == count_of(list, Severity::Info)
    &&& summary.warn == count_of(list, Severity::Warn)
    &&& summary.critical == count_of(list, Severity::Critical)
    &&& summary.total == list.len()
}

/// Whether some finding carries a severity.
pub open spec fn some_of(list: Seq<FindingView>, severity: Severity) -> bool {
    exists|i: int| 0 <= i < list.len() && (#[trigger] list[i]).severity == severity
}

/// The exit code of a run: that of its worst finding.
pub open spec fn worst(list: Seq<FindingView>) -> u8 {
    if some_of(list, Severity::Critical) {
        exit_code::CRITICAL
    } else if some_of(list, Severity::Warn) {
        exit_code::WARN
    } else {
        exit_code::CLEAN
    }
}

/// A severity is counted where some finding carries it.
proof fn lemma_count_some(list: Seq<FindingView>, severity: Severity)
    ensures
        count_of(list, severity) > 0 <==> some_of(list, severity),
        count_of(list, severity) <= list.len(),
    decreases list.len(),
{
    if list.len() > 0 {
        let init = list.drop_last();
        lemma_count_some(init, severity);
        if some_of(init, severity) {
            let i = choose|i: int| 0 <= i < init.len() && (#[trigger] init[i]).severity == severity;
            assert(list[i].severity == severity);
        }
        if some_of(list, severity) {
            let i = choose|i: int| 0 <= i < list.len() && (#[trigger] list[i]).severity == severity;
            if i < init.len() {
                assert(init[i].severity == severity);
            } else {
                assert(list.last().severity == severity);
            }
        }
    }
}

/// Every finding is counted under one severity.
pub proof fn lemma_counts_add_up(list: Seq<FindingView>)
    ensures
        count_of(list, Severity::Info) + count_of(list, Severity::Warn) + count_of(
            list,
            Severity::Critical,
        ) == list.len(),
    decreases list.len(),
{
    if list.len() > 0 {
        lemma_counts_add_up(list.drop_last());
    }
}

/// The exit code does not depend on the order of the findings.
pub proof fn lemma_worst_unordered(a: Seq<FindingView>, b: Seq<FindingView>)
    requires
        a.to_multiset() == b.to_multiset(),
    ensures
        worst(a) == worst(b),
{
    lemma_some_of_permuted(a, b, Severity::Critical);
    lemma_some_of_permuted(b, a, Severity::Critical);
    lemma_some_of_permuted(a, b, Severity::Warn);
    lemma_some_of_permuted(b, a, Severity::Warn);
}

proof fn lemma_some_of_permuted(a: Seq<FindingView>, b: Seq<FindingView>, severity: Severity)
    requires
        a.to_multiset() == b.to_multiset(),
    ensures
        some_of(a, severity) ==> some_of(b, severity),
{
    if some_of(a, severity) {
        let i = choose|i: int| 0 <= i < a.len() && (#[trigger] a[i]).severity == severity;
        assert(a.contains(a[i]));
        lemma_permuted(a, b, a[i]);
        let j = choose|j: int| 0 <= j < b.len() && b[j] == a[i];
        assert(b[j].severity == severity);
    }
}

/// One scrub run.
#[derive(Debug, PartialEq, Eq)]
pub struct Report {
    /// Schema version of this document.
    pub version: u32,
    /// The store this is about.
    pub store: StoreRef,
    /// Passes that actually ran, in the order they ran.
    pub passes_run: Vec<Pass>,
    /// Everything found, worst first.
    pub findings: Vec<Finding>,
    /// Counts by severity.
    pub summary: Summary,
    /// What the process should exit with.
    pub exit_code: u8,
}

/// Names joined by a comma.
pub open spec fn pass_names(passes: Seq<Pass>) -> Seq<char>
    decreases passes.len(),
{
    if passes.len() == 0 {
        Seq::empty()
    } else if passes.len() == 1 {
        passes[0].name()
    } else {
        pass_names(passes.drop_last()) + ", "@ + passes.last().name()
    }
}

/// One line per holder.
pub open spec fn holder_lines(holders: Seq<HolderView>) -> Seq<char>
    decreases holders.len(),
{
    if holders.len() == 0 {
        Seq::empty()
    } else {
        holder_lines(holders.drop_last()) + "    holder: "@ + holders.last().text() + "\n"@
    }
}

/// A finding as the text report shows it, behind what stands before it.
pub open spec fn finding_text(f: FindingView) -> Seq<char> {
    f.severity.label() + " "@ + f.class.name() + (match f.block {
        Some(block) => " block="@ + block,
        None => Seq::empty(),
    }) + "\n"@ + (match f.path {
        Some(path) => "    path: "@ + path + "\n"@,
        None => Seq::empty(),
    }) + "    "@ + f.evidence + "\n"@ + holder_lines(f.holders) + "\n"@
}

/// Findings as the text report shows them.
pub open spec fn finding_texts(list: Seq<FindingView>) -> Seq<char>
    decreases list.len(),
{
    if list.len() == 0 {
        Seq::empty()
    } else {
        finding_texts(list.drop_last()) + finding_text(list.last())
    }
}

/// The line a text report ends in.
pub open spec fn footer_text(summary: Summary, exit_code: u8) -> Seq<char> {
    dec(summary.critical as nat) + " critical, "@ + dec(summary.warn as nat) + " warn, "@ + dec(
        summary.info as nat,
    ) + " info ("@ + dec(summary.total as nat) + " finding(s)); exit "@ + dec(exit_code as nat)
        + "\n"@
}

/// The lines a text report starts with.
pub open spec fn header_text(
    version: u32,
    blocks_root: Seq<char>,
    meta_root: Option<Seq<char>>,
    passes: Seq<Pass>,
) -> Seq<char> {
    "qss-storage fsck report (v"@ + dec(version as nat) + ")\nstore: "@ + blocks_root + "\n"@ + (
    match meta_root {
        Some(root) => "meta:  "@ + root + "\n"@,
        None => Seq::empty(),
    }) + "passes: "@ + pass_names(passes) + "\n\n"@
}

/// Appends the names of passes, joined by a comma.
fn put_passes(out: &mut String, passes: &Vec<Pass>)
    ensures
        final(out)@ == old(out)@ + pass_names(passes@),
{
    let ghost start = out@;
    let mut i: usize = 0;
    proof {
        assert(passes@.subrange(0, 0) =~= Seq::<Pass>::empty());
        assert(start + pass_names(Seq::empty()) =~= start);
    }
    while i < passes.len()
        invariant
            i <= passes@.len(),
            out@ == start + pass_names(passes@.subrange(0, i as int)),
        decreases passes@.len() - i,
    {
        proof {
            lemma_prefix(passes@, i as int);
            assert(passes@.subrange(0, i + 1)[0] == passes@[0]);
        }
        if i > 0 {
            out.append(", ");
        }
        out.append(passes[i].as_str());
        proof {
            assert(out@ =~= start + pass_names(passes@.subrange(0, i + 1)));
        }
        i = i + 1;
    }
    proof {
        assert(passes@.subrange(0, passes@.len() as int) =~= passes@);
    }
}

/// Appends a finding as the text report shows it.
fn put_finding(out: &mut String, finding: &Finding)
    ensures
        final(out)@ == old(out)@ + finding_text(finding@),
{
    let ghost start = out@;
    let ghost f = finding@;
    let ghost head = f.severity.label() + " "@ + f.class.name() + (match f.block {
        Some(block) => " block="@ + block,
        None => Seq::empty(),
    }) + "\n"@ + (match f.path {
        Some(path) => "    path: "@ + path + "\n"@,
        None => Seq::empty(),
    }) + "    "@ + f.evidence + "\n"@;
    out.append(finding.severity.label_text());
    out.append(" ");
    out.append(finding.class.as_str());
    match &finding.block {
        Some(block) => {
            out.append(" block=");
            out.append(block);
        },
        None => {},
    }
    out.append("\n");
    match &finding.path {
        Some(path) => {
            out.append("    path: ");
            out.append(path);
            out.append("\n");
        },
        None => {},
    }
    out.append("    ");
    out.append(&finding.evidence);
    out.append("\n");
    let mut i: usize = 0;
    proof {
        assert(out@ =~= start + head);
        assert(f.holders.subrange(0, 0) =~= Seq::<HolderView>::empty());
        assert(start + head + holder_lines(Seq::empty()) =~= start + head);
    }
    while i < finding.holders.len()
        invariant
            i <= finding.holders@.len(),
            f == finding@,
            out@ == start + head + holder_lines(f.holders.subrange(0, i as int)),
        decreases finding.holders@.len() - i,
    {
        proof {
            lemma_prefix(f.holders, i as int);
            assert(f.holders[i as int] == finding.holders@[i as int]@);
        }
        out.append("    holder: ");
        out.append(&finding.holders[i].to_string());
        out.append("\n");
        proof {
            assert(out@ =~= start + head + holder_lines(f.holders.subrange(0, i + 1)));
        }
        i = i + 1;
    }
    out.append("\n");
    proof {
        assert(f.holders.subrange(0, f.holders.len() as int) =~= f.holders);
        assert(out@ =~= start + finding_text(f));
    }
}

/// Appends the line a text report ends with.
fn put_footer(out: &mut String, summary: Summary, exit_code: u8)
    ensures
        final(out)@ == old(out)@ + footer_text(summary, exit_code),
{
    let ghost start = out@;
    put_len_dec(out, summary.critical);
    out.append(" critical, ");
    put_len_dec(out, summary.warn);
    out.append(" warn, ");
    put_len_dec(out, summary.info);
    out.append(" info (");
    put_len_dec(out, summary.total);
    out.append(" finding(s)); exit ");
    put_dec(out, exit_code as u64);
    out.append("\n");
    proof {
        assert(out@ =~= start + footer_text(summary, exit_code));
    }
}

/// Counts findings by severity.
fn summarize(findings: &Vec<Finding>) -> (summary: Summary)
    ensures
        summarizes(summary, finding_views(findings@)),
{
    let ghost all = finding_views(findings@);
    let mut summary = Summary::default();
    let mut i: usize = 0;
    proof {
        assert(all.subrange(0, 0) =~= Seq::<FindingView>::empty());
    }
    while i < findings.len()
        invariant
            i <= findings@.len(),
            all == finding_views(findings@),
            summarizes(summary, all.subrange(0, i as int)),
        decreases findings@.len() - i,
    {
        proof {
            lemma_prefix(all, i as int);
            assert(all[i as int] == findings@[i as int]@);
            lemma_count_some(all.subrange(0, i as int), Severity::Info);
            lemma_count_some(all.subrange(0, i as int), Severity::Warn);
            lemma_count_some(all.subrange(0, i as int), Severity::Critical);
        }
        match findings[i].severity {
            Severity::Info => {
                summary.info = summary.info + 1;
            },
            Severity::Warn => {
                summary.warn = summary.warn + 1;
            },
            Severity::Critical => {
                summary.critical = summary.critical + 1;
            },
        }
        summary.total = summary.total + 1;
        i = i + 1;
    }
    proof {
        assert(all.subrange(0, all.len() as int) =~= all);
    }
    summary
}

impl Report {
    /// Builds a report from a run's raw output, sorting the findings and
    /// deriving the summary and exit code from them.
    ///
    /// The order is CRITICAL first, then WARN, then INFO; within a severity, by
    /// class, then block, then path, then evidence.
    pub fn new(store: StoreRef, passes_run: Vec<Pass>, findings: Vec<Finding>) -> (report: Self)
        ensures
            report.version == REPORT_VERSION,
            report.store == store,
            report.passes_run == passes_run,
            report_order(finding_views(findings@), finding_views(report.findings@)),
            summarizes(report.summary, finding_views(report.findings@)),
            report.exit_code == worst(finding_views(findings@)),
    {
        let sorted = sort_findings(findings);
        let summary = summarize(&sorted);
        proof {
            let views = finding_views(sorted@);
            lemma_count_some(views, Severity::Critical);
            lemma_count_some(views, Severity::Warn);
            lemma_worst_unordered(finding_views(findings@), views);
        }
        let exit_code: u8 = if summary.critical > 0 {
            exit_code::CRITICAL
        } else if summary.warn > 0 {
            exit_code::WARN
        } else {
            exit_code::CLEAN
        };
        Report { version: REPORT_VERSION, store, passes_run, findings: sorted, summary, exit_code }
    }

    /// Whether a pass ran in this scrub.
    ///
    /// Repair consults this: with the recount absent, the holder set was not
    /// closed and no refcount may be touched.
    pub fn ran(&self, pass: Pass) -> (yes: bool)
        ensures
            yes == self.passes_run@.contains(pass),
    {
        let mut i: usize = 0;
        while i < self.passes_run.len()
            invariant
                i <= self.passes_run@.len(),
                forall|j: int| 0 <= j < i ==> self.passes_run@[j] != pass,
            decreases self.passes_run@.len() - i,
        {
            if self.passes_run[i] == pass {
                return true;
            }
            i = i + 1;
        }
        false
    }

    /// Appends the lines a text report starts with.
    fn put_header(&self, out: &mut String)
        ensures
            final(out)@ == old(out)@ + header_text(
                self.version,
                self.store.blocks_root@,
                opt_text(self.store.meta_root),
                self.passes_run@,
            ),
    {
        let ghost start = out@;
        out.append("qss-storage fsck report (v");
        put_dec(out, self.version as u64);
        out.append(")\nstore: ");
        out.append(&self.store.blocks_root);
        out.append("\n");
        match &self.store.meta_root {
            Some(root) => {
                out.append("meta:  ");
                out.append(root);
                out.append("\n");
            },
            None => {},
        }
        out.append("passes: ");
        put_passes(out, &self.passes_run);
        out.append("\n\n");
        proof {
            assert(out@ =~= start + header_text(
                self.version,
                self.store.blocks_root@,
                opt_text(self.store.meta_root),
                self.passes_run@,
            ));
        }
    }

    /// The report as an operator reads it.
    pub open spec fn text(self) -> Seq<char> {
        header_text(
            self.version,
            self.store.blocks_root@,
            opt_text(self.store.meta_root),
            self.passes_run@,
        ) + (if self.findings@.len() == 0 {
            "no findings\n\n"@
        } else {
            finding_texts(finding_views(self.findings@))
        }) + footer_text(self.summary, self.exit_code)
    }

    /// The report as an operator reads it.
    pub fn render_text(&self) -> (out: String)
        ensures
            out@ == self.text(),
    {
        let ghost header = header_text(
            self.version,
            self.store.blocks_root@,
            opt_text(self.store.meta_root),
            self.passes_run@,
        );
        let ghost all = finding_views(self.findings@);
        let mut out = String::new();
        self.put_header(&mut out);
        proof {
            assert(out@ =~= header);
            assert(all.subrange(0, 0) =~= Seq::<FindingView>::empty());
            assert(header + finding_texts(Seq::empty()) =~= header);
        }
        if self.findings.len() == 0 {
            out.append("no findings\n\n");
        }
        let mut i: usize = 0;
        while i < self.findings.len()
            invariant
                i <= self.findings@.len(),
                all == finding_views(self.findings@),
                self.findings@.len() > 0 ==> out@ == header + finding_texts(
                    all.subrange(0, i as int),
                ),
                self.findings@.len() == 0 ==> out@ == header + "no findings\n\n"@,
            decreases self.findings@.len() - i,
        {
            proof {
                lemma_prefix(all, i as int);
                assert(all[i as int] == self.findings@[i as int]@);
            }
            put_finding(&mut out, &self.findings[i]);
            proof {
                assert(out@ =~= header + finding_texts(all.subrange(0, i + 1)));
            }
            i = i + 1;
        }
        let ghost body = out@;
        put_footer(&mut out, self.summary, self.exit_code);
        proof {
            assert(all.subrange(0, all.len() as int) =~= all);
            assert(out@ == body + footer_text(self.summary, self.exit_code));
        }
        out
    }

    /// The report as an operator reads it.
    pub fn to_string(&self) -> (out: String)
        ensures
            out@ == self.text(),
    {
        self.render_text()
    }
}

} // verus!
