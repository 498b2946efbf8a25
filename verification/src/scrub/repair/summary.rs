//! What one repair action did, and the document a whole repair run leaves
//! behind.

use vstd::prelude::*;
use vstd::string::*;

use super::REPAIR_VERSION;
use crate::metastore::block::BlockId;
use crate::scrub::findings::{render_storage_key, storage_key_text, Severity};
use crate::scrub::report::Report;
use crate::scrub::trees::lemma_prefix;
use crate::text::{dec, hex, opt_text, put_dec, put_len_dec};

verus! {

/// How one action ended.
#[derive(Debug, Clone, Copy, PartialEq, Eq, Structural)]
pub enum RepairStatus {
    /// The store changed as the action intended.
    Applied,
    /// Nothing to do: the residue was already gone, or a rule forbade the
    /// action.
    Skipped,
    /// The action was attempted and did not take.
    Failed,
}

impl RepairStatus {
    /// The name this status carries.
    pub open spec fn name(self) -> Seq<char> {
        match self {
            RepairStatus::Applied => "applied"@,
            RepairStatus::Skipped => "skipped"@,
            RepairStatus::Failed => "failed"@,
        }
    }

    /// The name this status carries.
    pub fn as_str(self) -> (text: &'static str)
        ensures
            text@ == self.name(),
    {
        match self {
            RepairStatus::Applied => "applied",
            RepairStatus::Skipped => "skipped",
            RepairStatus::Failed => "failed",
        }
    }

    /// The word a summary shows.
    pub open spec fn label(self) -> Seq<char> {
        match self {
            RepairStatus::Applied => "APPLIED"@,
            RepairStatus::Skipped => "SKIPPED"@,
            RepairStatus::Failed => "FAILED"@,
        }
    }

    /// The word a summary shows.
    fn label_text(self) -> (text: &'static str)
        ensures
            text@ == self.label(),
    {
        match self {
            RepairStatus::Applied => "APPLIED",
            RepairStatus::Skipped => "SKIPPED",
            RepairStatus::Failed => "FAILED",
        }
    }

    /// The severity a status implies.
    pub open spec fn severity(self) -> Severity {
        if self is Failed {
            Severity::Critical
        } else {
            Severity::Info
        }
    }
}

/// What one action did, for the operator and for scripts.
#[derive(Debug, PartialEq, Eq)]
pub struct RepairOutcome {
    /// Which action this was.
    pub action: &'static str,
    /// How it ended.
    pub status: RepairStatus,
    /// How much an operator should care.
    pub severity: Severity,
    /// The block this was about, as lowercase hex, when it was about one.
    pub block: Option<String>,
    /// The path this was about, when it was about one.
    pub path: Option<String>,
    /// What happened, in words.
    pub detail: String,
}

/// What an outcome states.
#[verifier::ext_equal]
pub ghost struct OutcomeView {
    pub action: Seq<char>,
    pub status: RepairStatus,
    pub severity: Severity,
    pub block: Option<Seq<char>>,
    pub path: Option<Seq<char>>,
    pub detail: Seq<char>,
}

impl View for RepairOutcome {
    type V = OutcomeView;

    open spec fn view(&self) -> OutcomeView {
        OutcomeView {
            action: self.action@,
            status: self.status,
            severity: self.severity,
            block: opt_text(self.block),
            path: opt_text(self.path),
            detail: self.detail@,
        }
    }
}

impl OutcomeView {
    /// An outcome at the severity its status implies.
    pub open spec fn new(action: Seq<char>, status: RepairStatus, detail: Seq<char>) -> OutcomeView {
        OutcomeView {
            action,
            status,
            severity: status.severity(),
            block: None,
            path: None,
            detail,
        }
    }

    pub open spec fn with_block(self, id: Seq<u8>) -> OutcomeView {
        OutcomeView { block: Some(hex(id)), ..self }
    }

    pub open spec fn with_path(self, path: Seq<char>) -> OutcomeView {
        OutcomeView { path: Some(path), ..self }
    }

    pub open spec fn at(self, severity: Severity) -> OutcomeView {
        OutcomeView { severity, ..self }
    }
}

/// Outcomes by what they state.
pub open spec fn outcome_views(list: Seq<RepairOutcome>) -> Seq<OutcomeView> {
    list.map_values(|o: RepairOutcome| o@)
}

/// Appends an outcome.
pub fn add_outcome(list: &mut Vec<RepairOutcome>, outcome: RepairOutcome)
    ensures
        outcome_views(final(list)@) == outcome_views(old(list)@).push(outcome@),
{
    let ghost before = list@;
    list.push(outcome);
    proof {
        assert(outcome_views(list@) =~= outcome_views(before).push(outcome@));
    }
}

impl RepairOutcome {
    /// An outcome of `action`, at the severity its status implies.
    pub fn new(action: &'static str, status: RepairStatus, detail: String) -> (outcome: Self)
        ensures
            outcome@ == OutcomeView::new(action@, status, detail@),
    {
        let severity = match status {
            RepairStatus::Applied | RepairStatus::Skipped => Severity::Info,
            RepairStatus::Failed => Severity::Critical,
        };
        RepairOutcome { action, status, severity, block: None, path: None, detail }
    }

    /// Names the block this outcome is about.
    pub fn with_block(self, id: &BlockId) -> (outcome: Self)
        ensures
            outcome@ == self@.with_block(id@),
    {
        let mut outcome = self;
        outcome.block = Some(id.to_hex());
        outcome
    }

    /// Names the path this outcome is about.
    pub fn with_path(self, path: &str) -> (outcome: Self)
        ensures
            outcome@ == self@.with_path(path@),
    {
        let mut outcome = self;
        outcome.path = Some(path.to_owned());
        outcome
    }

    /// Names the raw record key this outcome is about, in the field a path goes
    /// in and by the rule a finding uses, so that the two name one record alike.
    pub fn with_storage_key(self, key: &[u8]) -> (outcome: Self)
        ensures
            outcome@ == self@.with_path(storage_key_text(key@)),
    {
        let mut outcome = self;
        outcome.path = Some(render_storage_key(key));
        outcome
    }

    /// Overrides the severity the status implies.
    pub fn at(self, severity: Severity) -> (outcome: Self)
        ensures
            outcome@ == self@.at(severity),
    {
        let mut outcome = self;
        outcome.severity = severity;
        outcome
    }
}

/// How many outcomes of each status.
#[derive(Debug, Clone, Copy, PartialEq, Eq, Structural)]
pub struct RepairCounts {
    /// Actions that changed the store.
    pub applied: usize,
    /// Actions that had nothing to do, or were not allowed to.
    pub skipped: usize,
    /// Actions that did not take.
    pub failed: usize,
    /// All of the above.
    pub total: usize,
}

impl Default for RepairCounts {
    /// No outcomes at all.
    fn default() -> (counts: Self)
        ensures
            counts == (RepairCounts { applied: 0, skipped: 0, failed: 0, total: 0 }),
    {
        RepairCounts { applied: 0, skipped: 0, failed: 0, total: 0 }
    }
}

/// How many outcomes of a list have a status.
pub open spec fn count_status(list: Seq<OutcomeView>, status: RepairStatus) -> nat
    decreases list.len(),
{
    if list.len() == 0 {
        0
    } else {
        count_status(list.drop_last(), status) + if list.last().status == status {
            1nat
        } else {
            0nat
        }
    }
}

proof fn lemma_count_status(list: Seq<OutcomeView>, status: RepairStatus)
    ensures
        count_status(list, status) <= list.len(),
    decreases list.len(),
{
    if list.len() > 0 {
        lemma_count_status(list.drop_last(), status);
    }
}

/// Whether counts are those of a list of outcomes.
pub open spec fn counts_outcomes(counts: RepairCounts, list: Seq<OutcomeView>) -> bool {
    &&& counts.applied == count_status(list, RepairStatus::Applied)
    &&& counts.skipped == count_status(list, RepairStatus::Skipped)
    &&& counts.failed == count_status(list, RepairStatus::Failed)
    &&& counts.total == list.len()
}

/// One repair run: what it did, and what the store looked like afterwards.
#[derive(Debug, PartialEq, Eq)]
pub struct RepairSummary {
    /// Schema version of this document.
    pub version: u32,
    /// Every action, in the order it was applied.
    pub outcomes: Vec<RepairOutcome>,
    /// Counts by status.
    pub counts: RepairCounts,
    /// The report the passes produced after the last action.
    pub report: Report,
}

/// An outcome as the summary shows it.
pub open spec fn outcome_text(o: OutcomeView) -> Seq<char> {
    o.status.label() + " "@ + o.action + (match o.block {
        Some(block) => " block="@ + block,
        None => Seq::empty(),
    }) + "\n"@ + (match o.path {
        Some(path) => "    path: "@ + path + "\n"@,
        None => Seq::empty(),
    }) + "    "@ + o.detail + "\n"@
}

/// Outcomes as the summary shows them.
pub open spec fn outcome_texts(list: Seq<OutcomeView>) -> Seq<char>
    decreases list.len(),
{
    if list.len() == 0 {
        Seq::empty()
    } else {
        outcome_texts(list.drop_last()) + outcome_text(list.last())
    }
}

/// The line behind the outcomes.
pub open spec fn counts_text(counts: RepairCounts) -> Seq<char> {
    "\n"@ + dec(counts.applied as nat) + " applied, "@ + dec(counts.skipped as nat)
        + " skipped, "@ + dec(counts.failed as nat) + " failed ("@ + dec(counts.total as nat)
        + " action(s))\n\n"@
}

/// Appends an outcome as the summary shows it.
fn put_outcome(out: &mut String, outcome: &RepairOutcome)
    ensures
        final(out)@ == old(out)@ + outcome_text(outcome@),
{
    let ghost start = out@;
    out.append(outcome.status.label_text());
    out.append(" ");
    out.append(outcome.action);
    match &outcome.block {
        Some(block) => {
            out.append(" block=");
            out.append(block);
        },
        None => {},
    }
    out.append("\n");
    match &outcome.path {
        Some(path) => {
            out.append("    path: ");
            out.append(path);
            out.append("\n");
        },
        None => {},
    }
    out.append("    ");
    out.append(&outcome.detail);
    out.append("\n");
    proof {
        assert(out@ =~= start + outcome_text(outcome@));
    }
}

impl RepairSummary {
    /// Assembles a summary, deriving the counts from the outcomes.
    pub fn new(outcomes: Vec<RepairOutcome>, report: Report) -> (summary: Self)
        ensures
            summary.version == REPAIR_VERSION,
            summary.outcomes == outcomes,
            counts_outcomes(summary.counts, outcome_views(outcomes@)),
            summary.report == report,
    {
        let ghost all = outcome_views(outcomes@);
        let mut counts = RepairCounts::default();
        let mut i: usize = 0;
        proof {
            assert(all.subrange(0, 0) =~= Seq::<OutcomeView>::empty());
        }
        while i < outcomes.len()
            invariant
                i <= outcomes@.len(),
                all == outcome_views(outcomes@),
                counts_outcomes(counts, all.subrange(0, i as int)),
            decreases outcomes@.len() - i,
        {
            proof {
                lemma_prefix(all, i as int);
                assert(all[i as int] == outcomes@[i as int]@);
                lemma_count_status(all.subrange(0, i as int), RepairStatus::Applied);
                lemma_count_status(all.subrange(0, i as int), RepairStatus::Skipped);
                lemma_count_status(all.subrange(0, i as int), RepairStatus::Failed);
            }
            match outcomes[i].status {
                RepairStatus::Applied => {
                    counts.applied = counts.applied + 1;
                },
                RepairStatus::Skipped => {
                    counts.skipped = counts.skipped + 1;
                },
                RepairStatus::Failed => {
                    counts.failed = counts.failed + 1;
                },
            }
            counts.total = counts.total + 1;
            i = i + 1;
        }
        proof {
            assert(all.subrange(0, all.len() as int) =~= all);
        }
        RepairSummary { version: REPAIR_VERSION, outcomes, counts, report }
    }

    /// What the process should exit with after this run: a repair that did not
    /// finish leaves its subject standing in the report.
    pub fn exit_code(&self) -> (code: u8)
        ensures
            code == self.report.exit_code,
    {
        self.report.exit_code
    }

    /// The summary as an operator reads it.
    pub open spec fn text(self) -> Seq<char> {
        "qss-storage fsck repair (v"@ + dec(self.version as nat) + ")\n\n"@ + (
        if self.outcomes@.len() == 0 {
            "nothing to repair\n\n"@
        } else {
            outcome_texts(outcome_views(self.outcomes@))
        }) + counts_text(self.counts) + self.report.text()
    }

    /// The summary as an operator reads it: the actions, then the report the
    /// store produced once they were done.
    pub fn render_text(&self) -> (out: String)
        ensures
            out@ == self.text(),
    {
        let ghost all = outcome_views(self.outcomes@);
        let mut out = "qss-storage fsck repair (v".to_owned();
        put_dec(&mut out, self.version as u64);
        out.append(")\n\n");
        let ghost header = out@;
        if self.outcomes.len() == 0 {
            out.append("nothing to repair\n\n");
        }
        let mut i: usize = 0;
        proof {
            assert(all.subrange(0, 0) =~= Seq::<OutcomeView>::empty());
            assert(header + outcome_texts(Seq::empty()) =~= header);
        }
        while i < self.outcomes.len()
            invariant
                i <= self.outcomes@.len(),
                all == outcome_views(self.outcomes@),
                self.outcomes@.len() > 0 ==> out@ == header + outcome_texts(
                    all.subrange(0, i as int),
                ),
                self.outcomes@.len() == 0 ==> out@ == header + "nothing to repair\n\n"@,
            decreases self.outcomes@.len() - i,
        {
            proof {
                lemma_prefix(all, i as int);
                assert(all[i as int] == self.outcomes@[i as int]@);
            }
            put_outcome(&mut out, &self.outcomes[i]);
            proof {
                assert(out@ =~= header + outcome_texts(all.subrange(0, i + 1)));
            }
            i = i + 1;
        }
        let ghost body = out@;
        out.append("\n");
        put_len_dec(&mut out, self.counts.applied);
        out.append(" applied, ");
        put_len_dec(&mut out, self.counts.skipped);
        out.append(" skipped, ");
        put_len_dec(&mut out, self.counts.failed);
        out.append(" failed (");
        put_len_dec(&mut out, self.counts.total);
        out.append(" action(s))\n\n");
        proof {
            assert(all.subrange(0, all.len() as int) =~= all);
            assert(out@ =~= body + counts_text(self.counts));
        }
        out.append(&self.report.render_text());
        out
    }
}

/// The counts of a repair are the numbers of its outcomes by status, and of all.
pub proof fn lemma_outcomes_counted(counts: RepairCounts, list: Seq<OutcomeView>)
    requires
        counts_outcomes(counts, list),
    ensures
        counts.applied == list.filter(|o: OutcomeView| o.status is Applied).len(),
        counts.skipped == list.filter(|o: OutcomeView| o.status is Skipped).len(),
        counts.failed == list.filter(|o: OutcomeView| o.status is Failed).len(),
        counts.total == list.len(),
{
    lemma_status_counted(list);
}

proof fn lemma_status_counted(list: Seq<OutcomeView>)
    ensures
        count_status(list, RepairStatus::Applied) == list.filter(
            |o: OutcomeView| o.status is Applied,
        ).len(),
        count_status(list, RepairStatus::Skipped) == list.filter(
            |o: OutcomeView| o.status is Skipped,
        ).len(),
        count_status(list, RepairStatus::Failed) == list.filter(
            |o: OutcomeView| o.status is Failed,
        ).len(),
    decreases list.len(),
{
    reveal(Seq::filter);
    if list.len() > 0 {
        lemma_status_counted(list.drop_last());
    }
}

/// The text of a summary shows every outcome behind those before it: its status and
/// action, its block and path where it has them, and its detail.
pub proof fn lemma_outcome_shown(list: Seq<OutcomeView>, o: OutcomeView)
    ensures
        outcome_texts(Seq::empty()) == Seq::<char>::empty(),
        outcome_texts(list.push(o)) == outcome_texts(list) + (o.status.label() + " "@ + o.action + (
        match o.block {
            Some(block) => " block="@ + block,
            None => Seq::empty(),
        }) + "\n"@ + (match o.path {
            Some(path) => "    path: "@ + path + "\n"@,
            None => Seq::empty(),
        }) + "    "@ + o.detail + "\n"@),
{
    assert(list.push(o).drop_last() =~= list);
}

/// A summary names its version, shows the outcomes or says that there was nothing to
/// repair, counts them, and ends in the report.
pub proof fn lemma_summary_text(s: RepairSummary)
    ensures
        s.outcomes@.len() == 0 ==> s.text() == "qss-storage fsck repair (v"@ + dec(
            s.version as nat,
        ) + ")\n\n"@ + "nothing to repair\n\n"@ + ("\n"@ + dec(s.counts.applied as nat)
            + " applied, "@ + dec(s.counts.skipped as nat) + " skipped, "@ + dec(
            s.counts.failed as nat,
        ) + " failed ("@ + dec(s.counts.total as nat) + " action(s))\n\n"@) + s.report.text(),
        s.outcomes@.len() > 0 ==> s.text() == "qss-storage fsck repair (v"@ + dec(s.version as nat)
            + ")\n\n"@ + outcome_texts(outcome_views(s.outcomes@)) + ("\n"@ + dec(
            s.counts.applied as nat,
        ) + " applied, "@ + dec(s.counts.skipped as nat) + " skipped, "@ + dec(
            s.counts.failed as nat,
        ) + " failed ("@ + dec(s.counts.total as nat) + " action(s))\n\n"@) + s.report.text(),
{
}

} // verus!
