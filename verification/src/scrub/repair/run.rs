//! A repair run: which round of actions is applied, what is wanted next, and
//! what is said at the end.

use vstd::prelude::*;

use super::laws::lemma_plan_allowed;
use super::plan::{
    orphans_in, orphans_refused, plan_orphan_parts, plan_teardowns, reap_plan, reap_skips,
    teardown_plan, teardown_skips,
};
use super::plan_blocks::{block_plan, corrupt_skips, counts_held_back, plan_repairs};
use super::summary::{
    add_outcome, counts_outcomes, outcome_views, OutcomeView, RepairOutcome, RepairStatus,
    RepairSummary,
};
use super::unfinished::{flag_unfinished, judged};
use super::{
    action_views, ended, ActionResult, ActionView, RepairAction, RepairError, REPAIR_VERSION,
};
use crate::metastore::errors::MetaError;
use crate::metastore::traits::{listing, tree_of, Store, TransactionBackend};
use crate::scrub::engine::{expected_map, ScrubError, Sightings};
use crate::scrub::findings::finding_views;
use crate::scrub::id_map::{key_order, lists_keys};
use crate::scrub::passes::buckets::{bucket_names_refused, stranded};
use crate::scrub::passes::multipart::uploads_in;
use crate::scrub::report::{Pass, Report};
use crate::scrub::trees::{lists_sorted, sorted};
use crate::scrub::ScrubContext;

verus! {

/// A round of actions. Each is planned against the store that the one before it
/// left behind: the first two remove holders, so that every count in the third
/// is taken after they are done, never before.
#[derive(Debug, Clone, Copy, PartialEq, Eq, Structural)]
pub enum Round {
    /// Half-deleted buckets.
    Teardowns,
    /// Part records no upload record owns.
    Parts,
    /// Records and files.
    Blocks,
}

/// A repair run under way.
#[derive(Debug)]
pub struct RepairRun {
    /// The round being applied.
    pub round: Round,
    /// Its actions, in application order.
    pub actions: Vec<RepairAction>,
    /// The action to apply next.
    pub next: usize,
    /// What was said so far.
    pub outcomes: Vec<RepairOutcome>,
}

/// What a repair run waits for.
#[derive(Debug)]
pub enum Wants<'a> {
    /// That this action is applied.
    Apply(&'a RepairAction),
    /// A fresh look at the store's records and files.
    Look,
    /// The report of the passes over the repaired store.
    Check,
}

/// What a repair run states.
#[verifier::ext_equal]
pub ghost struct RunView {
    pub round: Round,
    pub actions: Seq<ActionView>,
    pub next: nat,
    pub outcomes: Seq<OutcomeView>,
}

impl View for RepairRun {
    type V = RunView;

    open spec fn view(&self) -> RunView {
        RunView {
            round: self.round,
            actions: action_views(self.actions@),
            next: self.next as nat,
            outcomes: outcome_views(self.outcomes@),
        }
    }
}

impl RunView {
    /// Whether the round has no action left.
    pub open spec fn done(self) -> bool {
        self.next == self.actions.len()
    }

    /// Whether this is a state that a run can wait in.
    pub open spec fn wf(self) -> bool {
        &&& self.next <= self.actions.len()
        &&& self.round is Teardowns ==> !self.done()
    }

    /// The run after its next action ended in some way.
    pub open spec fn noted(
        self,
        extra: Seq<OutcomeView>,
        end: (RepairStatus, Seq<char>),
    ) -> RunView {
        RunView {
            next: self.next + 1,
            outcomes: self.outcomes + extra + seq![
                self.actions[self.next as int].outcome(end.0, end.1),
            ],
            ..self
        }
    }

    /// The run with the orphan parts planned, once the teardowns are done.
    pub open spec fn settled<N: Store, B: Store>(
        self,
        ctx: ScrubContext<'_, N, B>,
        report: Report,
    ) -> RunView {
        let passes = report.passes_run@;
        if !(self.round is Teardowns && self.done()) {
            self
        } else if passes.contains(Pass::MultipartReport) {
            let orphans = orphans_in(ctx.part_rows(), uploads_in(ctx.upload_rows())->Ok_0);
            RunView {
                round: Round::Parts,
                actions: reap_plan(orphans, passes),
                next: 0,
                outcomes: self.outcomes + reap_skips(orphans, passes),
            }
        } else {
            RunView { round: Round::Parts, actions: Seq::empty(), next: 0, outcomes: self.outcomes }
        }
    }

    /// Whether the orphan parts, where they are planned now, come from listings.
    pub open spec fn settled_over<N: Store, B: Store>(
        self,
        ctx: ScrubContext<'_, N, B>,
        report: Report,
    ) -> bool {
        self.round is Teardowns && self.done() && report.passes_run@.contains(
            Pass::MultipartReport,
        ) ==> ctx.uploads_listed()
    }

    /// Whether the orphan parts could not be told from live ones.
    pub open spec fn unsettled<N: Store, B: Store>(
        self,
        ctx: ScrubContext<'_, N, B>,
        report: Report,
        e: MetaError,
    ) -> bool {
        &&& self.round is Teardowns
        &&& self.done()
        &&& report.passes_run@.contains(Pass::MultipartReport)
        &&& ctx.shared.meta.store.healthy() ==> orphans_refused(ctx, e)
    }

    /// The run with the repair of records and files planned, given the outcomes
    /// of the rounds before.
    pub open spec fn looked<N: Store, B: Store>(
        self,
        ctx: ScrubContext<'_, N, B>,
        report: Report,
        seen: Sightings,
    ) -> RunView {
        let findings = finding_views(report.findings@);
        let root = ctx.shared.blocks_root@;
        let said = self.outcomes + corrupt_skips(findings, seen.disk@.files);
        if report.passes_run@.contains(Pass::Recount) {
            RunView {
                round: Round::Blocks,
                actions: block_plan(
                    findings,
                    seen,
                    root,
                    Some(expected_map(ctx.holders()->Ok_0)),
                ),
                next: 0,
                outcomes: said,
            }
        } else {
            RunView {
                round: Round::Blocks,
                actions: block_plan(findings, seen, root, None),
                next: 0,
                outcomes: said + seq![counts_held_back()],
            }
        }
    }
}

/// The first round of a repair.
pub open spec fn first_round<N: Store, B: Store>(
    ctx: ScrubContext<'_, N, B>,
    report: Report,
) -> RunView {
    let trees = sorted(stranded(ctx.namespace.store.names(), ctx.namespace.store.committed()));
    RunView {
        round: Round::Teardowns,
        actions: teardown_plan(trees, report.passes_run@),
        next: 0,
        outcomes: teardown_skips(trees, report.passes_run@),
    }
}

/// Starts applying what a report found.
///
/// Resuming a half-deleted bucket's teardown removes object records and reaping
/// an orphan part removes a part record, so those come in rounds of their own. A
/// recount planned beside them would set each count to one that still included
/// the holder about to go.
pub fn repair<N: Store, B: Store>(ctx: &ScrubContext<'_, N, B>, report: &Report) -> (out: Result<
    RepairRun,
    RepairError,
>)
    ensures
        match out {
            Ok(run) => {
                let trees = stranded(
                    ctx.namespace.store.names(),
                    ctx.namespace.store.committed(),
                );
                &&& run@.wf()
                &&& run@ == first_round(*ctx, *report).settled(*ctx, *report)
                &&& first_round(*ctx, *report).settled_over(*ctx, *report)
                &&& report.passes_run@.contains(Pass::BucketIntegrity) ==> lists_sorted(
                    sorted(trees),
                    trees,
                )
            },
            Err(RepairError::Store(e)) => {
                ||| {
                    &&& report.passes_run@.contains(Pass::BucketIntegrity)
                    &&& ctx.namespace.store.healthy() ==> bucket_names_refused(
                        *ctx.namespace,
                        e,
                    )
                }
                ||| first_round(*ctx, *report).unsettled(*ctx, *report, e)
            },
            Err(_) => false,
        },
{
    let mut outcomes: Vec<RepairOutcome> = Vec::new();
    proof {
        assert(outcome_views(outcomes@) =~= Seq::<OutcomeView>::empty());
    }
    let actions = match plan_teardowns(ctx.namespace(), report, &mut outcomes) {
        Ok(actions) => actions,
        Err(e) => {
            return Err(e);
        },
    };
    let run = RepairRun { round: Round::Teardowns, actions, next: 0, outcomes };
    proof {
        assert(run@ =~= first_round(*ctx, *report));
    }
    run.settle(ctx, report)
}

impl RepairRun {
    /// What the run waits for.
    pub fn wants(&self) -> (wants: Wants<'_>)
        requires
            self@.wf(),
        ensures
            match wants {
                Wants::Apply(action) => !self@.done() && action@ == self@.actions[self@.next as int],
                Wants::Look => self@.done() && self.round is Parts,
                Wants::Check => self@.done() && self.round is Blocks,
            },
    {
        if self.next < self.actions.len() {
            return Wants::Apply(&self.actions[self.next]);
        }
        match self.round {
            Round::Blocks => Wants::Check,
            _ => Wants::Look,
        }
    }

    /// Plans the orphan parts, once the teardowns are done.
    fn settle<N: Store, B: Store>(self, ctx: &ScrubContext<'_, N, B>, report: &Report) -> (out:
        Result<RepairRun, RepairError>)
        requires
            self@.next <= self@.actions.len(),
        ensures
            match out {
                Ok(run) => run@.wf() && run@ == self@.settled(*ctx, *report) && self@.settled_over(
                    *ctx,
                    *report,
                ),
                Err(RepairError::Store(e)) => self@.unsettled(*ctx, *report, e),
                Err(_) => false,
            },
    {
        match self.round {
            Round::Teardowns => {},
            _ => {
                return Ok(self);
            },
        }
        if self.next < self.actions.len() {
            return Ok(self);
        }
        let mut outcomes = self.outcomes;
        match plan_orphan_parts(ctx, report, &mut outcomes) {
            Ok(actions) => {
                let run = RepairRun { round: Round::Parts, actions, next: 0, outcomes };
                proof {
                    assert(run@ =~= self@.settled(*ctx, *report));
                }
                Ok(run)
            },
            Err(e) => Err(e),
        }
    }

    /// Goes on once the next action was applied: with what it said of single
    /// objects, and how it ended. A failed action is an outcome, not an error.
    pub fn applied<N: Store, B: Store>(
        self,
        ctx: &ScrubContext<'_, N, B>,
        report: &Report,
        extra: Vec<RepairOutcome>,
        result: ActionResult,
    ) -> (out: Result<RepairRun, RepairError>)
        requires
            self@.wf(),
            !self@.done(),
        ensures
            ({
                let noted = self@.noted(outcome_views(extra@), ended(result));
                match out {
                    Ok(run) => run@.wf() && run@ == noted.settled(*ctx, *report)
                        && noted.settled_over(*ctx, *report),
                    Err(RepairError::Store(e)) => noted.unsettled(*ctx, *report, e),
                    Err(_) => false,
                }
            }),
    {
        let ghost noted = self@.noted(outcome_views(extra@), ended(result));
        proof {
            assert(self.next < self.actions.len());
        }
        let outcome = self.actions[self.next].outcome(result);
        let mut outcomes = self.outcomes;
        let mut extra = extra;
        let ghost said = outcome_views(extra@);
        outcomes.append(&mut extra);
        proof {
            assert(outcome_views(outcomes@) =~= self@.outcomes + said);
        }
        add_outcome(&mut outcomes, outcome);
        let run = RepairRun {
            round: self.round,
            actions: self.actions,
            next: self.next + 1,
            outcomes,
        };
        proof {
            assert(run@ =~= noted);
        }
        run.settle(ctx, report)
    }

    /// Goes on with a fresh look at the store that the first two rounds left
    /// behind.
    pub fn looked<N: Store, B: Store>(
        self,
        ctx: &ScrubContext<'_, N, B>,
        report: &Report,
        seen: &Sightings,
    ) -> (out: Result<RepairRun, RepairError>)
        requires
            self.round is Parts,
            self@.done(),
        ensures
            match out {
                Ok(run) => {
                    &&& run@.wf()
                    &&& run@ == self@.looked(*ctx, *report, *seen)
                    &&& report.passes_run@.contains(Pass::Recount) ==> ctx.holders() is Ok
                        && ctx.listed()
                    &&& lists_keys(key_order(seen.records.records@), seen.records.records@)
                },
                Err(RepairError::Holders(e)) => report.passes_run@.contains(Pass::Recount)
                    && ctx.refused(e),
                Err(_) => false,
            },
    {
        let mut outcomes = self.outcomes;
        match plan_repairs(ctx, report, seen, &mut outcomes) {
            Ok(actions) => {
                let run = RepairRun { round: Round::Blocks, actions, next: 0, outcomes };
                proof {
                    assert(run@ =~= self@.looked(*ctx, *report, *seen));
                }
                Ok(run)
            },
            Err(e) => Err(e),
        }
    }

    /// Ends the run with the report of the passes over the repaired store:
    /// anything they still find that a repair claims to fix means an action did
    /// not take.
    pub fn checked(self, post: Result<Report, ScrubError>) -> (out: Result<
        RepairSummary,
        RepairError,
    >)
        requires
            self.round is Blocks,
            self@.done(),
        ensures
            match (out, post) {
                (Ok(summary), Ok(post)) => {
                    &&& summary.version == REPAIR_VERSION
                    &&& summary.outcomes == self.outcomes
                    &&& counts_outcomes(summary.counts, self@.outcomes)
                    &&& judged(post, summary.report)
                },
                (Err(RepairError::Scrub(e)), Err(why)) => e == why,
                (_, _) => false,
            },
    {
        match post {
            Ok(post) => Ok(RepairSummary::new(self.outcomes, flag_unfinished(post))),
            Err(e) => Err(RepairError::Scrub(e)),
        }
    }
}

/// Whether a round before the last one only removes holders.
pub open spec fn removes_holders(run: RunView) -> bool {
    run.round is Blocks || forall|i: int|
        0 <= i < run.actions.len() ==> (#[trigger] run.actions[i]) is ResumeBucketTeardown
            || run.actions[i] is ReapOrphanPart
}

/// Counts are set only after every holder that is to go is gone: a repair starts
/// with removing holders, and goes on so until it waits for a look at the
/// records.
pub proof fn lemma_holders_first<N: Store, B: Store>(
    run: RunView,
    ctx: ScrubContext<'_, N, B>,
    report: Report,
    extra: Seq<OutcomeView>,
    end: (RepairStatus, Seq<char>),
)
    ensures
        removes_holders(first_round(ctx, report)),
        removes_holders(run) ==> removes_holders(run.noted(extra, end)),
        removes_holders(run) ==> removes_holders(run.settled(ctx, report)),
        run.settled(ctx, report).round is Blocks ==> run.round is Blocks,
{
    let orphans = orphans_in(ctx.part_rows(), uploads_in(ctx.upload_rows())->Ok_0);
    let reaps = reap_plan(orphans, report.passes_run@);
    assert forall|i: int| 0 <= i < reaps.len() implies (#[trigger] reaps[i]) is ReapOrphanPart by {}
}

/// Whether no action of a round can move a count.
pub open spec fn moves_no_count(run: RunView) -> bool {
    forall|i: int| 0 <= i < run.actions.len() ==> !(#[trigger] run.actions[i]).moves_count()
}

/// A report without a recount authorises no action that moves a count: none in
/// either direction, by a teardown, a reap or a recount, in any round.
pub proof fn lemma_unclosed_moves_none<N: Store, B: Store>(
    run: RunView,
    ctx: ScrubContext<'_, N, B>,
    report: Report,
    seen: Sightings,
)
    requires
        !report.passes_run@.contains(Pass::Recount),
        lists_keys(key_order(seen.records.records@), seen.records.records@),
    ensures
        moves_no_count(first_round(ctx, report)),
        moves_no_count(run) ==> moves_no_count(run.settled(ctx, report)),
        moves_no_count(run.looked(ctx, report, seen)),
{
    let findings = finding_views(report.findings@);
    let root = ctx.shared.blocks_root@;
    let plan = block_plan(findings, seen, root, None);
    assert forall|i: int| 0 <= i < plan.len() implies !(#[trigger] plan[i]).moves_count() by {
        lemma_plan_allowed(findings, seen, root, None, i);
    }
}

/// Nothing that a repair said is taken back: each outcome stays where it is.
pub proof fn lemma_outcomes_kept<N: Store, B: Store>(
    run: RunView,
    ctx: ScrubContext<'_, N, B>,
    report: Report,
    seen: Sightings,
    extra: Seq<OutcomeView>,
    end: (RepairStatus, Seq<char>),
)
    ensures
        run.outcomes.is_prefix_of(run.noted(extra, end).outcomes),
        run.outcomes.is_prefix_of(run.settled(ctx, report).outcomes),
        run.outcomes.is_prefix_of(run.looked(ctx, report, seen).outcomes),
{
}

/// The last round is planned from the findings of the report and from the fresh look:
/// with the counts that the holders give where the recount ran, and without any, and
/// said so, where it did not. What is said of corrupt files that are gone comes
/// behind what was said before.
pub proof fn lemma_last_round<N: Store, B: Store>(
    run: RunView,
    ctx: ScrubContext<'_, N, B>,
    report: Report,
    seen: Sightings,
)
    ensures
        ({
            let findings = finding_views(report.findings@);
            let now = run.looked(ctx, report, seen);
            let skips = corrupt_skips(findings, seen.disk@.files);
            let root = ctx.shared.blocks_root@;
            &&& now.round is Blocks
            &&& now.next == 0
            &&& report.passes_run@.contains(Pass::Recount) ==> now.outcomes == run.outcomes + skips
                && now.actions == block_plan(
                findings,
                seen,
                root,
                Some(expected_map(ctx.holders()->Ok_0)),
            )
            &&& !report.passes_run@.contains(Pass::Recount) ==> {
                &&& now.actions == block_plan(findings, seen, root, None)
                &&& now.outcomes.len() == run.outcomes.len() + skips.len() + 1
                &&& now.outcomes.last().status is Skipped
                &&& now.outcomes.last().action == "set_rc"@
                &&& (run.outcomes + skips).is_prefix_of(now.outcomes)
            }
        }),
{
}

/// A finished action moves a run on by one, and adds what it says of single objects
/// and then its own outcome; the round and its actions stay.
pub proof fn lemma_action_noted(
    run: RunView,
    extra: Seq<OutcomeView>,
    end: (RepairStatus, Seq<char>),
)
    requires
        run.next < run.actions.len(),
    ensures
        ({
            let now = run.noted(extra, end);
            let action = run.actions[run.next as int];
            &&& now.round == run.round
            &&& now.actions == run.actions
            &&& now.next == run.next + 1
            &&& now.outcomes == run.outcomes + extra + seq![now.outcomes.last()]
            &&& now.outcomes.last().action == action.name()
            &&& now.outcomes.last().status == end.0
            &&& now.outcomes.last().detail == end.1
            &&& now.outcomes.last().severity is Critical <==> end.0 is Failed
        }),
{
}

/// A repair starts with one teardown for each stranded tree, in the order of their
/// names, where the recount and the bucket pass ran, and with none otherwise.
pub proof fn lemma_first_round<N: Store, B: Store>(ctx: ScrubContext<'_, N, B>, report: Report)
    ensures
        ({
            let trees = sorted(
                stranded(ctx.namespace.store.names(), ctx.namespace.store.committed()),
            );
            let passes = report.passes_run@;
            let run = first_round(ctx, report);
            &&& run.round is Teardowns
            &&& run.next == 0
            &&& if passes.contains(Pass::Recount) && passes.contains(Pass::BucketIntegrity) {
                &&& run.outcomes.len() == 0
                &&& run.actions.len() == trees.len()
                &&& forall|i: int|
                    0 <= i < trees.len() ==> #[trigger] run.actions[i]
                        == ActionView::ResumeBucketTeardown(trees[i])
            } else {
                run.actions.len() == 0
            }
        }),
{
}

/// Once every teardown is done, and not before, a repair goes on with the orphan
/// parts of the store as it is then: one reaping for each, by what its record names
/// and the key it is filed under, where the recount and the report on uploads ran.
pub proof fn lemma_second_round<N: Store, B: Store>(
    run: RunView,
    ctx: ScrubContext<'_, N, B>,
    report: Report,
)
    ensures
        ({
            let blocks = ctx.shared.meta.store.committed();
            let orphans = orphans_in(
                listing(tree_of(blocks, "_MULTIPART_PARTS"@)),
                uploads_in(listing(tree_of(blocks, "_UPLOADS"@)))->Ok_0,
            );
            let passes = report.passes_run@;
            let now = run.settled(ctx, report);
            if run.round is Teardowns && run.next == run.actions.len() {
                &&& now.round is Parts
                &&& now.next == 0
                &&& run.outcomes.is_prefix_of(now.outcomes)
                &&& if passes.contains(Pass::Recount) && passes.contains(Pass::MultipartReport) {
                    &&& now.outcomes == run.outcomes
                    &&& now.actions.len() == orphans.len()
                    &&& forall|i: int|
                        0 <= i < orphans.len() ==> #[trigger] now.actions[i]
                            == ActionView::ReapOrphanPart(
                            orphans[i].1.bucket,
                            orphans[i].1.key,
                            orphans[i].1.upload_id,
                            orphans[i].1.part_number,
                            orphans[i].0,
                        )
                } else {
                    now.actions.len() == 0
                }
            } else {
                now == run
            }
        }),
{
    let none = Seq::<OutcomeView>::empty();
    assert(run.outcomes + none =~= run.outcomes);
}

} // verus!
