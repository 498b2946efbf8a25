//! What to do about block records and block files, in application order.

use vstd::prelude::*;
use vstd::relations::{sorted_by, total_ordering};
use vstd::seq_lib::lemma_sorted_unique;
use vstd::string::*;

use super::plan::held_back;
use super::summary::{add_outcome, outcome_views, OutcomeView, RepairOutcome, RepairStatus};
use super::{
    action_views, add_action, add_actions, candidate_views, ActionView, RepairAction, RepairError,
};
use crate::metastore::block::{block_disk_path, block_path, Block, BlockId};
use crate::metastore::traits::Store;
use crate::scrub::disk::{DiskWalk, FileView, ForeignView};
use crate::scrub::engine::{expected_map, lemma_counts_expected, Sightings};
use crate::scrub::findings::{finding_views, FindingClass, FindingView, Severity};
use crate::scrub::holders::{expected_counts, ExpectedCounts};
use crate::scrub::id_map::{key_order, lists_keys};
use crate::scrub::passes::dangling::{elsewhere, find_elsewhere, present_at};
use crate::scrub::passes::disk_sweep::{seen_at, sees};
use crate::scrub::records::RecordWalk;
use crate::scrub::report::{Pass, Report};
use crate::scrub::trees::lemma_prefix;
use crate::scrub::ScrubContext;
use crate::text::{equal_text, hex};

verus! {

/// The order of depths.
pub open spec fn depth_leq() -> spec_fn(u8, u8) -> bool {
    |a: u8, b: u8| a <= b
}

/// Depths, shallowest first.
pub open spec fn shallow_first(depths: Seq<u8>) -> Seq<u8> {
    depths.sort_by(depth_leq())
}

proof fn lemma_shallow_first(before: Seq<u8>, after: Seq<u8>)
    requires
        before.to_multiset() == after.to_multiset(),
        forall|i: int, j: int| 0 <= i < j < after.len() ==> #[trigger] after[i] <= #[trigger] after[j],
    ensures
        after == shallow_first(before),
{
    let leq = depth_leq();
    assert(total_ordering(leq));
    before.lemma_sort_by_ensures(leq);
    assert(sorted_by(after, leq));
    lemma_sorted_unique(after, shallow_first(before), leq);
}

/// Puts depths in order, shallowest first.
fn sort_depths(depths: Vec<u8>) -> (out: Vec<u8>)
    ensures
        out@ == shallow_first(depths@),
{
    let mut out: Vec<u8> = Vec::new();
    let mut i: usize = 0;
    proof {
        assert(depths@.subrange(0, 0) =~= out@);
    }
    while i < depths.len()
        invariant
            i <= depths@.len(),
            out@.to_multiset() == depths@.subrange(0, i as int).to_multiset(),
            forall|a: int, b: int| 0 <= a < b < out@.len() ==> #[trigger] out@[a] <= #[trigger] out@[b],
        decreases depths@.len() - i,
    {
        let depth: u8 = depths[i];
        let mut at: usize = 0;
        while at < out.len() && out[at] <= depth
            invariant
                at <= out@.len(),
                forall|a: int| 0 <= a < at ==> #[trigger] out@[a] <= depth,
            decreases out@.len() - at,
        {
            at = at + 1;
        }
        let ghost before = out@;
        out.insert(at, depth);
        proof {
            assert forall|a: int, b: int| 0 <= a < b < out@.len() implies #[trigger] out@[a]
                <= #[trigger] out@[b] by {
                let x = if a < at { a } else { a - 1 };
                let y = if b < at { b } else { b - 1 };
                if a != at && b != at {
                    assert(before[x] <= before[y]);
                } else if a == at {
                    assert(before[at as int] <= before[y]);
                }
            }
            let longer = depths@.subrange(0, i + 1);
            lemma_prefix(depths@, i as int);
            assert(longer =~= depths@.subrange(0, i as int).push(depth));
            depths@.subrange(0, i as int).to_multiset_ensures();
            out@.to_multiset_ensures();
            assert(out@.remove(at as int) =~= before);
            assert(out@.contains(out@[at as int]));
            assert(out@.to_multiset() =~= before.to_multiset().insert(depth));
        }
        i = i + 1;
    }
    proof {
        assert(depths@.subrange(0, depths@.len() as int) =~= depths@);
        lemma_shallow_first(depths@, out@);
    }
    out
}

/// The file that a block and a path name.
pub open spec fn find_file(files: Seq<FileView>, block: Seq<char>, path: Seq<char>) -> Option<
    FileView,
>
    decreases files.len(),
{
    if files.len() == 0 {
        None
    } else {
        match find_file(files.drop_last(), block, path) {
            Some(file) => Some(file),
            None => if hex(files.last().id) == block && files.last().path == path {
                Some(files.last())
            } else {
                None
            },
        }
    }
}

/// What is planned for the corrupt files that a report names.
pub open spec fn corrupt_plan(findings: Seq<FindingView>, files: Seq<FileView>) -> Seq<ActionView>
    decreases findings.len(),
{
    if findings.len() == 0 {
        Seq::empty()
    } else {
        let init = corrupt_plan(findings.drop_last(), files);
        let f = findings.last();
        if f.class is CorruptBlock && f.block is Some && f.path is Some {
            match find_file(files, f.block->Some_0, f.path->Some_0) {
                Some(file) => init.push(ActionView::QuarantineCorrupt(file.id, file.path)),
                None => init,
            }
        } else {
            init
        }
    }
}

/// What is said of corrupt files that a report names and that are gone.
pub open spec fn corrupt_skips(findings: Seq<FindingView>, files: Seq<FileView>) -> Seq<
    OutcomeView,
>
    decreases findings.len(),
{
    if findings.len() == 0 {
        Seq::empty()
    } else {
        let init = corrupt_skips(findings.drop_last(), files);
        let f = findings.last();
        if f.class is CorruptBlock && f.block is Some && f.path is Some && find_file(
            files,
            f.block->Some_0,
            f.path->Some_0,
        ) is None {
            init.push(
                OutcomeView::new(
                    "quarantine_corrupt"@,
                    RepairStatus::Skipped,
                    "the report named a corrupt file at "@ + f.path->Some_0
                        + ", which is no longer there"@,
                ),
            )
        } else {
            init
        }
    }
}

/// The index of the file that a block and a path name.
fn position_of(disk: &DiskWalk, block: &str, path: &str) -> (at: Option<usize>)
    ensures
        match at {
            Some(at) => at < disk.files@.len() && find_file(disk@.files, block@, path@) == Some(
                disk.files@[at as int]@,
            ),
            None => find_file(disk@.files, block@, path@) is None,
        },
{
    let ghost files = disk@.files;
    let mut i: usize = 0;
    proof {
        assert(files.subrange(0, 0) =~= Seq::<FileView>::empty());
    }
    while i < disk.files.len()
        invariant
            i <= disk.files@.len(),
            files == disk@.files,
            find_file(files.subrange(0, i as int), block@, path@) is None,
        decreases disk.files@.len() - i,
    {
        proof {
            lemma_prefix(files, i as int);
            assert(files[i as int] == disk.files@[i as int]@);
        }
        if equal_text(&disk.files[i].id.to_hex(), block) && equal_text(&disk.files[i].path, path) {
            proof {
                lemma_found(files, i + 1, block@, path@);
            }
            return Some(i);
        }
        i = i + 1;
    }
    proof {
        assert(files.subrange(0, files.len() as int) =~= files);
    }
    None
}

proof fn lemma_found(files: Seq<FileView>, n: int, block: Seq<char>, path: Seq<char>)
    requires
        0 <= n <= files.len(),
        find_file(files.subrange(0, n), block, path) is Some,
    ensures
        find_file(files, block, path) == find_file(files.subrange(0, n), block, path),
    decreases files.len() - n,
{
    if n == files.len() {
        assert(files.subrange(0, n) =~= files);
    } else {
        lemma_prefix(files, n);
        lemma_found(files, n + 1, block, path);
    }
}

/// The corrupt files the report named, resolved back to the files the walk saw.
/// One that the walk no longer shows is reported skipped rather than guessed at.
pub fn plan_corrupt(report: &Report, disk: &DiskWalk, outcomes: &mut Vec<RepairOutcome>) -> (
    actions: Vec<RepairAction>)
    ensures
        action_views(actions@) == corrupt_plan(finding_views(report.findings@), disk@.files),
        outcome_views(final(outcomes)@) == outcome_views(old(outcomes)@) + corrupt_skips(
            finding_views(report.findings@),
            disk@.files,
        ),
{
    let ghost files = disk@.files;
    let ghost all = finding_views(report.findings@);
    let ghost said = outcome_views(outcomes@);
    let mut actions: Vec<RepairAction> = Vec::new();
    let mut i: usize = 0;
    proof {
        assert(all.subrange(0, 0) =~= Seq::<FindingView>::empty());
        assert(action_views(actions@) =~= Seq::<ActionView>::empty());
        assert(said + Seq::<OutcomeView>::empty() =~= said);
    }
    while i < report.findings.len()
        invariant
            i <= report.findings@.len(),
            files == disk@.files,
            all == finding_views(report.findings@),
            said == outcome_views(old(outcomes)@),
            action_views(actions@) == corrupt_plan(all.subrange(0, i as int), files),
            outcome_views(outcomes@) == said + corrupt_skips(all.subrange(0, i as int), files),
        decreases report.findings@.len() - i,
    {
        let finding = &report.findings[i];
        proof {
            lemma_prefix(all, i as int);
            assert(all[i as int] == finding@);
        }
        if finding.class == FindingClass::CorruptBlock {
            match (&finding.block, &finding.path) {
                (Some(block), Some(path)) => match position_of(disk, block, path) {
                    Some(at) => {
                        let file = &disk.files[at];
                        add_action(
                            &mut actions,
                            RepairAction::QuarantineCorrupt {
                                block: file.id,
                                path: file.path.as_str().to_owned(),
                            },
                        );
                    },
                    None => {
                        let mut text = "the report named a corrupt file at ".to_owned();
                        text.append(path);
                        text.append(", which is no longer there");
                        let outcome = RepairOutcome::new(
                            "quarantine_corrupt",
                            RepairStatus::Skipped,
                            text,
                        );
                        let ghost before = corrupt_skips(all.subrange(0, i as int), files);
                        add_outcome(outcomes, outcome);
                        proof {
                            assert((said + before).push(outcome@) =~= said + before.push(outcome@));
                        }
                    },
                },
                _ => {},
            }
        }
        i = i + 1;
    }
    proof {
        assert(all.subrange(0, all.len() as int) =~= all);
    }
    actions
}

/// What is planned for a record whose file is not where it says: adopting a copy
/// at another depth, or, where there is none, flagging the record.
pub open spec fn placement(
    id: Seq<u8>,
    block: Block,
    present: bool,
    files: Seq<FileView>,
    root: Seq<char>,
) -> Option<ActionView> {
    let depths = shallow_first(elsewhere(files, id, block.depth));
    if block.degraded() || present {
        None
    } else if depths.len() == 0 {
        Some(ActionView::MarkDegraded(id))
    } else {
        Some(
            ActionView::AdoptOrphan(
                id,
                block.depth,
                depths.map_values(|d: u8| (d, block_path(id, d as nat, root))),
            ),
        )
    }
}

/// The adoptions among what is planned for records, in order.
pub open spec fn adoption_plan(
    ids: Seq<Seq<u8>>,
    records: Map<Seq<u8>, Block>,
    present: Seq<bool>,
    files: Seq<FileView>,
    root: Seq<char>,
) -> Seq<ActionView>
    decreases ids.len(),
{
    if ids.len() == 0 {
        Seq::empty()
    } else {
        let init = adoption_plan(ids.drop_last(), records, present, files, root);
        let here = present_at(present, ids.len() - 1);
        match placement(ids.last(), records[ids.last()], here, files, root) {
            Some(action) => if action is AdoptOrphan {
                init.push(action)
            } else {
                init
            },
            None => init,
        }
    }
}

/// The flaggings among what is planned for records, in order.
pub open spec fn degrade_plan(
    ids: Seq<Seq<u8>>,
    records: Map<Seq<u8>, Block>,
    present: Seq<bool>,
    files: Seq<FileView>,
    root: Seq<char>,
) -> Seq<ActionView>
    decreases ids.len(),
{
    if ids.len() == 0 {
        Seq::empty()
    } else {
        let init = degrade_plan(ids.drop_last(), records, present, files, root);
        let here = present_at(present, ids.len() - 1);
        match placement(ids.last(), records[ids.last()], here, files, root) {
            Some(action) => if action is MarkDegraded {
                init.push(action)
            } else {
                init
            },
            None => init,
        }
    }
}

/// How often a block is referenced.
pub open spec fn expected_of(expected: Map<Seq<u8>, u64>, id: Seq<u8>) -> u64 {
    if expected.contains_key(id) {
        expected[id]
    } else {
        0
    }
}

/// The counts to set, in order: each record whose count is not what the holders
/// reference.
pub open spec fn count_plan(
    ids: Seq<Seq<u8>>,
    records: Map<Seq<u8>, Block>,
    expected: Map<Seq<u8>, u64>,
) -> Seq<ActionView>
    decreases ids.len(),
{
    if ids.len() == 0 {
        Seq::empty()
    } else {
        let init = count_plan(ids.drop_last(), records, expected);
        let id = ids.last();
        let rc = records[id].rc as u64;
        if rc != expected_of(expected, id) {
            init.push(ActionView::SetRc(id, rc, expected_of(expected, id)))
        } else {
            init
        }
    }
}

/// What is planned for a block file: deleting it where nothing can reference it.
pub open spec fn file_action(
    file: FileView,
    files: Seq<FileView>,
    records: Map<Seq<u8>, Block>,
) -> Option<ActionView> {
    if !records.contains_key(file.id) {
        Some(ActionView::DeleteOrphan(file.id, file.path))
    } else if records[file.id].depth != file.depth && seen_at(
        files,
        file.id,
        records[file.id].depth,
    ) {
        Some(ActionView::DeleteOffDepth(file.id, file.path))
    } else {
        None
    }
}

/// What is planned for block files, in order.
pub open spec fn file_plan(
    list: Seq<FileView>,
    files: Seq<FileView>,
    records: Map<Seq<u8>, Block>,
) -> Seq<ActionView>
    decreases list.len(),
{
    if list.len() == 0 {
        Seq::empty()
    } else {
        let init = file_plan(list.drop_last(), files, records);
        match file_action(list.last(), files, records) {
            Some(action) => init.push(action),
            None => init,
        }
    }
}

/// What is planned for foreign files.
pub open spec fn foreign_plan(foreign: Seq<ForeignView>) -> Seq<ActionView> {
    foreign.map_values(|f: ForeignView| ActionView::QuarantineForeign(f.path))
}

/// Everything planned for records and files, in application order. Where the
/// recount did not run there is no count to set: `expected` is nothing.
pub open spec fn block_plan(
    findings: Seq<FindingView>,
    seen: Sightings,
    root: Seq<char>,
    expected: Option<Map<Seq<u8>, u64>>,
) -> Seq<ActionView> {
    let records = seen.records.records@;
    let ids = key_order(records);
    let files = seen.disk@.files;
    corrupt_plan(findings, files) + adoption_plan(ids, records, seen.present@, files, root) + (
    match expected {
        Some(expected) => count_plan(ids, records, expected),
        None => Seq::empty(),
    }) + degrade_plan(ids, records, seen.present@, files, root) + file_plan(files, files, records)
        + foreign_plan(seen.disk@.foreign)
}

/// What is said of counts that are left alone.
pub open spec fn counts_held_back() -> OutcomeView {
    held_back(
        "set_rc"@,
        "no refcount was touched: the report did not run the recount, so the holder set was not closed, and a count over a partial holder set would authorise freeing blocks that are still referenced"@,
    )
}

/// Plans for a record whose file is not where it says.
fn plan_placement(id: &BlockId, block: &Block, present: bool, disk: &DiskWalk, root: &str) -> (out:
    Option<RepairAction>)
    ensures
        match out {
            Some(action) => placement(id@, *block, present, disk@.files, root@) == Some(action@)
                && (action is AdoptOrphan <==> action@ is AdoptOrphan) && (action
                is MarkDegraded <==> action@ is MarkDegraded),
            None => placement(id@, *block, present, disk@.files, root@) is None,
        },
{
    if block.is_degraded() || present {
        return None;
    }
    let depths = sort_depths(find_elsewhere(disk, id, block.depth()));
    if depths.len() == 0 {
        return Some(RepairAction::MarkDegraded { block: *id });
    }
    let ghost want = depths@.map_values(|d: u8| (d, block_path(id@, d as nat, root@)));
    let mut candidates: Vec<(u8, String)> = Vec::new();
    let mut i: usize = 0;
    while i < depths.len()
        invariant
            i <= depths@.len(),
            want == depths@.map_values(|d: u8| (d, block_path(id@, d as nat, root@))),
            candidates@.len() == i,
            forall|j: int|
                0 <= j < i ==> want[j] == ((#[trigger] candidates@[j]).0, candidates@[j].1@),
        decreases depths@.len() - i,
    {
        candidates.push((depths[i], block_disk_path(id, depths[i], root.to_owned())));
        i = i + 1;
    }
    proof {
        assert(candidate_views(candidates@) =~= want);
    }
    Some(RepairAction::AdoptOrphan { block: *id, record_depth: block.depth(), candidates })
}

/// Plans for all records whose file is not where they say: the adoptions and the
/// flaggings, each in address order.
fn plan_placements(seen: &Sightings, root: &str) -> (out: (Vec<RepairAction>, Vec<RepairAction>))
    ensures
        ({
            let records = seen.records.records@;
            let ids = key_order(records);
            let files = seen.disk@.files;
            &&& action_views(out.0@) == adoption_plan(ids, records, seen.present@, files, root@)
            &&& action_views(out.1@) == degrade_plan(ids, records, seen.present@, files, root@)
            &&& lists_keys(ids, records)
        }),
{
    let ghost records = seen.records.records@;
    let ghost files = seen.disk@.files;
    let n: usize = seen.records.records.len();
    let ghost ids = seen.records.records.order();
    let mut adoptions: Vec<RepairAction> = Vec::new();
    let mut degradings: Vec<RepairAction> = Vec::new();
    let mut i: usize = 0;
    proof {
        assert(ids.subrange(0, 0) =~= Seq::<Seq<u8>>::empty());
        assert(action_views(adoptions@) =~= Seq::<ActionView>::empty());
        assert(action_views(degradings@) =~= Seq::<ActionView>::empty());
    }
    while i < n
        invariant
            i <= n,
            n == ids.len(),
            ids == seen.records.records.order(),
            records == seen.records.records@,
            files == seen.disk@.files,
            action_views(adoptions@) == adoption_plan(
                ids.subrange(0, i as int),
                records,
                seen.present@,
                files,
                root@,
            ),
            action_views(degradings@) == degrade_plan(
                ids.subrange(0, i as int),
                records,
                seen.present@,
                files,
                root@,
            ),
        decreases n - i,
    {
        let id = seen.records.records.key_at(i);
        let block = seen.records.records.value_at(i);
        let here = i < seen.present.len() && seen.present[i];
        proof {
            lemma_prefix(ids, i as int);
        }
        match plan_placement(&id, block, here, &seen.disk, root) {
            None => {},
            Some(action) => match action {
                RepairAction::AdoptOrphan { .. } => {
                    add_action(&mut adoptions, action);
                },
                _ => {
                    add_action(&mut degradings, action);
                },
            },
        }
        i = i + 1;
    }
    proof {
        assert(ids.subrange(0, ids.len() as int) =~= ids);
    }
    (adoptions, degradings)
}

/// The counts to set, in address order.
fn plan_counts(records: &RecordWalk, expected: &ExpectedCounts) -> (actions: Vec<RepairAction>)
    ensures
        action_views(actions@) == count_plan(
            key_order(records.records@),
            records.records@,
            expected@,
        ),
{
    let ghost blocks = records.records@;
    let n: usize = records.records.len();
    let ghost ids = records.records.order();
    let mut actions: Vec<RepairAction> = Vec::new();
    let mut i: usize = 0;
    proof {
        assert(ids.subrange(0, 0) =~= Seq::<Seq<u8>>::empty());
        assert(action_views(actions@) =~= Seq::<ActionView>::empty());
    }
    while i < n
        invariant
            i <= n,
            n == ids.len(),
            ids == records.records.order(),
            blocks == records.records@,
            action_views(actions@) == count_plan(ids.subrange(0, i as int), blocks, expected@),
        decreases n - i,
    {
        let id = records.records.key_at(i);
        let rc: u64 = records.records.value_at(i).rc() as u64;
        let holders: u64 = match expected.get(&id) {
            Some(n) => *n,
            None => 0,
        };
        proof {
            lemma_prefix(ids, i as int);
        }
        if rc != holders {
            add_action(&mut actions, RepairAction::SetRc { block: id, from: rc, to: holders });
        }
        i = i + 1;
    }
    proof {
        assert(ids.subrange(0, ids.len() as int) =~= ids);
    }
    actions
}

/// What is planned for files that nothing can reference, and for everything
/// foreign.
fn plan_files(disk: &DiskWalk, records: &RecordWalk) -> (actions: Vec<RepairAction>)
    ensures
        action_views(actions@) == file_plan(disk@.files, disk@.files, records.records@)
            + foreign_plan(disk@.foreign),
{
    let ghost files = disk@.files;
    let ghost blocks = records.records@;
    let mut actions: Vec<RepairAction> = Vec::new();
    let mut i: usize = 0;
    proof {
        assert(files.subrange(0, 0) =~= Seq::<FileView>::empty());
        assert(action_views(actions@) =~= Seq::<ActionView>::empty());
    }
    while i < disk.files.len()
        invariant
            i <= disk.files@.len(),
            files == disk@.files,
            blocks == records.records@,
            action_views(actions@) == file_plan(files.subrange(0, i as int), files, blocks),
        decreases disk.files@.len() - i,
    {
        let file = &disk.files[i];
        proof {
            lemma_prefix(files, i as int);
            assert(files[i as int] == file@);
        }
        match records.records.get(&file.id) {
            None => {
                add_action(
                    &mut actions,
                    RepairAction::DeleteOrphan {
                        block: file.id,
                        path: file.path.as_str().to_owned(),
                    },
                );
            },
            Some(block) => {
                if block.depth() != file.depth && sees(disk, &file.id, block.depth()) {
                    add_action(
                        &mut actions,
                        RepairAction::DeleteOffDepth {
                            block: file.id,
                            path: file.path.as_str().to_owned(),
                        },
                    );
                }
            },
        }
        i = i + 1;
    }
    let ghost first = action_views(actions@);
    let ghost want = foreign_plan(disk@.foreign);
    let mut j: usize = 0;
    proof {
        assert(files.subrange(0, files.len() as int) =~= files);
        assert(first + want.subrange(0, 0) =~= first);
    }
    while j < disk.foreign.len()
        invariant
            j <= disk.foreign@.len(),
            want == foreign_plan(disk@.foreign),
            action_views(actions@) == first + want.subrange(0, j as int),
        decreases disk.foreign@.len() - j,
    {
        let action = RepairAction::QuarantineForeign {
            path: disk.foreign[j].path.as_str().to_owned(),
        };
        add_action(&mut actions, action);
        proof {
            assert(disk@.foreign[j as int] == disk.foreign@[j as int]@);
            assert(want[j as int] == action@);
            assert((first + want.subrange(0, j as int)).push(action@) =~= first + want.subrange(
                0,
                j + 1,
            ));
        }
        j = j + 1;
    }
    proof {
        assert(want.subrange(0, want.len() as int) =~= want);
    }
    actions
}

/// Everything that is to be done about records and files, planned against the
/// store that the teardowns left behind, in application order.
///
/// The corruption verdicts are the report's: the store is not hashed again. All
/// else is derived from what was seen.
pub fn plan_repairs<N: Store, B: Store>(
    ctx: &ScrubContext<'_, N, B>,
    report: &Report,
    seen: &Sightings,
    outcomes: &mut Vec<RepairOutcome>,
) -> (out: Result<Vec<RepairAction>, RepairError>)
    ensures
        match out {
            Ok(actions) => if report.passes_run@.contains(Pass::Recount) {
                &&& ctx.listed()
                &&& ctx.holders() matches Ok(holders)
                &&& action_views(actions@) == block_plan(
                    finding_views(report.findings@),
                    *seen,
                    ctx.shared.blocks_root@,
                    Some(expected_map(holders)),
                )
                &&& outcome_views(final(outcomes)@) == outcome_views(old(outcomes)@)
                    + corrupt_skips(finding_views(report.findings@), seen.disk@.files)
            } else {
                &&& action_views(actions@) == block_plan(
                    finding_views(report.findings@),
                    *seen,
                    ctx.shared.blocks_root@,
                    None,
                )
                &&& outcome_views(final(outcomes)@) == outcome_views(old(outcomes)@)
                    + corrupt_skips(finding_views(report.findings@), seen.disk@.files)
                    + seq![counts_held_back()]
            },
            Err(RepairError::Holders(e)) => report.passes_run@.contains(Pass::Recount)
                && ctx.refused(e),
            Err(_) => false,
        },
        lists_keys(key_order(seen.records.records@), seen.records.records@),
{
    let root = ctx.blocks_root();
    let mut actions = plan_corrupt(report, &seen.disk, outcomes);
    let ghost said = outcome_views(outcomes@);
    let (adoptions, degradings) = plan_placements(seen, root);
    add_actions(&mut actions, adoptions);
    if report.ran(Pass::Recount) {
        let expected = match expected_counts(ctx) {
            Ok(expected) => expected,
            Err(e) => {
                return Err(RepairError::Holders(e));
            },
        };
        proof {
            lemma_counts_expected(expected@, ctx.holders()->Ok_0);
        }
        add_actions(&mut actions, plan_counts(&seen.records, &expected));
    } else {
        let outcome = RepairOutcome::new(
            "set_rc",
            RepairStatus::Skipped,
            "no refcount was touched: the report did not run the recount, so the holder set was not closed, and a count over a partial holder set would authorise freeing blocks that are still referenced".to_owned(),
        ).at(Severity::Warn);
        add_outcome(outcomes, outcome);
        proof {
            assert(said.push(outcome@) =~= said + seq![counts_held_back()]);
            assert(action_views(actions@) + Seq::<ActionView>::empty() =~= action_views(actions@));
        }
    }
    add_actions(&mut actions, degradings);
    let ghost so_far = action_views(actions@);
    add_actions(&mut actions, plan_files(&seen.disk, &seen.records));
    proof {
        let files = seen.disk@.files;
        let a = file_plan(files, files, seen.records.records@);
        let b = foreign_plan(seen.disk@.foreign);
        assert(so_far + (a + b) =~= so_far + a + b);
    }
    Ok(actions)
}

} // verus!
