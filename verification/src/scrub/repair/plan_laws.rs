//! What a repair plans, said of the records, files and findings it is planned from.

use vstd::prelude::*;

use super::plan::{orphans_in, reap_plan, teardown_plan};
use super::plan_blocks::{
    adoption_plan, block_plan, corrupt_plan, corrupt_skips, count_plan, degrade_plan, file_plan,
    find_file, foreign_plan, shallow_first,
};
use super::summary::OutcomeView;
use super::ActionView;
use crate::answers::{answers, lemma_answers_grow, lemma_item_asked, lemma_place_answered};
use crate::cas::multipart::{decode_part, PartView};
use crate::metastore::block::{block_path, Block};
use crate::scrub::disk::{FileView, ForeignView};
use crate::scrub::engine::Sightings;
use crate::scrub::findings::FindingView;
use crate::scrub::id_map::key_order;
use crate::scrub::passes::dangling::elsewhere;
use crate::scrub::passes::multipart::Triple;
use crate::scrub::report::Pass;
use crate::scrub::trees::lemma_prefix;
use crate::text::{hex, lemma_hex_injective};

verus! {

/// Whether the walk shows the file that a finding on a corrupt block names.
pub open spec fn shows_file(f: FindingView, files: Seq<FileView>) -> bool {
    exists|j: int|
        0 <= j < files.len() && f.block == Some(hex((#[trigger] files[j]).id)) && f.path == Some(
            files[j].path,
        )
}

/// The file that a block and a path name is found where there is one.
proof fn lemma_find_file(files: Seq<FileView>, block: Seq<char>, path: Seq<char>)
    ensures
        match find_file(files, block, path) {
            Some(file) => hex(file.id) == block && file.path == path && files.contains(file),
            None => forall|j: int|
                0 <= j < files.len() ==> !(hex((#[trigger] files[j]).id) == block && files[j].path
                    == path),
        },
    decreases files.len(),
{
    if files.len() > 0 {
        let init = files.drop_last();
        let last = files[files.len() - 1];
        lemma_find_file(init, block, path);
        match find_file(init, block, path) {
            Some(file) => {
                let j = choose|j: int| 0 <= j < init.len() && init[j] == file;
                assert(files[j] == file);
            },
            None => {
                if hex(last.id) == block && last.path == path {
                    assert(files[files.len() - 1] == last);
                } else {
                    assert forall|j: int| 0 <= j < files.len() implies !(hex(
                        (#[trigger] files[j]).id,
                    ) == block && files[j].path == path) by {
                        if j < init.len() {
                            assert(init[j] == files[j]);
                        }
                    }
                }
            },
        }
    }
}

proof fn lemma_shows_file(f: FindingView, files: Seq<FileView>)
    requires
        f.block is Some,
        f.path is Some,
    ensures
        shows_file(f, files) <==> find_file(files, f.block->Some_0, f.path->Some_0) is Some,
{
    lemma_find_file(files, f.block->Some_0, f.path->Some_0);
    if let Some(file) = find_file(files, f.block->Some_0, f.path->Some_0) {
        let j = choose|j: int| 0 <= j < files.len() && files[j] == file;
        assert(f.block == Some(hex(files[j].id)));
    }
    if shows_file(f, files) {
        let j = choose|j: int|
            0 <= j < files.len() && f.block == Some(hex((#[trigger] files[j]).id)) && f.path
                == Some(files[j].path);
        assert(hex(files[j].id) == f.block->Some_0);
    }
}

/// Every finding on a corrupt block whose file the walk still shows plans one
/// quarantine, of that file and no other, in the order of the findings; and nothing
/// else does.
pub proof fn lemma_corrupt_planned(
    findings: Seq<FindingView>,
    files: Seq<FileView>,
)
    ensures
        answers(
            corrupt_plan(findings, files),
            findings.len() as int,
            |i: int| findings[i].class is CorruptBlock && shows_file(findings[i], files),
            |i: int, y: ActionView| (y matches ActionView::QuarantineCorrupt(id, path) && findings[i].block == Some(
                hex(id),
            ) && findings[i].path == Some(path) && exists|j: int|
                0 <= j < files.len() && (#[trigger] files[j]).id == id && files[j].path == path),
        ),
{
    let n = findings.len() as int;
    let asked = |i: int| findings[i].class is CorruptBlock && shows_file(findings[i], files);
    let fits = |i: int, y: ActionView| (y matches ActionView::QuarantineCorrupt(id, path) && findings[i].block == Some(
                hex(id),
            ) && findings[i].path == Some(path) && exists|j: int|
                0 <= j < files.len() && (#[trigger] files[j]).id == id && files[j].path == path);
    let grown = |i: int| corrupt_plan(findings.subrange(0, i), files);
    assert forall|i: int| 0 <= i < n implies if asked(i) {
        &&& (#[trigger] grown(i + 1)) == grown(i).push(grown(i + 1).last())
        &&& fits(i, grown(i + 1).last())
    } else {
        grown(i + 1) == grown(i)
    } by {
        lemma_prefix(findings, i);
        let f = findings[i];
        if f.block is Some && f.path is Some {
            lemma_shows_file(f, files);
            lemma_find_file(files, f.block->Some_0, f.path->Some_0);
        }
        if asked(i) {
            let file = find_file(files, f.block->Some_0, f.path->Some_0)->Some_0;
            let j = choose|j: int| 0 <= j < files.len() && files[j] == file;
            assert(files[j].id == file.id && files[j].path == file.path);
        } else if f.class is CorruptBlock && f.block is Some && f.path is Some {
            assert(find_file(files, f.block->Some_0, f.path->Some_0) is None);
        }
    }
    assert(findings.subrange(0, 0) =~= Seq::<FindingView>::empty());
    lemma_answers_grow(grown, n, asked, fits);
    assert(findings.subrange(0, n) =~= findings);
}

/// Every finding on a corrupt block with a block and a path whose file the walk no
/// longer shows is said to be skipped, once, in the order of the findings; and
/// nothing else is.
pub proof fn lemma_corrupt_skipped(
    findings: Seq<FindingView>,
    files: Seq<FileView>,
)
    ensures
        answers(
            corrupt_skips(findings, files),
            findings.len() as int,
            |i: int| findings[i].class is CorruptBlock && findings[i].block is Some && findings[i].path is Some
                && !shows_file(findings[i], files),
            |i: int, y: OutcomeView| y.action == "quarantine_corrupt"@ && y.status is Skipped
                && y.severity is Info && y.detail == "the report named a corrupt file at "@
                + findings[i].path->Some_0 + ", which is no longer there"@,
        ),
{
    let n = findings.len() as int;
    let asked = |i: int| findings[i].class is CorruptBlock && findings[i].block is Some && findings[i].path is Some
                && !shows_file(findings[i], files);
    let fits = |i: int, y: OutcomeView| y.action == "quarantine_corrupt"@ && y.status is Skipped
                && y.severity is Info && y.detail == "the report named a corrupt file at "@
                + findings[i].path->Some_0 + ", which is no longer there"@;
    let grown = |i: int| corrupt_skips(findings.subrange(0, i), files);
    assert forall|i: int| 0 <= i < n implies if asked(i) {
        &&& (#[trigger] grown(i + 1)) == grown(i).push(grown(i + 1).last())
        &&& fits(i, grown(i + 1).last())
    } else {
        grown(i + 1) == grown(i)
    } by {
        lemma_prefix(findings, i);
        let f = findings[i];
        if f.block is Some && f.path is Some {
            lemma_shows_file(f, files);
            lemma_find_file(files, f.block->Some_0, f.path->Some_0);
        }
    }
    assert(findings.subrange(0, 0) =~= Seq::<FindingView>::empty());
    lemma_answers_grow(grown, n, asked, fits);
    assert(findings.subrange(0, n) =~= findings);
}

/// Every record whose count is not what the holders reference gets it set to that,
/// to zero where nothing references the block; and no other count is set.
pub proof fn lemma_counts_planned(
    ids: Seq<Seq<u8>>,
    records: Map<Seq<u8>, Block>,
    expected: Map<Seq<u8>, u64>,
)
    ensures
        answers(
            count_plan(ids, records, expected),
            ids.len() as int,
            |i: int| records[ids[i]].rc as u64 != (if expected.contains_key(ids[i]) {
                expected[ids[i]]
            } else {
                0
            }),
            |i: int, y: ActionView| y == ActionView::SetRc(
                ids[i],
                records[ids[i]].rc as u64,
                if expected.contains_key(ids[i]) {
                    expected[ids[i]]
                } else {
                    0
                },
            ),
        ),
{
    let n = ids.len() as int;
    let asked = |i: int| records[ids[i]].rc as u64 != (if expected.contains_key(ids[i]) {
                expected[ids[i]]
            } else {
                0
            });
    let fits = |i: int, y: ActionView| y == ActionView::SetRc(
                ids[i],
                records[ids[i]].rc as u64,
                if expected.contains_key(ids[i]) {
                    expected[ids[i]]
                } else {
                    0
                },
            );
    let grown = |i: int| count_plan(ids.subrange(0, i), records, expected);
    assert forall|i: int| 0 <= i < n implies if asked(i) {
        &&& (#[trigger] grown(i + 1)) == grown(i).push(grown(i + 1).last())
        &&& fits(i, grown(i + 1).last())
    } else {
        grown(i + 1) == grown(i)
    } by {
        lemma_prefix(ids, i);
    }
    assert(ids.subrange(0, 0) =~= Seq::<Seq<u8>>::empty());
    lemma_answers_grow(grown, n, asked, fits);
    assert(ids.subrange(0, n) =~= ids);
}

/// A block file is planned for deletion exactly where no record names its block, or
/// where it lies at another depth than the record names and the record's own file
/// was seen; each such file once.
pub proof fn lemma_deletions_planned(
    list: Seq<FileView>,
    files: Seq<FileView>,
    records: Map<Seq<u8>, Block>,
)
    ensures
        answers(
            file_plan(list, files, records),
            list.len() as int,
            |i: int| !records.contains_key(list[i].id) || (records[list[i].id].depth != list[i].depth
                && exists|j: int|
                0 <= j < files.len() && (#[trigger] files[j]).id == list[i].id && files[j].depth
                    == records[list[i].id].depth),
            |i: int, y: ActionView| y == if records.contains_key(list[i].id) {
                ActionView::DeleteOffDepth(list[i].id, list[i].path)
            } else {
                ActionView::DeleteOrphan(list[i].id, list[i].path)
            },
        ),
{
    let n = list.len() as int;
    let asked = |i: int| !records.contains_key(list[i].id) || (records[list[i].id].depth != list[i].depth
                && exists|j: int|
                0 <= j < files.len() && (#[trigger] files[j]).id == list[i].id && files[j].depth
                    == records[list[i].id].depth);
    let fits = |i: int, y: ActionView| y == if records.contains_key(list[i].id) {
                ActionView::DeleteOffDepth(list[i].id, list[i].path)
            } else {
                ActionView::DeleteOrphan(list[i].id, list[i].path)
            };
    let grown = |i: int| file_plan(list.subrange(0, i), files, records);
    assert forall|i: int| 0 <= i < n implies if asked(i) {
        &&& (#[trigger] grown(i + 1)) == grown(i).push(grown(i + 1).last())
        &&& fits(i, grown(i + 1).last())
    } else {
        grown(i + 1) == grown(i)
    } by {
        lemma_prefix(list, i);
    }
    assert(list.subrange(0, 0) =~= Seq::<FileView>::empty());
    lemma_answers_grow(grown, n, asked, fits);
    assert(list.subrange(0, n) =~= list);
}

/// The depths at which the walk saw a block other than where its record puts it:
/// one for each such file.
pub proof fn lemma_elsewhere(
    files: Seq<FileView>,
    id: Seq<u8>,
    depth: u8,
)
    ensures
        answers(
            elsewhere(files, id, depth),
            files.len() as int,
            |i: int| files[i].id == id && files[i].depth != depth,
            |i: int, y: u8| y == files[i].depth,
        ),
{
    let n = files.len() as int;
    let asked = |i: int| files[i].id == id && files[i].depth != depth;
    let fits = |i: int, y: u8| y == files[i].depth;
    let grown = |i: int| elsewhere(files.subrange(0, i), id, depth);
    assert forall|i: int| 0 <= i < n implies if asked(i) {
        &&& (#[trigger] grown(i + 1)) == grown(i).push(grown(i + 1).last())
        &&& fits(i, grown(i + 1).last())
    } else {
        grown(i + 1) == grown(i)
    } by {
        lemma_prefix(files, i);
    }
    assert(files.subrange(0, 0) =~= Seq::<FileView>::empty());
    lemma_answers_grow(grown, n, asked, fits);
    assert(files.subrange(0, n) =~= files);
}

/// There is a depth elsewhere exactly where there is a file elsewhere.
proof fn lemma_copies(files: Seq<FileView>, id: Seq<u8>, depth: u8)
    ensures
        elsewhere(files, id, depth).len() > 0 <==> exists|j: int|
            0 <= j < files.len() && (#[trigger] files[j]).id == id && files[j].depth != depth,
{
    lemma_elsewhere(files, id, depth);
    let list = elsewhere(files, id, depth);
    let asked = |i: int| files[i].id == id && files[i].depth != depth;
    let fits = |i: int, y: u8| y == files[i].depth;
    if list.len() > 0 {
        let j = lemma_item_asked(list, files.len() as int, asked, fits, 0);
        assert(files[j].id == id);
    }
    if exists|j: int|
        0 <= j < files.len() && (#[trigger] files[j]).id == id && files[j].depth != depth {
        let j = choose|j: int|
            0 <= j < files.len() && (#[trigger] files[j]).id == id && files[j].depth != depth;
        let k = lemma_place_answered(list, files.len() as int, asked, fits, j);
    }
}

/// Putting depths in order keeps them all, and puts the shallowest first.
pub proof fn lemma_shallow(depths: Seq<u8>)
    ensures
        shallow_first(depths).to_multiset() == depths.to_multiset(),
        shallow_first(depths).len() == depths.len(),
        forall|i: int, j: int|
            0 <= i < j < depths.len() ==> #[trigger] shallow_first(depths)[i]
                <= #[trigger] shallow_first(depths)[j],
{
    let leq = super::plan_blocks::depth_leq();
    assert(vstd::relations::total_ordering(leq));
    depths.lemma_sort_by_ensures(leq);
    let out = shallow_first(depths);
    depths.to_multiset_ensures();
    out.to_multiset_ensures();
    assert forall|i: int, j: int| 0 <= i < j < depths.len() implies #[trigger] out[i]
        <= #[trigger] out[j] by {
        assert(leq(out[i], out[j]));
    }
}

/// A record that is not flagged, whose file is not there and whose block the walk
/// saw at another depth is planned to adopt one of those copies, all of which are
/// candidates, the shallowest first, each under the path of its depth; and no other
/// record is.
pub proof fn lemma_adoptions_planned(
    ids: Seq<Seq<u8>>,
    records: Map<Seq<u8>, Block>,
    present: Seq<bool>,
    files: Seq<FileView>,
    root: Seq<char>,
)
    ensures
        answers(
            adoption_plan(ids, records, present, files, root),
            ids.len() as int,
            |i: int| !records[ids[i]].degraded() && !(i < present.len() && present[i]) && exists|j: int|
                0 <= j < files.len() && (#[trigger] files[j]).id == ids[i] && files[j].depth
                    != records[ids[i]].depth,
            |i: int, y: ActionView| (y matches ActionView::AdoptOrphan(id, depth, candidates) && id == ids[i]
                && depth == records[ids[i]].depth && candidates.map_values(
                |c: (u8, Seq<char>)| c.0,
            ).to_multiset() == elsewhere(files, ids[i], depth).to_multiset() && (forall|
                a: int,
                b: int,
            |
                0 <= a < b < candidates.len() ==> (#[trigger] candidates[a]).0 <= (
                #[trigger] candidates[b]).0) && (forall|a: int|
                0 <= a < candidates.len() ==> (#[trigger] candidates[a]).1 == block_path(
                    ids[i],
                    candidates[a].0 as nat,
                    root,
                ))),
        ),
{
    let n = ids.len() as int;
    let asked = |i: int| !records[ids[i]].degraded() && !(i < present.len() && present[i]) && exists|j: int|
                0 <= j < files.len() && (#[trigger] files[j]).id == ids[i] && files[j].depth
                    != records[ids[i]].depth;
    let fits = |i: int, y: ActionView| (y matches ActionView::AdoptOrphan(id, depth, candidates) && id == ids[i]
                && depth == records[ids[i]].depth && candidates.map_values(
                |c: (u8, Seq<char>)| c.0,
            ).to_multiset() == elsewhere(files, ids[i], depth).to_multiset() && (forall|
                a: int,
                b: int,
            |
                0 <= a < b < candidates.len() ==> (#[trigger] candidates[a]).0 <= (
                #[trigger] candidates[b]).0) && (forall|a: int|
                0 <= a < candidates.len() ==> (#[trigger] candidates[a]).1 == block_path(
                    ids[i],
                    candidates[a].0 as nat,
                    root,
                )));
    let grown = |i: int| adoption_plan(ids.subrange(0, i), records, present, files, root);
    assert forall|i: int| 0 <= i < n implies if asked(i) {
        &&& (#[trigger] grown(i + 1)) == grown(i).push(grown(i + 1).last())
        &&& fits(i, grown(i + 1).last())
    } else {
        grown(i + 1) == grown(i)
    } by {
        lemma_prefix(ids, i);
        let depth = records[ids[i]].depth;
        lemma_copies(files, ids[i], depth);
        lemma_shallow(elsewhere(files, ids[i], depth));
        let depths = shallow_first(elsewhere(files, ids[i], depth));
        let candidates = depths.map_values(|d: u8| (d, block_path(ids[i], d as nat, root)));
        assert(candidates.map_values(|c: (u8, Seq<char>)| c.0) =~= depths);
    }
    assert(ids.subrange(0, 0) =~= Seq::<Seq<u8>>::empty());
    lemma_answers_grow(grown, n, asked, fits);
    assert(ids.subrange(0, n) =~= ids);
}

/// A record that is not flagged, whose file is not there and whose block is nowhere
/// else is planned to be flagged; and no other record is.
pub proof fn lemma_flaggings_planned(
    ids: Seq<Seq<u8>>,
    records: Map<Seq<u8>, Block>,
    present: Seq<bool>,
    files: Seq<FileView>,
    root: Seq<char>,
)
    ensures
        answers(
            degrade_plan(ids, records, present, files, root),
            ids.len() as int,
            |i: int| !records[ids[i]].degraded() && !(i < present.len() && present[i]) && !(exists|j: int|
                0 <= j < files.len() && (#[trigger] files[j]).id == ids[i] && files[j].depth
                    != records[ids[i]].depth),
            |i: int, y: ActionView| y == ActionView::MarkDegraded(ids[i]),
        ),
{
    let n = ids.len() as int;
    let asked = |i: int| !records[ids[i]].degraded() && !(i < present.len() && present[i]) && !(exists|j: int|
                0 <= j < files.len() && (#[trigger] files[j]).id == ids[i] && files[j].depth
                    != records[ids[i]].depth);
    let fits = |i: int, y: ActionView| y == ActionView::MarkDegraded(ids[i]);
    let grown = |i: int| degrade_plan(ids.subrange(0, i), records, present, files, root);
    assert forall|i: int| 0 <= i < n implies if asked(i) {
        &&& (#[trigger] grown(i + 1)) == grown(i).push(grown(i + 1).last())
        &&& fits(i, grown(i + 1).last())
    } else {
        grown(i + 1) == grown(i)
    } by {
        lemma_prefix(ids, i);
        let depth = records[ids[i]].depth;
        lemma_copies(files, ids[i], depth);
        lemma_shallow(elsewhere(files, ids[i], depth));
    }
    assert(ids.subrange(0, 0) =~= Seq::<Seq<u8>>::empty());
    lemma_answers_grow(grown, n, asked, fits);
    assert(ids.subrange(0, n) =~= ids);
}

/// Every foreign entry is planned to be moved aside, once, in the order of the walk.
pub proof fn lemma_foreign_planned(foreign: Seq<ForeignView>)
    ensures
        foreign_plan(foreign).len() == foreign.len(),
        forall|i: int|
            0 <= i < foreign.len() ==> #[trigger] foreign_plan(foreign)[i]
                == ActionView::QuarantineForeign(foreign[i].path),
{
}

/// A plan for records and files is all of what is planned for corrupt files,
/// adoptions, counts, flaggings, files nothing references and foreign entries, one
/// behind the other; counts only where the recount ran. So everything that may free
/// a copy comes after everything that may adopt it.
pub proof fn lemma_plan_whole(
    findings: Seq<FindingView>,
    seen: Sightings,
    root: Seq<char>,
    expected: Option<Map<Seq<u8>, u64>>,
)
    ensures
        ({
            let records = seen.records.records@;
            let ids = key_order(records);
            let files = seen.disk@.files;
            let plan = block_plan(findings, seen, root, expected);
            let a = corrupt_plan(findings, files);
            let b = adoption_plan(ids, records, seen.present@, files, root);
            let c = match expected {
                Some(expected) => count_plan(ids, records, expected),
                None => Seq::empty(),
            };
            let d = degrade_plan(ids, records, seen.present@, files, root);
            let e = file_plan(files, files, records);
            let f = foreign_plan(seen.disk@.foreign);
            let (ab, abc, abcd) = (
                a.len() + b.len(),
                a.len() + b.len() + c.len(),
                a.len() + b.len() + c.len() + d.len(),
            );
            &&& plan.len() == abcd + e.len() + f.len()
            &&& forall|i: int| 0 <= i < a.len() ==> plan[i] == #[trigger] a[i]
            &&& forall|i: int| 0 <= i < b.len() ==> plan[a.len() + i] == #[trigger] b[i]
            &&& forall|i: int| 0 <= i < c.len() ==> plan[ab + i] == #[trigger] c[i]
            &&& forall|i: int| 0 <= i < d.len() ==> plan[abc + i] == #[trigger] d[i]
            &&& forall|i: int| 0 <= i < e.len() ==> plan[abcd + i] == #[trigger] e[i]
            &&& forall|i: int| 0 <= i < f.len() ==> plan[abcd + e.len() + i] == #[trigger] f[i]
        }),
{
}

/// Every corrupt file that a report names and the walk still shows is set aside by
/// the plan; together with what is skipped, each such finding is answered once.
pub proof fn lemma_corrupt_answered(
    findings: Seq<FindingView>,
    seen: Sightings,
    root: Seq<char>,
    expected: Option<Map<Seq<u8>, u64>>,
    i: int,
    j: int,
)
    requires
        0 <= i < findings.len(),
        findings[i].class is CorruptBlock,
        0 <= j < seen.disk@.files.len(),
        findings[i].block == Some(hex(seen.disk@.files[j].id)),
        findings[i].path == Some(seen.disk@.files[j].path),
    ensures
        block_plan(findings, seen, root, expected).contains(
            ActionView::QuarantineCorrupt(seen.disk@.files[j].id, seen.disk@.files[j].path),
        ),
{
    let files = seen.disk@.files;
    let plan = corrupt_plan(findings, files);
    lemma_corrupt_planned(findings, files);
    lemma_plan_whole(findings, seen, root, expected);
    assert(shows_file(findings[i], files));
    let k = lemma_place_answered(
        plan,
        findings.len() as int,
        |i: int| findings[i].class is CorruptBlock && shows_file(findings[i], files),
        |i: int, y: ActionView|
            (y matches ActionView::QuarantineCorrupt(id, path) && findings[i].block == Some(
                hex(id),
            ) && findings[i].path == Some(path) && exists|j: int|
                0 <= j < files.len() && (#[trigger] files[j]).id == id && files[j].path == path),
        i,
    );
    if let ActionView::QuarantineCorrupt(id, path) = plan[k] {
        lemma_hex_injective(id, files[j].id);
        assert(block_plan(findings, seen, root, expected)[k] == plan[k]);
    }
}

/// How many findings name a corrupt block with a block and a path.
pub open spec fn corrupt_named(findings: Seq<FindingView>) -> nat {
    findings.filter(
        |f: FindingView| f.class is CorruptBlock && f.block is Some && f.path is Some,
    ).len()
}

/// Quarantines and skips together are as many as the findings on corrupt blocks that
/// name a block and a path.
pub proof fn lemma_corrupt_counted(findings: Seq<FindingView>, files: Seq<FileView>)
    ensures
        corrupt_plan(findings, files).len() + corrupt_skips(findings, files).len()
            == corrupt_named(findings),
    decreases findings.len(),
{
    reveal(Seq::filter);
    if findings.len() > 0 {
        lemma_corrupt_counted(findings.drop_last(), files);
    }
}

/// The part records that are orphans are those whose upload does not exist by
/// bucket, key and upload id; each once, under the key it is filed under.
pub proof fn lemma_orphans_planned(
    rows: Seq<(Seq<u8>, Seq<u8>)>,
    uploads: Map<Triple, int>,
)
    ensures
        answers(
            orphans_in(rows, uploads),
            rows.len() as int,
            |i: int| (decode_part(rows[i].1) matches Ok(part) && !uploads.contains_key(
                (part.bucket, part.key, part.upload_id),
            )),
            |i: int, y: (Seq<u8>, PartView)| y.0 == rows[i].0 && (decode_part(rows[i].1)
                matches Ok(part) && y.1 == part),
        ),
{
    let n = rows.len() as int;
    let asked = |i: int| (decode_part(rows[i].1) matches Ok(part) && !uploads.contains_key(
                (part.bucket, part.key, part.upload_id),
            ));
    let fits = |i: int, y: (Seq<u8>, PartView)| y.0 == rows[i].0 && (decode_part(rows[i].1)
                matches Ok(part) && y.1 == part);
    let grown = |i: int| orphans_in(rows.subrange(0, i), uploads);
    assert forall|i: int| 0 <= i < n implies if asked(i) {
        &&& (#[trigger] grown(i + 1)) == grown(i).push(grown(i + 1).last())
        &&& fits(i, grown(i + 1).last())
    } else {
        grown(i + 1) == grown(i)
    } by {
        lemma_prefix(rows, i);
    }
    assert(rows.subrange(0, 0) =~= Seq::<(Seq<u8>, Seq<u8>)>::empty());
    lemma_answers_grow(grown, n, asked, fits);
    assert(rows.subrange(0, n) =~= rows);
}

/// A plan reaps each orphan part, by what its record names and the key it is filed
/// under, and tears each stranded tree down; both only where the recount ran and
/// the pass that found them did, and otherwise none of them.
pub proof fn lemma_holders_planned(
    orphans: Seq<(Seq<u8>, PartView)>,
    trees: Seq<Seq<char>>,
    passes: Seq<Pass>,
)
    ensures
        passes.contains(Pass::MultipartReport) && passes.contains(Pass::Recount) ==> {
            &&& reap_plan(orphans, passes).len() == orphans.len()
            &&& forall|i: int|
                0 <= i < orphans.len() ==> #[trigger] reap_plan(orphans, passes)[i]
                    == ActionView::ReapOrphanPart(
                    orphans[i].1.bucket,
                    orphans[i].1.key,
                    orphans[i].1.upload_id,
                    orphans[i].1.part_number,
                    orphans[i].0,
                )
        },
        !(passes.contains(Pass::MultipartReport) && passes.contains(Pass::Recount)) ==> reap_plan(
            orphans,
            passes,
        ).len() == 0,
        passes.contains(Pass::BucketIntegrity) && passes.contains(Pass::Recount) ==> {
            &&& teardown_plan(trees, passes).len() == trees.len()
            &&& forall|i: int|
                0 <= i < trees.len() ==> #[trigger] teardown_plan(trees, passes)[i]
                    == ActionView::ResumeBucketTeardown(trees[i])
        },
        !(passes.contains(Pass::BucketIntegrity) && passes.contains(Pass::Recount))
            ==> teardown_plan(trees, passes).len() == 0,
{
}

} // verus!
