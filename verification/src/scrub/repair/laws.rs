//! What holds of every repair plan.

use vstd::prelude::*;
use vstd::utf8::*;

use super::actions::set_rc_step;
use super::plan::{reap_plan, teardown_plan};
use super::plan_blocks::{
    adoption_plan, block_plan, corrupt_plan, count_plan, degrade_plan, expected_of, file_action,
    file_plan, foreign_plan,
};
use super::ActionView;
use crate::bytes::{ascending, bytes_lt, differs_below, lemma_bytes_lt_irreflexive};
use crate::cas::multipart::PartView;
use crate::metastore::block::{is_id_width, lemma_block_round_trip, Block};
use crate::metastore::meta_store::{block_at, DEFAULT_BLOCK_TREE};
use crate::metastore::traits::{tree_of, Rows};
use crate::scrub::disk::FileView;
use crate::scrub::engine::Sightings;
use crate::scrub::findings::FindingView;
use crate::scrub::id_map::{key_order, lemma_key_order, lists_keys};
use crate::scrub::passes::dangling::present_at;
use crate::scrub::passes::disk_sweep::seen_at;
use crate::scrub::passes::recount::{miscount, unheld};
use crate::scrub::records::good_records;
use crate::scrub::report::Pass;
use crate::text::{hex, hex_digit, lemma_hex_round_trip, text_lt};

verus! {

proof fn lemma_corrupt_moves_none(findings: Seq<FindingView>, files: Seq<FileView>, i: int)
    requires
        0 <= i < corrupt_plan(findings, files).len(),
    ensures
        corrupt_plan(findings, files)[i] is QuarantineCorrupt,
    decreases findings.len(),
{
    if findings.len() > 0 && i < corrupt_plan(findings.drop_last(), files).len() {
        lemma_corrupt_moves_none(findings.drop_last(), files, i);
    }
}

proof fn lemma_adoptions(
    ids: Seq<Seq<u8>>,
    records: Map<Seq<u8>, Block>,
    present: Seq<bool>,
    files: Seq<FileView>,
    root: Seq<char>,
    i: int,
)
    requires
        0 <= i < adoption_plan(ids, records, present, files, root).len(),
    ensures
        adoption_plan(ids, records, present, files, root)[i] is AdoptOrphan,
    decreases ids.len(),
{
    if ids.len() > 0 && i < adoption_plan(ids.drop_last(), records, present, files, root).len() {
        lemma_adoptions(ids.drop_last(), records, present, files, root, i);
    }
}

proof fn lemma_degradings(
    ids: Seq<Seq<u8>>,
    records: Map<Seq<u8>, Block>,
    present: Seq<bool>,
    files: Seq<FileView>,
    root: Seq<char>,
    i: int,
)
    requires
        0 <= i < degrade_plan(ids, records, present, files, root).len(),
    ensures
        degrade_plan(ids, records, present, files, root)[i] is MarkDegraded,
    decreases ids.len(),
{
    if ids.len() > 0 && i < degrade_plan(ids.drop_last(), records, present, files, root).len() {
        lemma_degradings(ids.drop_last(), records, present, files, root, i);
    }
}

/// The file that a planned deletion is about.
proof fn lemma_file_plan(
    list: Seq<FileView>,
    files: Seq<FileView>,
    records: Map<Seq<u8>, Block>,
    i: int,
) -> (k: int)
    requires
        0 <= i < file_plan(list, files, records).len(),
    ensures
        0 <= k < list.len(),
        file_action(list[k], files, records) == Some(file_plan(list, files, records)[i]),
    decreases list.len(),
{
    let init = list.drop_last();
    if i < file_plan(init, files, records).len() {
        let k = lemma_file_plan(init, files, records, i);
        assert(init[k] == list[k]);
        k
    } else {
        list.len() - 1
    }
}

proof fn lemma_count_plan(
    ids: Seq<Seq<u8>>,
    records: Map<Seq<u8>, Block>,
    expected: Map<Seq<u8>, u64>,
    i: int,
) -> (k: int)
    requires
        0 <= i < count_plan(ids, records, expected).len(),
    ensures
        0 <= k < ids.len(),
        count_plan(ids, records, expected)[i] == ActionView::SetRc(
            ids[k],
            records[ids[k]].rc as u64,
            expected_of(expected, ids[k]),
        ),
    decreases ids.len(),
{
    let init = ids.drop_last();
    if i < count_plan(init, records, expected).len() {
        let k = lemma_count_plan(init, records, expected, i);
        assert(init[k] == ids[k]);
        k
    } else {
        ids.len() - 1
    }
}

/// What a plan may hold: a count only where the recount ran, and then the one
/// the holders give; a deletion only of a block file that nothing can reference,
/// never of a foreign file.
pub open spec fn allowed(
    action: ActionView,
    seen: Sightings,
    expected: Option<Map<Seq<u8>, u64>>,
) -> bool {
    let records = seen.records.records@;
    let files = seen.disk@.files;
    match action {
        ActionView::SetRc(id, _, to) => expected matches Some(expected) && to == expected_of(
            expected,
            id,
        ) && records.contains_key(id),
        ActionView::ResumeBucketTeardown(_) => false,
        ActionView::ReapOrphanPart(_, _, _, _, _) => false,
        ActionView::DeleteOrphan(id, path) => {
            &&& !records.contains_key(id)
            &&& exists|k: int|
                0 <= k < files.len() && (#[trigger] files[k]).id == id && files[k].path == path
        },
        ActionView::DeleteOffDepth(id, path) => {
            &&& records.contains_key(id)
            &&& seen_at(files, id, records[id].depth)
            &&& exists|k: int|
                0 <= k < files.len() && (#[trigger] files[k]).id == id && files[k].path == path
                    && files[k].depth != records[id].depth
        },
        _ => true,
    }
}

/// No plan moves a count without a recount, and then only to what the complete
/// holder walk counted; and no plan deletes a file that a record names.
pub proof fn lemma_plan_allowed(
    findings: Seq<FindingView>,
    seen: Sightings,
    root: Seq<char>,
    expected: Option<Map<Seq<u8>, u64>>,
    i: int,
)
    requires
        lists_keys(key_order(seen.records.records@), seen.records.records@),
        0 <= i < block_plan(findings, seen, root, expected).len(),
    ensures
        allowed(block_plan(findings, seen, root, expected)[i], seen, expected),
{
    let records = seen.records.records@;
    let ids = key_order(records);
    let files = seen.disk@.files;
    let a = corrupt_plan(findings, files);
    let b = adoption_plan(ids, records, seen.present@, files, root);
    let c = match expected {
        Some(expected) => count_plan(ids, records, expected),
        None => Seq::empty(),
    };
    let d = degrade_plan(ids, records, seen.present@, files, root);
    let e = file_plan(files, files, records);
    let f = foreign_plan(seen.disk@.foreign);
    let plan = block_plan(findings, seen, root, expected);
    let (ab, abc, abcd, abcde) = (
        a.len() + b.len(),
        a.len() + b.len() + c.len(),
        a.len() + b.len() + c.len() + d.len(),
        a.len() + b.len() + c.len() + d.len() + e.len(),
    );
    if i < a.len() {
        assert(plan[i] == a[i]);
        lemma_corrupt_moves_none(findings, files, i);
    } else if i < ab {
        assert(plan[i] == b[i - a.len()]);
        lemma_adoptions(ids, records, seen.present@, files, root, i - a.len());
    } else if i < abc {
        assert(plan[i] == c[i - ab]);
        let k = lemma_count_plan(ids, records, expected->Some_0, i - ab);
        assert(ids.contains(ids[k]));
    } else if i < abcd {
        assert(plan[i] == d[i - abc]);
        lemma_degradings(ids, records, seen.present@, files, root, i - abc);
    } else if i < abcde {
        assert(plan[i] == e[i - abcd]);
        let k = lemma_file_plan(files, files, records, i - abcd);
        assert(files[k].id == files[k].id);
    } else {
        assert(plan[i] == f[i - abcde]);
    }
}

/// Teardowns and reaps are planned only where the recount ran.
pub proof fn lemma_holders_gated(
    trees: Seq<Seq<char>>,
    orphans: Seq<(Seq<u8>, PartView)>,
    passes: Seq<Pass>,
)
    requires
        !passes.contains(Pass::Recount),
    ensures
        teardown_plan(trees, passes).len() == 0,
        reap_plan(orphans, passes).len() == 0,
{
}

/// Records after a count is set: the record with that count, or, at zero, no
/// record.
pub open spec fn count_set(records: Map<Seq<u8>, Block>, action: ActionView) -> Map<
    Seq<u8>,
    Block,
> {
    match action {
        ActionView::SetRc(id, _, to) => if !records.contains_key(id) || records[id].rc == to {
            records
        } else if to == 0 {
            records.remove(id)
        } else {
            records.insert(id, Block { rc: to as usize, ..records[id] })
        },
        _ => records,
    }
}

/// What [`set_rc`](super::actions::set_rc) does to the rows of a store is what is
/// said of its records here.
pub proof fn lemma_set_rc_counts(rows: Rows, root: Seq<char>, id: Seq<u8>, from: u64, to: u64)
    requires
        is_id_width(id.len()),
        to <= usize::MAX,
    ensures
        good_records(tree_of(set_rc_step(rows, root, id, from, to).0, DEFAULT_BLOCK_TREE@))
            == count_set(
            good_records(tree_of(rows, DEFAULT_BLOCK_TREE@)),
            ActionView::SetRc(id, from, to),
        ),
{
    let before = good_records(tree_of(rows, DEFAULT_BLOCK_TREE@));
    let now = set_rc_step(rows, root, id, from, to).0;
    let after = good_records(tree_of(now, DEFAULT_BLOCK_TREE@));
    let want = count_set(before, ActionView::SetRc(id, from, to));
    match block_at(rows, id) {
        Some(Ok(record)) => {
            lemma_block_round_trip(Block { rc: to as usize, ..record });
            assert(before.contains_key(id) && before[id] == record);
        },
        _ => {
            assert(!before.contains_key(id));
        },
    }
    assert forall|key: Seq<u8>| after.contains_key(key) == want.contains_key(key) && (
    want.contains_key(key) ==> after[key] == want[key]) by {
        if key != id {
            assert(rows.contains_key((DEFAULT_BLOCK_TREE@, key)) == now.contains_key(
                (DEFAULT_BLOCK_TREE@, key),
            ));
        }
    }
    assert(after =~= want);
}

/// Records after counts are set, one after the other.
pub open spec fn counts_set(records: Map<Seq<u8>, Block>, actions: Seq<ActionView>) -> Map<
    Seq<u8>,
    Block,
>
    decreases actions.len(),
{
    if actions.len() == 0 {
        records
    } else {
        count_set(counts_set(records, actions.drop_last()), actions.last())
    }
}

/// Records with the counts that the holders give; those that nothing references
/// are gone.
pub open spec fn repaired(records: Map<Seq<u8>, Block>, expected: Map<Seq<u8>, u64>) -> Map<
    Seq<u8>,
    Block,
> {
    Map::new(
        |id: Seq<u8>| records.contains_key(id) && expected_of(expected, id) > 0,
        |id: Seq<u8>| Block { rc: expected_of(expected, id) as usize, ..records[id] },
    )
}

proof fn lemma_counts_set(
    ids: Seq<Seq<u8>>,
    records: Map<Seq<u8>, Block>,
    expected: Map<Seq<u8>, u64>,
)
    requires
        forall|id: Seq<u8>| #[trigger] records.contains_key(id) ==> expected_of(expected, id) <= usize::MAX,
        forall|i: int| 0 <= i < ids.len() ==> records.contains_key(#[trigger] ids[i]),
        forall|i: int, j: int| 0 <= i < j < ids.len() ==> #[trigger] ids[i] != #[trigger] ids[j],
    ensures
        ({
            let after = counts_set(records, count_plan(ids, records, expected));
            &&& forall|id: Seq<u8>|
                #![trigger after.contains_key(id)]
                !ids.contains(id) ==> (after.contains_key(id) == records.contains_key(id) && (
                records.contains_key(id) ==> after[id] == records[id]))
            &&& forall|i: int|
                0 <= i < ids.len() ==> (after.contains_key(#[trigger] ids[i]) <==> (expected_of(
                    expected,
                    ids[i],
                ) > 0 || records[ids[i]].rc == 0 && expected_of(expected, ids[i]) == 0))
                    && (after.contains_key(ids[i]) ==> after[ids[i]] == (Block {
                    rc: expected_of(expected, ids[i]) as usize,
                    ..records[ids[i]]
                }))
        }),
    decreases ids.len(),
{
    if ids.len() > 0 {
        let init = ids.drop_last();
        let last = ids.last();
        let plan = count_plan(ids, records, expected);
        let before = counts_set(records, count_plan(init, records, expected));
        let after = counts_set(records, plan);
        assert forall|i: int| 0 <= i < init.len() implies #[trigger] init[i] == ids[i] by {}
        lemma_counts_set(init, records, expected);
        assert(!init.contains(last)) by {
            assert forall|i: int| 0 <= i < init.len() implies #[trigger] init[i] != last by {
                assert(ids[i] != ids[ids.len() - 1]);
            }
        }
        assert(before.contains_key(last) == records.contains_key(last));
        assert(records.contains_key(ids[ids.len() - 1]));
        assert(before[last] == records[last]);
        if records[last].rc as u64 != expected_of(expected, last) {
            assert(plan.drop_last() =~= count_plan(init, records, expected));
            assert(plan.last() == ActionView::SetRc(
                last,
                records[last].rc as u64,
                expected_of(expected, last),
            ));
        } else {
            assert(after == before);
        }
        assert forall|id: Seq<u8>|
            #![trigger after.contains_key(id)]
            !ids.contains(id) implies (after.contains_key(id) == records.contains_key(id) && (
        records.contains_key(id) ==> after[id] == records[id])) by {
            assert(ids[ids.len() - 1] == last);
            assert(id != last);
            assert(!init.contains(id)) by {
                if init.contains(id) {
                    let i = choose|i: int| 0 <= i < init.len() && init[i] == id;
                    assert(ids[i] == id);
                }
            }
            assert(before.contains_key(id) == records.contains_key(id));
        }
        assert forall|i: int| 0 <= i < ids.len() implies (after.contains_key(#[trigger] ids[i]) <==> (
        expected_of(expected, ids[i]) > 0 || records[ids[i]].rc == 0 && expected_of(
            expected,
            ids[i],
        ) == 0)) && (after.contains_key(ids[i]) ==> after[ids[i]] == (Block {
            rc: expected_of(expected, ids[i]) as usize,
            ..records[ids[i]]
        })) by {
            if i < init.len() {
                assert(init[i] == ids[i]);
                assert(ids[i] != ids[ids.len() - 1]);
            } else {
                assert(ids[i] == last);
            }
        }
    }
}

proof fn lemma_order_lists(records: Map<Seq<u8>, Block>)
    requires
        lists_keys(key_order(records), records),
    ensures
        forall|i: int|
            0 <= i < key_order(records).len() ==> records.contains_key(
                #[trigger] key_order(records)[i],
            ),
        forall|i: int, j: int|
            0 <= i < j < key_order(records).len() ==> #[trigger] key_order(records)[i]
                != #[trigger] key_order(records)[j],
{
    let ids = key_order(records);
    assert forall|i: int| 0 <= i < ids.len() implies records.contains_key(#[trigger] ids[i]) by {
        assert(ids.contains(ids[i]));
    }
    assert forall|i: int, j: int| 0 <= i < j < ids.len() implies #[trigger] ids[i]
        != #[trigger] ids[j] by {
        lemma_bytes_lt_irreflexive(ids[i]);
        assert(bytes_lt(ids[i], ids[j]));
    }
}

/// Setting the planned counts brings every record to what the holders give: a
/// recount of the records afterwards finds no count that is too high or too low,
/// and no record that nothing references, only references to blocks that have no
/// record. (A record that counts nothing and that nothing references is not planned
/// for.)
pub proof fn lemma_counts_repaired(
    records: Map<Seq<u8>, Block>,
    expected: Map<Seq<u8>, u64>,
    id: Seq<u8>,
)
    requires
        lists_keys(key_order(records), records),
        forall|id: Seq<u8>| #[trigger]
            records.contains_key(id) ==> (records[id].rc > 0 || expected_of(expected, id) > 0)
                && expected_of(expected, id) <= usize::MAX,
        forall|id: Seq<u8>| #[trigger] expected.contains_key(id) ==> expected[id] > 0,
    ensures
        ({
            let after = counts_set(records, count_plan(key_order(records), records, expected));
            &&& after == repaired(records, expected)
            &&& expected.contains_key(id) && records.contains_key(id) ==> miscount(
                id,
                expected[id],
                after,
            ) is None
            &&& after.contains_key(id) ==> unheld(id, after[id], expected) is None
        }),
{
    let ids = key_order(records);
    let after = counts_set(records, count_plan(ids, records, expected));
    let want = repaired(records, expected);
    lemma_order_lists(records);
    lemma_counts_set(ids, records, expected);
    assert forall|k: Seq<u8>| after.contains_key(k) == want.contains_key(k) && (want.contains_key(
        k,
    ) ==> after[k] == want[k]) by {
        if ids.contains(k) {
            let i = choose|i: int| 0 <= i < ids.len() && ids[i] == k;
            assert(after.contains_key(ids[i]) || !after.contains_key(ids[i]));
        } else {
            assert(!records.contains_key(k));
            assert(after.contains_key(k) == records.contains_key(k));
        }
    }
    assert(after =~= want);
}

/// Ascending addresses, without those that are not kept.
proof fn lemma_kept(order: Seq<Seq<u8>>, keep: Set<Seq<u8>>) -> (out: Seq<Seq<u8>>)
    requires
        ascending(order),
    ensures
        ascending(out),
        forall|key: Seq<u8>| #[trigger]
            out.contains(key) <==> order.contains(key) && keep.contains(key),
    decreases order.len(),
{
    if order.len() == 0 {
        order
    } else {
        let init = order.drop_last();
        let last = order.last();
        assert(ascending(init)) by {
            assert forall|i: int, j: int| 0 <= i < j < init.len() implies bytes_lt(
                #[trigger] init[i],
                #[trigger] init[j],
            ) by {
                assert(init[i] == order[i] && init[j] == order[j]);
            }
        }
        let rest = lemma_kept(init, keep);
        assert forall|key: Seq<u8>| #[trigger] order.contains(key) <==> init.contains(key) || key
            == last by {
            if order.contains(key) && key != last {
                let i = choose|i: int| 0 <= i < order.len() && order[i] == key;
                assert(init[i] == key);
            }
            if init.contains(key) {
                let i = choose|i: int| 0 <= i < init.len() && init[i] == key;
                assert(order[i] == key);
            }
            assert(order[order.len() - 1] == last);
        }
        if !keep.contains(last) {
            rest
        } else {
            let out = rest.push(last);
            assert forall|i: int, j: int| 0 <= i < j < out.len() implies bytes_lt(
                #[trigger] out[i],
                #[trigger] out[j],
            ) by {
                if j < rest.len() {
                    assert(out[i] == rest[i] && out[j] == rest[j]);
                } else {
                    assert(rest.contains(rest[i]));
                    let k = choose|k: int| 0 <= k < init.len() && init[k] == rest[i];
                    assert(order[k] == rest[i]);
                    assert(bytes_lt(order[k], order[order.len() - 1]));
                }
            }
            assert forall|key: Seq<u8>| #[trigger] out.contains(key) <==> order.contains(key)
                && keep.contains(key) by {
                if out.contains(key) {
                    let i = choose|i: int| 0 <= i < out.len() && out[i] == key;
                    if i < rest.len() {
                        assert(rest[i] == key);
                        assert(rest.contains(key));
                    }
                }
                if rest.contains(key) {
                    let i = choose|i: int| 0 <= i < rest.len() && rest[i] == key;
                    assert(out[i] == key);
                }
                assert(out[rest.len() as int] == last);
            }
            out
        }
    }
}

/// Once the planned counts are set, none is planned again: a second repair finds
/// no count to move.
pub proof fn lemma_counts_settled(records: Map<Seq<u8>, Block>, expected: Map<Seq<u8>, u64>)
    requires
        lists_keys(key_order(records), records),
        forall|id: Seq<u8>| #[trigger]
            records.contains_key(id) ==> expected_of(expected, id) <= usize::MAX,
    ensures
        ({
            let after = counts_set(records, count_plan(key_order(records), records, expected));
            count_plan(key_order(after), after, expected).len() == 0
        }),
{
    let order = key_order(records);
    let after = counts_set(records, count_plan(order, records, expected));
    lemma_order_lists(records);
    lemma_counts_set(order, records, expected);
    let ids = lemma_kept(order, after.dom());
    assert(lists_keys(ids, after)) by {
        assert forall|key: Seq<u8>| #[trigger] ids.contains(key) <==> after.contains_key(key) by {
            if after.contains_key(key) && !order.contains(key) {
                assert(!records.contains_key(key));
            }
        }
    }
    lemma_key_order(ids, after);
    assert forall|i: int| 0 <= i < ids.len() implies after[#[trigger] ids[i]].rc as u64
        == expected_of(expected, ids[i]) by {
        assert(ids.contains(ids[i]));
        let k = choose|k: int| 0 <= k < order.len() && order[k] == ids[i];
        assert(after.contains_key(order[k]));
    }
    lemma_counts_to_set(ids, after, expected);
}

proof fn lemma_no_placements(
    ids: Seq<Seq<u8>>,
    records: Map<Seq<u8>, Block>,
    present: Seq<bool>,
    files: Seq<FileView>,
    root: Seq<char>,
)
    ensures
        adoption_plan(ids, records, present, files, root).len() == 0 && degrade_plan(
            ids,
            records,
            present,
            files,
            root,
        ).len() == 0 <==> forall|i: int|
            0 <= i < ids.len() ==> records[#[trigger] ids[i]].degraded() || present_at(present, i),
    decreases ids.len(),
{
    if ids.len() > 0 {
        let init = ids.drop_last();
        lemma_no_placements(init, records, present, files, root);
        if forall|i: int|
            0 <= i < ids.len() ==> records[#[trigger] ids[i]].degraded() || present_at(
                present,
                i,
            ) {
            assert forall|i: int| 0 <= i < init.len() implies records[#[trigger] init[i]].degraded()
                || present_at(present, i) by {
                assert(init[i] == ids[i]);
            }
            assert(records[ids[ids.len() - 1]].degraded() || present_at(present, ids.len() - 1));
        }
        if (forall|i: int|
            0 <= i < init.len() ==> records[#[trigger] init[i]].degraded() || present_at(
                present,
                i,
            )) && (records[ids[ids.len() - 1]].degraded() || present_at(present, ids.len() - 1)) {
            assert forall|i: int| 0 <= i < ids.len() implies records[#[trigger] ids[i]].degraded()
                || present_at(present, i) by {
                if i < init.len() {
                    assert(init[i] == ids[i]);
                }
            }
        }
    }
}

proof fn lemma_no_file_actions(
    list: Seq<FileView>,
    files: Seq<FileView>,
    records: Map<Seq<u8>, Block>,
)
    ensures
        file_plan(list, files, records).len() == 0 <==> forall|i: int|
            0 <= i < list.len() ==> file_action(#[trigger] list[i], files, records) is None,
    decreases list.len(),
{
    if list.len() > 0 {
        let init = list.drop_last();
        lemma_no_file_actions(init, files, records);
        if forall|i: int|
            0 <= i < list.len() ==> file_action(#[trigger] list[i], files, records) is None {
            assert forall|i: int| 0 <= i < init.len() implies file_action(
                #[trigger] init[i],
                files,
                records,
            ) is None by {
                assert(init[i] == list[i]);
            }
            assert(file_action(list[list.len() - 1], files, records) is None);
        }
        if (forall|i: int|
            0 <= i < init.len() ==> file_action(#[trigger] init[i], files, records) is None)
            && file_action(list[list.len() - 1], files, records) is None {
            assert forall|i: int| 0 <= i < list.len() implies file_action(
                #[trigger] list[i],
                files,
                records,
            ) is None by {
                if i < init.len() {
                    assert(init[i] == list[i]);
                }
            }
        }
    }
}

proof fn lemma_counts_to_set(
    ids: Seq<Seq<u8>>,
    records: Map<Seq<u8>, Block>,
    expected: Map<Seq<u8>, u64>,
)
    ensures
        count_plan(ids, records, expected).len() == 0 <==> forall|i: int|
            0 <= i < ids.len() ==> records[#[trigger] ids[i]].rc as u64 == expected_of(
                expected,
                ids[i],
            ),
    decreases ids.len(),
{
    if ids.len() > 0 {
        let init = ids.drop_last();
        lemma_counts_to_set(init, records, expected);
        if forall|i: int|
            0 <= i < ids.len() ==> records[#[trigger] ids[i]].rc as u64 == expected_of(
                expected,
                ids[i],
            ) {
            assert forall|i: int| 0 <= i < init.len() implies records[#[trigger] init[i]].rc as u64
                == expected_of(expected, init[i]) by {
                assert(init[i] == ids[i]);
            }
            assert(records[ids[ids.len() - 1]].rc as u64 == expected_of(
                expected,
                ids[ids.len() - 1],
            ));
        }
        if (forall|i: int|
            0 <= i < init.len() ==> records[#[trigger] init[i]].rc as u64 == expected_of(
                expected,
                init[i],
            )) && records[ids[ids.len() - 1]].rc as u64 == expected_of(
            expected,
            ids[ids.len() - 1],
        ) {
            assert forall|i: int| 0 <= i < ids.len() implies records[#[trigger] ids[i]].rc as u64
                == expected_of(expected, ids[i]) by {
                if i < init.len() {
                    assert(init[i] == ids[i]);
                }
            }
        }
    }
}

/// Whether records and files are as a repair leaves them: every record counts its
/// holders and has its file or is marked degraded, every block file is named by a
/// record or waits to be adopted, and nothing foreign is there.
pub open spec fn is_settled(seen: Sightings, expected: Map<Seq<u8>, u64>) -> bool {
    let records = seen.records.records@;
    let ids = key_order(records);
    let files = seen.disk@.files;
    &&& forall|i: int|
        0 <= i < ids.len() ==> {
            let b = records[#[trigger] ids[i]];
            &&& b.degraded() || present_at(seen.present@, i)
            &&& b.rc as u64 == expected_of(expected, ids[i])
        }
    &&& forall|i: int|
        0 <= i < files.len() ==> {
            let file = #[trigger] files[i];
            &&& records.contains_key(file.id)
            &&& records[file.id].depth == file.depth || !seen_at(
                files,
                file.id,
                records[file.id].depth,
            )
        }
    &&& seen.disk@.foreign.len() == 0
}

/// Without a corruption verdict there is something to repair exactly where records
/// and files are not settled.
pub proof fn lemma_nothing_to_do(
    findings: Seq<FindingView>,
    seen: Sightings,
    root: Seq<char>,
    expected: Map<Seq<u8>, u64>,
)
    requires
        corrupt_plan(findings, seen.disk@.files).len() == 0,
    ensures
        block_plan(findings, seen, root, Some(expected)).len() == 0 <==> is_settled(seen, expected),
{
    let records = seen.records.records@;
    let ids = key_order(records);
    let files = seen.disk@.files;
    lemma_no_placements(ids, records, seen.present@, files, root);
    lemma_counts_to_set(ids, records, expected);
    lemma_no_file_actions(files, files, records);
    if is_settled(seen, expected) {
        assert forall|i: int| 0 <= i < ids.len() implies records[#[trigger] ids[i]].degraded()
            || present_at(seen.present@, i) by {}
        assert forall|i: int| 0 <= i < ids.len() implies records[#[trigger] ids[i]].rc as u64
            == expected_of(expected, ids[i]) by {}
        assert forall|i: int| 0 <= i < files.len() implies file_action(
            #[trigger] files[i],
            files,
            records,
        ) is None by {}
    }
    if block_plan(findings, seen, root, Some(expected)).len() == 0 {
        assert forall|i: int| 0 <= i < files.len() implies ({
            let file = #[trigger] files[i];
            &&& records.contains_key(file.id)
            &&& records[file.id].depth == file.depth || !seen_at(
                files,
                file.id,
                records[file.id].depth,
            )
        }) by {
            assert(file_action(files[i], files, records) is None);
        }
    }
}

/// Setting a count twice is setting it once.
pub proof fn lemma_set_rc_idempotent(records: Map<Seq<u8>, Block>, action: ActionView)
    requires
        action is SetRc,
    ensures
        count_set(count_set(records, action), action) == count_set(records, action),
{
    assert(count_set(count_set(records, action), action) =~= count_set(records, action));
}

proof fn lemma_digit_order(p: nat, q: nat)
    requires
        p < 16,
        q < 16,
    ensures
        (hex_digit(p) as u8) < (hex_digit(q) as u8) <==> p < q,
        (hex_digit(p) as u8) == (hex_digit(q) as u8) <==> p == q,
{
}

/// The bytes of the hex of some bytes.
proof fn lemma_hex_bytes(bytes: Seq<u8>, k: int)
    requires
        0 <= k < bytes.len(),
    ensures
        encode_utf8(hex(bytes)).len() == 2 * bytes.len(),
        encode_utf8(hex(bytes))[2 * k] == hex_digit(bytes[k] as nat / 16) as u8,
        encode_utf8(hex(bytes))[2 * k + 1] == hex_digit(bytes[k] as nat % 16) as u8,
{
    lemma_hex_round_trip(bytes);
    is_ascii_chars_encode_utf8(hex(bytes));
    assert((2 * k) / 2 == k && (2 * k) % 2 == 0);
    assert((2 * k + 1) / 2 == k && (2 * k + 1) % 2 == 1);
}

/// The order of addresses is that of their hex, which is how actions name them.
pub proof fn lemma_hex_order(a: Seq<u8>, b: Seq<u8>)
    requires
        bytes_lt(a, b),
    ensures
        text_lt(hex(a), hex(b)),
{
    let (u, v) = (encode_utf8(hex(a)), encode_utf8(hex(b)));
    let k = choose|k: int| differs_below(a, b, k);
    lemma_hex_round_trip(a);
    lemma_hex_bytes(b, k);
    assert forall|i: int| 0 <= i < 2 * k implies u[i] == v[i] by {
        let j = i / 2;
        assert(i == 2 * j || i == 2 * j + 1);
        assert(a[j] == b[j]);
        lemma_hex_bytes(a, j);
        lemma_hex_bytes(b, j);
    }
    if k == a.len() {
        assert(differs_below(u, v, 2 * k));
    } else {
        let (p, q) = (a[k] as nat, b[k] as nat);
        lemma_hex_bytes(a, k);
        lemma_digit_order(p / 16, q / 16);
        lemma_digit_order(p % 16, q % 16);
        if p / 16 < q / 16 {
            assert(differs_below(u, v, 2 * k));
        } else {
            assert(p / 16 == q / 16);
            assert(p % 16 < q % 16);
            assert(differs_below(u, v, 2 * k + 1));
        }
    }
}

} // verus!
