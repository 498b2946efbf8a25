//! What the repair actions do to a store, said of its records.

use vstd::prelude::*;
use vstd::utf8::*;

use super::actions::{
    corrupt_report, degrade_step, degrades, set_rc_step, sets_aside, Moved, StepView, Unlinked,
};
use super::adopt::{
    adopted_text, move_step, read_step, start_step, stat_step, unlinked_step, AdoptStepView,
    AdoptionView, Read, TaskView,
};
use super::release::{
    delete_all, delete_step, lemma_release_counts, reap_step, release_all, teardown_text, Teardown,
};
use super::summary::RepairStatus;
use crate::cas::multipart::decode_part;
use crate::hasher::Hasher;
use crate::metastore::block::{block_path, lemma_block_round_trip, Block};
use crate::metastore::errors::FsError;
use crate::metastore::meta_store::block_at;
use crate::metastore::meta_store::transaction::block_row;
use crate::metastore::object::{decode_object, DataView};
use crate::metastore::traits::{lookup, Rows};
use crate::scrub::holder_laws::lemma_occurrences;
use crate::scrub::holders::occurrences;
use crate::text::dec;

verus! {

/// Whether rows are others but for the record of one block.
pub open spec fn same_but(before: Rows, after: Rows, id: Seq<u8>) -> bool {
    forall|tree: Seq<char>, key: Seq<u8>|
        !(tree == "_BLOCKS"@ && key == id) ==> #[trigger] lookup(after, tree, key) == lookup(
            before,
            tree,
            key,
        )
}

/// Setting a count leaves everything else alone. A record that counts what is
/// wanted already, a block without one and a record that does not decode are left
/// as they are; the last is a failure. A count of zero takes the record away and
/// wants the record's file unlinked; any other gives the record that count and
/// keeps its size, depth and flags.
pub proof fn lemma_set_rc_sets(rows: Rows, root: Seq<char>, id: Seq<u8>, from: u64, to: u64)
    requires
        to <= usize::MAX,
    ensures
        same_but(rows, set_rc_step(rows, root, id, from, to).0, id),
        ({
            let (after, step) = set_rc_step(rows, root, id, from, to);
            match block_at(rows, id) {
                None => after == rows && (step matches StepView::Finished(s, _) && s is Skipped),
                Some(Err(_)) => after == rows && (step matches StepView::Finished(s, _) && s
                    is Failed),
                Some(Ok(b)) => if b.rc == to {
                    after == rows && (step matches StepView::Finished(s, _) && s is Skipped)
                } else if to == 0 {
                    block_at(after, id) is None && (step matches StepView::Unlink(path, _) && path
                        == block_path(id, b.depth as nat, root))
                } else {
                    &&& block_at(after, id) matches Some(Ok(now))
                    &&& now.rc == to
                    &&& now.size == b.size && now.depth == b.depth && now.flags == b.flags
                    &&& step matches StepView::Finished(s, _)
                    &&& s is Applied
                },
            }
        }),
{
    if let Some(Ok(b)) = block_at(rows, id) {
        lemma_block_round_trip(Block { rc: to as usize, ..b });
    }
}

/// Flagging leaves everything else alone. A record that decodes is flagged
/// afterwards, with its count, size and depth as they were and whatever else its
/// flags said; that it was flagged now is said exactly where it was not before. A
/// block without a record, and a record that does not decode, are left as they
/// are; the last is a failure.
pub proof fn lemma_degrade_flags(rows: Rows, id: Seq<u8>)
    ensures
        same_but(rows, degrade_step(rows, id).0, id),
        ({
            let (after, out) = degrade_step(rows, id);
            match block_at(rows, id) {
                None => after == rows && out == Ok::<bool, Seq<char>>(false),
                Some(Err(_)) => after == rows && out is Err,
                Some(Ok(b)) => {
                    &&& block_at(after, id) matches Some(Ok(now))
                    &&& now.flags % 2 == 1
                    &&& now.flags / 2 == b.flags / 2
                    &&& now.rc == b.rc && now.size == b.size && now.depth == b.depth
                    &&& out == Ok::<bool, Seq<char>>(b.flags % 2 == 0)
                },
            }
        }),
{
    if let Some(Ok(b)) = block_at(rows, id) {
        lemma_block_round_trip(b.marked(true));
    }
}

/// A corrupt file that was moved aside, or was gone, leaves its record flagged, on
/// a store that answers; the action is applied exactly where the file was moved and
/// the record could be flagged, and skipped where it was gone.
pub proof fn lemma_corrupt_set_aside(
    rows: Rows,
    after: Rows,
    id: Seq<u8>,
    path: Seq<char>,
    moved: Moved,
    end: (RepairStatus, Seq<char>),
)
    requires
        sets_aside(true, rows, after, (id, path), moved, end),
        !(moved is Failed),
    ensures
        same_but(rows, after, id),
        block_at(rows, id) matches Some(Ok(b)) ==> (block_at(after, id) matches Some(Ok(now))
            && now.flags % 2 == 1 && now.rc == b.rc && now.size == b.size && now.depth == b.depth),
        end.0 is Failed <==> (block_at(rows, id) matches Some(r) && r is Err),
        !(end.0 is Failed) ==> (end.0 is Applied <==> moved is To),
{
    let flagged = choose|flagged: Result<bool, Seq<char>>|
        {
            &&& #[trigger] degrades(true, rows, after, id, flagged)
            &&& end == corrupt_report(path, moved, flagged)
        };
    assert(degrades(true, rows, after, id, flagged));
    lemma_degrade_flags(rows, id);
}

/// An adoption starts with the record's own file: it wants to know whether it is
/// there, and is over where it is. Otherwise the candidates are read one after the
/// other, the first one first. Up to there no row changes.
pub proof fn lemma_adoption_starts(
    rows: Rows,
    root: Seq<char>,
    id: Seq<u8>,
    depth: u8,
    candidates: Seq<(u8, Seq<char>)>,
    b: Block,
    is_file: bool,
)
    requires
        block_at(rows, id) == Some(Ok::<Block, FsError>(b)),
        candidates.len() > 0,
    ensures
        ({
            let start = start_step(rows, root, id, depth, candidates);
            &&& start.0 == rows
            &&& start.1 matches AdoptStepView::Wants(a, task)
            &&& task == TaskView::Stat(block_path(id, b.depth as nat, root))
            &&& a.block == id && a.record == b && a.candidates == candidates && a.at == 0
            &&& a.quarantined.len() == 0
            &&& stat_step(rows, a, is_file).0 == rows
            &&& if is_file {
                stat_step(rows, a, is_file).1 matches AdoptStepView::Finished(s, _) && s is Skipped
            } else {
                stat_step(rows, a, is_file).1 == AdoptStepView::Wants(
                    a,
                    TaskView::Read(candidates[0].1),
                )
            }
        }),
{
}

/// A candidate whose bytes hash to the address is adopted: the record names its
/// depth and keeps its count, size and flags, and every candidate behind it is to
/// be unlinked. One whose bytes hash to anything else is to be moved aside, and no
/// row changes. One that is gone is passed over; where it is the last and something
/// was moved aside before, the record is flagged.
pub proof fn lemma_candidate_read(
    rows: Rows,
    hasher: Hasher,
    a: AdoptionView,
    read: Read,
)
    requires
        a.at < a.candidates.len(),
        block_at(rows, a.block) == Some(Ok::<Block, FsError>(a.record)),
    ensures
        ({
            let (after, step) = read_step(rows, hasher, a, read);
            match read {
                Read::Bytes(bytes) => if hasher.address(bytes@) == a.block {
                    &&& same_but(rows, after, a.block)
                    &&& block_at(after, a.block) matches Some(Ok(now))
                    &&& now.depth == a.candidates[a.at as int].0
                    &&& now.rc == a.record.rc && now.size == a.record.size && now.flags
                        == a.record.flags
                    &&& if a.at + 1 < a.candidates.len() {
                        step matches AdoptStepView::Wants(n, TaskView::Unlink(path)) && path
                            == a.candidates[(a.at + 1) as int].1 && n.next == a.at + 1 && n.at == a.at
                            && n.candidates == a.candidates
                    } else {
                        step matches AdoptStepView::Finished(s, _) && s is Applied
                    }
                } else {
                    &&& after == rows
                    &&& step matches AdoptStepView::Wants(n, TaskView::Quarantine(path))
                    &&& path == a.candidates[a.at as int].1
                    &&& n.at == a.at && n.candidates == a.candidates
                    &&& n.actual == hasher.address(bytes@)
                },
                Read::Missing => if a.at + 1 < a.candidates.len() {
                    &&& after == rows
                    &&& step matches AdoptStepView::Wants(n, TaskView::Read(path))
                    &&& path == a.candidates[(a.at + 1) as int].1
                    &&& n.at == a.at + 1 && n.candidates == a.candidates
                } else if a.quarantined.len() == 0 {
                    after == rows && (step matches AdoptStepView::Finished(s, _) && s is Skipped)
                } else {
                    &&& same_but(rows, after, a.block)
                    &&& block_at(after, a.block) matches Some(Ok(now))
                    &&& now.flags % 2 == 1 && now.rc == a.record.rc
                    &&& step matches AdoptStepView::Finished(s, _)
                    &&& s is Applied
                },
                Read::Failed(_) => after == rows && (step matches AdoptStepView::Finished(s, _)
                    && s is Failed),
            }
        }),
{
    lemma_block_round_trip(Block { depth: a.candidates[a.at as int].0, ..a.record });
    lemma_degrade_flags(rows, a.block);
}

/// A candidate that was moved aside is followed by the next one. Behind the last,
/// with something moved aside, the record is flagged; one that could not be moved
/// ends the adoption as a failure.
pub proof fn lemma_candidate_moved(
    rows: Rows,
    a: AdoptionView,
    moved: Result<Seq<char>, Seq<char>>,
)
    requires
        a.at < a.candidates.len(),
        block_at(rows, a.block) matches Some(Ok(_)),
    ensures
        ({
            let (after, step) = move_step(rows, a, moved);
            match moved {
                Err(_) => after == rows && (step matches AdoptStepView::Finished(s, _) && s
                    is Failed),
                Ok(_) => if a.at + 1 < a.candidates.len() {
                    &&& after == rows
                    &&& step matches AdoptStepView::Wants(n, TaskView::Read(path))
                    &&& path == a.candidates[(a.at + 1) as int].1
                    &&& n.at == a.at + 1
                    &&& n.quarantined.len() == a.quarantined.len() + 1
                } else {
                    &&& same_but(rows, after, a.block)
                    &&& block_at(after, a.block) matches Some(Ok(now))
                    &&& now.flags % 2 == 1
                    &&& step matches AdoptStepView::Finished(s, _)
                    &&& s is Applied
                },
            }
        }),
{
    lemma_degrade_flags(rows, a.block);
}

/// Copies behind an adopted candidate are unlinked one after the other, up to the
/// last; one that is gone already is no failure, one that could not be unlinked is.
pub proof fn lemma_copy_unlinked(rows: Rows, a: AdoptionView, reply: Unlinked)
    requires
        a.at < a.next < a.candidates.len(),
    ensures
        unlinked_step(rows, a, reply).0 == rows,
        ({
            let step = unlinked_step(rows, a, reply).1;
            if reply is Failed {
                step matches AdoptStepView::Finished(s, _) && s is Failed
            } else if a.next + 1 < a.candidates.len() {
                &&& step matches AdoptStepView::Wants(n, TaskView::Unlink(path))
                &&& path == a.candidates[(a.next + 1) as int].1
                &&& n.next == a.next + 1
            } else {
                step matches AdoptStepView::Finished(s, _) && s is Applied
            }
        }),
{
}

/// Releasing references leaves every row alone but the records of the released
/// blocks.
proof fn lemma_release_rows(rows: Rows, root: Seq<char>, ids: Seq<Seq<u8>>)
    requires
        release_all(rows, root, ids) is Ok,
    ensures
        forall|tree: Seq<char>, key: Seq<u8>|
            !(tree == "_BLOCKS"@ && ids.contains(key)) ==> #[trigger] lookup(
                release_all(rows, root, ids)->Ok_0.0,
                tree,
                key,
            ) == lookup(rows, tree, key),
    decreases ids.len(),
{
    if ids.len() > 0 {
        let init = ids.drop_last();
        lemma_release_rows(rows, root, init);
        let after = release_all(rows, root, ids)->Ok_0.0;
        let so_far = release_all(rows, root, init)->Ok_0.0;
        assert forall|tree: Seq<char>, key: Seq<u8>|
            !(tree == "_BLOCKS"@ && ids.contains(key)) implies #[trigger] lookup(after, tree, key)
            == lookup(rows, tree, key) by {
            if init.contains(key) {
                let k = choose|k: int| 0 <= k < init.len() && init[k] == key;
                assert(ids[k] == key);
            }
            if key == ids.last() {
                assert(ids[ids.len() - 1] == key);
            }
            assert(lookup(so_far, tree, key) == lookup(rows, tree, key));
        }
    }
}

/// A record that goes frees its file: where releasing references takes the record of
/// a block away, the path that the record named is among the freed ones.
pub proof fn lemma_gone_is_freed(
    rows: Rows,
    root: Seq<char>,
    ids: Seq<Seq<u8>>,
    id: Seq<u8>,
    b: Block,
)
    requires
        release_all(rows, root, ids) is Ok,
        block_at(rows, id) == Some(Ok::<Block, FsError>(b)),
        block_at(release_all(rows, root, ids)->Ok_0.0, id) is None,
    ensures
        release_all(rows, root, ids)->Ok_0.1.contains(block_path(id, b.depth as nat, root)),
    decreases ids.len(),
{
    if ids.len() > 0 {
        let init = ids.drop_last();
        let so_far = release_all(rows, root, init)->Ok_0;
        let all = release_all(rows, root, ids)->Ok_0;
        let path = block_path(id, b.depth as nat, root);
        if block_at(so_far.0, id) is None {
            lemma_gone_is_freed(rows, root, init, id, b);
            let k = choose|k: int| 0 <= k < so_far.1.len() && so_far.1[k] == path;
            assert(all.1[k] == path);
        } else {
            if ids.last() != id {
                assert(block_row(ids.last()) != block_row(id));
            }
            lemma_release_keeps_depth(rows, root, init, id, b);
            assert(all.1[all.1.len() - 1] == path);
        }
    }
}

proof fn lemma_release_keeps_depth(
    rows: Rows,
    root: Seq<char>,
    ids: Seq<Seq<u8>>,
    id: Seq<u8>,
    b: Block,
)
    requires
        release_all(rows, root, ids) is Ok,
        block_at(rows, id) == Some(Ok::<Block, FsError>(b)),
        block_at(release_all(rows, root, ids)->Ok_0.0, id) is Some,
    ensures
        block_at(release_all(rows, root, ids)->Ok_0.0, id) matches Some(Ok(now)) && now.depth
            == b.depth,
    decreases ids.len(),
{
    if ids.len() > 0 {
        let init = ids.drop_last();
        let so_far = release_all(rows, root, init)->Ok_0.0;
        if ids.last() != id {
            assert(block_row(ids.last()) != block_row(id));
        }
        if block_at(so_far, id) is Some {
            lemma_release_keeps_depth(rows, root, init, id, b);
            let now = block_at(so_far, id)->Some_0->Ok_0;
            if now.rc > 0 {
                lemma_block_round_trip(Block { rc: (now.rc - 1) as usize, ..now });
            }
        }
    }
}

/// Whether the record of a block lost so many references: the rest of its count is
/// kept, and the record goes, and its file is freed, with the last one.
pub open spec fn lost(
    before: Rows,
    after: Rows,
    root: Seq<char>,
    id: Seq<u8>,
    n: nat,
    freed: Seq<Seq<char>>,
) -> bool {
    block_at(before, id) matches Some(Ok(b)) ==> b.rc >= n ==> if n > 0 && b.rc == n {
        block_at(after, id) is None && freed.contains(block_path(id, b.depth as nat, root))
    } else {
        block_at(after, id) matches Some(Ok(now)) && now.rc == b.rc - n && now.depth == b.depth
            && now.size == b.size && now.flags == b.flags
    }
}

proof fn lemma_released(rows: Rows, root: Seq<char>, ids: Seq<Seq<u8>>, id: Seq<u8>)
    requires
        release_all(rows, root, ids) is Ok,
    ensures
        lost(
            rows,
            release_all(rows, root, ids)->Ok_0.0,
            root,
            id,
            ids.to_multiset().count(id),
            release_all(rows, root, ids)->Ok_0.1,
        ),
{
    lemma_occurrences(ids, id);
    if let Some(Ok(b)) = block_at(rows, id) {
        if b.rc >= occurrences(ids, id) {
            lemma_release_counts(rows, root, ids, id, b);
            if 0 < occurrences(ids, id) && b.rc == occurrences(ids, id) {
                lemma_gone_is_freed(rows, root, ids, id, b);
            }
        }
    }
}

/// Deleting an object takes its record away and releases what it lists, once per
/// occurrence, whether it is stored in one piece or in parts: a block that is
/// counted at least as often loses so many references, and its file is freed with
/// the last one. Nothing else of either database changes, and what was freed before
/// stays. An object that is gone changes nothing.
pub proof fn lemma_object_deleted(
    t: Teardown,
    root: Seq<char>,
    bucket: Seq<char>,
    key: Seq<u8>,
    id: Seq<u8>,
)
    requires
        delete_step(t, root, bucket, key) is Ok,
    ensures
        ({
            let now = delete_step(t, root, bucket, key)->Ok_0;
            &&& now.deleted == t.deleted + 1
            &&& now.skipped == t.skipped
            &&& now.outcomes == t.outcomes
            &&& now.namespace == t.namespace.remove((bucket, key))
            &&& t.freed.is_prefix_of(now.freed)
            &&& lookup(t.namespace, bucket, key) matches Some(raw) ==> {
                &&& decode_object(raw) matches Ok(o)
                &&& o.data matches DataView::SinglePart(ids) ==> lost(
                    t.shared,
                    now.shared,
                    root,
                    id,
                    ids.to_multiset().count(id),
                    now.freed,
                )
                &&& o.data matches DataView::MultiPart(ids, _) ==> lost(
                    t.shared,
                    now.shared,
                    root,
                    id,
                    ids.to_multiset().count(id),
                    now.freed,
                )
                &&& o.data is Inline ==> now.shared == t.shared && now.freed == t.freed
            }
            &&& lookup(t.namespace, bucket, key) is None ==> now.shared == t.shared && now.freed
                == t.freed
            &&& forall|tree: Seq<char>, k: Seq<u8>|
                tree != "_BLOCKS"@ ==> #[trigger] lookup(now.shared, tree, k) == lookup(
                    t.shared,
                    tree,
                    k,
                )
        }),
{
    match lookup(t.namespace, bucket, key) {
        None => {
            assert(t.namespace.remove((bucket, key)) =~= t.namespace);
        },
        Some(raw) => {
            let o = decode_object(raw)->Ok_0;
            let ids = o.data.blocks();
            let (after, freed) = release_all(t.shared, root, ids)->Ok_0;
            lemma_released(t.shared, root, ids, id);
            lemma_release_rows(t.shared, root, ids);
            let now = delete_step(t, root, bucket, key)->Ok_0;
            if o.data is Inline {
                assert(ids =~= Seq::<Seq<u8>>::empty());
                assert(now.freed =~= t.freed);
            }
            if let Some(Ok(b)) = block_at(t.shared, id) {
                let path = block_path(id, b.depth as nat, root);
                if freed.contains(path) {
                    let k = choose|k: int| 0 <= k < freed.len() && freed[k] == path;
                    assert(now.freed[t.freed.len() + k] == path);
                }
            }
        },
    }
}

/// Reaping a part that is there takes its record away and releases what it lists,
/// once per occurrence, and is then applied; a part that is gone changes nothing
/// and is skipped; one that does not decode, or lists a block whose record does
/// not, is a failure that changes nothing.
pub proof fn lemma_part_reaped(rows: Rows, root: Seq<char>, key: Seq<u8>, id: Seq<u8>)
    ensures
        ({
            let (after, status, _, freed) = reap_step(rows, root, key);
            match lookup(rows, "_MULTIPART_PARTS"@, key) {
                None => after == rows && status is Skipped && freed.len() == 0,
                Some(raw) => match decode_part(raw) {
                    Err(_) => after == rows && status is Failed && freed.len() == 0,
                    Ok(p) => {
                        ||| after == rows && status is Failed && freed.len() == 0 && exists|k: int|
                            0 <= k < p.blocks.len() && (block_at(rows, #[trigger] p.blocks[k])
                                matches Some(r) && r is Err)
                        ||| {
                            &&& status is Applied
                            &&& lookup(after, "_MULTIPART_PARTS"@, key) is None
                            &&& lost(
                                rows,
                                after,
                                root,
                                id,
                                p.blocks.to_multiset().count(id),
                                freed,
                            )
                            &&& forall|tree: Seq<char>, k: Seq<u8>|
                                tree != "_BLOCKS"@ && !(tree == "_MULTIPART_PARTS"@ && k == key)
                                    ==> #[trigger] lookup(after, tree, k) == lookup(rows, tree, k)
                        }
                    },
                },
            }
        }),
{
    reveal_strlit("_BLOCKS");
    reveal_strlit("_MULTIPART_PARTS");
    assert("_BLOCKS"@.len() != "_MULTIPART_PARTS"@.len());
    if let Some(raw) = lookup(rows, "_MULTIPART_PARTS"@, key) {
        if let Ok(p) = decode_part(raw) {
            let taken = rows.remove(("_MULTIPART_PARTS"@, key));
            assert forall|other: Seq<u8>| #[trigger] block_at(taken, other) == block_at(
                rows,
                other,
            ) by {}
            if release_all(taken, root, p.blocks) is Ok {
                lemma_released(taken, root, p.blocks, id);
                lemma_release_rows(taken, root, p.blocks);
                assert(block_at(taken, id) == block_at(rows, id));
                let after = release_all(taken, root, p.blocks)->Ok_0.0;
                assert(lookup(after, "_MULTIPART_PARTS"@, key) == lookup(
                    taken,
                    "_MULTIPART_PARTS"@,
                    key,
                ));
                assert forall|tree: Seq<char>, k: Seq<u8>|
                    tree != "_BLOCKS"@ && !(tree == "_MULTIPART_PARTS"@ && k == key) implies
                    #[trigger] lookup(after, tree, k) == lookup(rows, tree, k) by {
                    assert(lookup(after, tree, k) == lookup(taken, tree, k));
                }
            } else {
                let k = lemma_release_refused(taken, root, p.blocks);
                assert(block_at(rows, p.blocks[k]) == block_at(taken, p.blocks[k]));
            }
        }
    }
}

/// Releasing is refused over a record that does not decode, and only over that.
proof fn lemma_release_refused(rows: Rows, root: Seq<char>, ids: Seq<Seq<u8>>) -> (k: int)
    requires
        release_all(rows, root, ids) is Err,
    ensures
        0 <= k < ids.len(),
        block_at(rows, ids[k]) matches Some(r) && r is Err,
    decreases ids.len(),
{
    let init = ids.drop_last();
    if release_all(rows, root, init) is Err {
        let k = lemma_release_refused(rows, root, init);
        assert(ids[k] == init[k]);
        k
    } else {
        lemma_release_keeps_damage(rows, root, init, ids.last());
        ids.len() - 1
    }
}

proof fn lemma_release_keeps_damage(rows: Rows, root: Seq<char>, ids: Seq<Seq<u8>>, id: Seq<u8>)
    requires
        release_all(rows, root, ids) is Ok,
        block_at(release_all(rows, root, ids)->Ok_0.0, id) matches Some(r) && r is Err,
    ensures
        block_at(rows, id) == block_at(release_all(rows, root, ids)->Ok_0.0, id),
    decreases ids.len(),
{
    if ids.len() > 0 {
        let init = ids.drop_last();
        let so_far = release_all(rows, root, init)->Ok_0.0;
        if ids.last() != id {
            assert(block_row(ids.last()) != block_row(id));
        } else if let Some(Ok(b)) = block_at(so_far, id) {
            if b.rc > 0 {
                lemma_block_round_trip(Block { rc: (b.rc - 1) as usize, ..b });
            }
        }
        lemma_release_keeps_damage(rows, root, init, id);
    }
}

/// A teardown that came to its end took every object with a text key away and passed
/// over every other one, and counted both. It took no row away but those.
pub proof fn lemma_all_deleted(t: Teardown, root: Seq<char>, bucket: Seq<char>, keys: Seq<Seq<u8>>)
    requires
        delete_all(t, root, bucket, keys) is Ok,
    ensures
        ({
            let done = delete_all(t, root, bucket, keys)->Ok_0;
            &&& done.deleted == t.deleted + keys.filter(|k: Seq<u8>| valid_utf8(k)).len()
            &&& done.deleted + done.skipped == t.deleted + t.skipped + keys.len()
            &&& forall|tree: Seq<char>, key: Seq<u8>|
                #[trigger] lookup(done.namespace, tree, key) == (if tree == bucket
                    && keys.contains(key) && valid_utf8(key) {
                    None
                } else {
                    lookup(t.namespace, tree, key)
                })
        }),
    decreases keys.len(),
{
    reveal(Seq::filter);
    if keys.len() > 0 {
        let init = keys.drop_last();
        let last = keys.last();
        lemma_all_deleted(t, root, bucket, init);
        let so_far = delete_all(t, root, bucket, init)->Ok_0;
        let done = delete_all(t, root, bucket, keys)->Ok_0;
        if valid_utf8(last) {
            lemma_object_deleted(so_far, root, bucket, last, last);
        }
        assert forall|tree: Seq<char>, key: Seq<u8>| #[trigger] lookup(done.namespace, tree, key)
            == (if tree == bucket && keys.contains(key) && valid_utf8(key) {
            None
        } else {
            lookup(t.namespace, tree, key)
        }) by {
            assert(lookup(so_far.namespace, tree, key) == (if tree == bucket && init.contains(key)
                && valid_utf8(key) {
                None
            } else {
                lookup(t.namespace, tree, key)
            }));
            if keys.contains(key) && key != last {
                let k = choose|k: int| 0 <= k < keys.len() && keys[k] == key;
                assert(init[k] == key);
            }
            if init.contains(key) {
                let k = choose|k: int| 0 <= k < init.len() && init[k] == key;
                assert(keys[k] == key);
            }
            if key == last {
                assert(keys[keys.len() - 1] == key);
            }
        }
    }
}

/// Whether one of some blocks has a record that does not decode.
pub open spec fn damaged_among(shared: Rows, ids: Seq<Seq<u8>>) -> bool {
    exists|k: int|
        0 <= k < ids.len() && (block_at(shared, #[trigger] ids[k]) matches Some(r) && r is Err)
}

/// Whether an object record lists a block whose own record does not decode.
pub open spec fn lists_damage(shared: Rows, data: DataView) -> bool {
    match data {
        DataView::SinglePart(ids) => damaged_among(shared, ids),
        DataView::MultiPart(ids, _) => damaged_among(shared, ids),
        DataView::Inline(_) => false,
    }
}

/// An object is refused deletion over damage alone: its own record does not decode,
/// and then nothing changed, or it lists a block whose record does not decode, and
/// then no reference was released.
pub proof fn lemma_delete_refused(t: Teardown, root: Seq<char>, bucket: Seq<char>, key: Seq<u8>)
    requires
        delete_step(t, root, bucket, key) is Err,
    ensures
        lookup(t.namespace, bucket, key) matches Some(raw) && match decode_object(raw) {
            Err(damage) => delete_step(t, root, bucket, key) == Err::<
                Teardown,
                (Teardown, FsError),
            >((t, damage)),
            Ok(o) => {
                &&& lists_damage(t.shared, o.data)
                &&& delete_step(t, root, bucket, key)->Err_0.0.shared == t.shared
                &&& delete_step(t, root, bucket, key)->Err_0.0.freed == t.freed
            },
        },
{
    let raw = lookup(t.namespace, bucket, key)->Some_0;
    if let Ok(o) = decode_object(raw) {
        let k = lemma_release_refused(t.shared, root, o.data.blocks());
        assert(damaged_among(t.shared, o.data.blocks()));
    }
}

/// No deletion damages a record of the shared database.
proof fn lemma_deletions_keep_damage(
    t: Teardown,
    root: Seq<char>,
    bucket: Seq<char>,
    keys: Seq<Seq<u8>>,
    id: Seq<u8>,
)
    requires
        delete_all(t, root, bucket, keys) is Ok,
        block_at(delete_all(t, root, bucket, keys)->Ok_0.shared, id) matches Some(r) && r is Err,
    ensures
        block_at(t.shared, id) == block_at(delete_all(t, root, bucket, keys)->Ok_0.shared, id),
    decreases keys.len(),
{
    if keys.len() > 0 {
        let init = keys.drop_last();
        let so_far = delete_all(t, root, bucket, init)->Ok_0;
        if valid_utf8(keys.last()) {
            if let Some(raw) = lookup(so_far.namespace, bucket, keys.last()) {
                let o = decode_object(raw)->Ok_0;
                lemma_release_keeps_damage(so_far.shared, root, o.data.blocks(), id);
            }
        }
        lemma_deletions_keep_damage(t, root, bucket, init, id);
    }
}

/// A teardown is refused over damage alone: among the objects with text keys there
/// is one whose record does not decode, or that lists a block whose record does not.
pub proof fn lemma_teardown_refused(
    t: Teardown,
    root: Seq<char>,
    bucket: Seq<char>,
    keys: Seq<Seq<u8>>,
) -> (k: int)
    requires
        delete_all(t, root, bucket, keys) is Err,
    ensures
        0 <= k < keys.len(),
        valid_utf8(keys[k]),
        lookup(t.namespace, bucket, keys[k]) matches Some(raw) && match decode_object(raw) {
            Err(_) => true,
            Ok(o) => lists_damage(t.shared, o.data),
        },
    decreases keys.len(),
{
    let init = keys.drop_last();
    if delete_all(t, root, bucket, init) is Err {
        let k = lemma_teardown_refused(t, root, bucket, init);
        assert(keys[k] == init[k]);
        k
    } else {
        let so_far = delete_all(t, root, bucket, init)->Ok_0;
        let key = keys.last();
        lemma_all_deleted(t, root, bucket, init);
        lemma_delete_refused(so_far, root, bucket, key);
        assert(lookup(so_far.namespace, bucket, key) is Some);
        assert(lookup(so_far.namespace, bucket, key) == lookup(t.namespace, bucket, key));
        let raw = lookup(t.namespace, bucket, key)->Some_0;
        if let Ok(o) = decode_object(raw) {
            let ids = o.data.blocks();
            let j = choose|j: int|
                0 <= j < ids.len() && (block_at(so_far.shared, #[trigger] ids[j]) matches Some(r)
                    && r is Err);
            lemma_deletions_keep_damage(t, root, bucket, init, ids[j]);
            assert(damaged_among(t.shared, ids));
        }
        keys.len() - 1
    }
}

/// How often the objects of a bucket under some text keys list a block.
pub open spec fn times_listed(
    rows: Rows,
    bucket: Seq<char>,
    keys: Seq<Seq<u8>>,
    id: Seq<u8>,
) -> nat
    decreases keys.len(),
{
    if keys.len() == 0 {
        0
    } else {
        let init = times_listed(rows, bucket, keys.drop_last(), id);
        match lookup(rows, bucket, keys.last()) {
            Some(raw) if valid_utf8(keys.last()) => match decode_object(raw) {
                Ok(o) => match o.data {
                    DataView::SinglePart(ids) | DataView::MultiPart(ids, _) => init
                        + ids.to_multiset().count(id),
                    DataView::Inline(_) => init,
                },
                Err(_) => init,
            },
            _ => init,
        }
    }
}

/// A teardown releases what its objects list: a block that is counted at least as
/// often as they list it loses so many references, and its record and its file go
/// with the last one.
pub proof fn lemma_teardown_releases(
    t: Teardown,
    root: Seq<char>,
    bucket: Seq<char>,
    keys: Seq<Seq<u8>>,
    id: Seq<u8>,
)
    requires
        delete_all(t, root, bucket, keys) is Ok,
        keys.no_duplicates(),
    ensures
        lost(
            t.shared,
            delete_all(t, root, bucket, keys)->Ok_0.shared,
            root,
            id,
            times_listed(t.namespace, bucket, keys, id),
            delete_all(t, root, bucket, keys)->Ok_0.freed,
        ),
    decreases keys.len(),
{
    if keys.len() > 0 {
        let init = keys.drop_last();
        let key = keys.last();
        let so_far = delete_all(t, root, bucket, init)->Ok_0;
        let done = delete_all(t, root, bucket, keys)->Ok_0;
        lemma_teardown_releases(t, root, bucket, init, id);
        lemma_all_deleted(t, root, bucket, init);
        assert(!init.contains(key)) by {
            if init.contains(key) {
                let j = choose|j: int| 0 <= j < init.len() && init[j] == key;
                assert(keys[j] == keys[keys.len() - 1]);
            }
        }
        assert(lookup(so_far.namespace, bucket, key) == lookup(t.namespace, bucket, key));
        if valid_utf8(key) {
            lemma_object_deleted(so_far, root, bucket, key, id);
            if let Some(raw) = lookup(so_far.namespace, bucket, key) {
                let o = decode_object(raw)->Ok_0;
                let ids = o.data.blocks();
                if !ids.contains(id) {
                    lemma_release_rows(so_far.shared, root, ids);
                    assert(lookup(done.shared, "_BLOCKS"@, id) == lookup(
                        so_far.shared,
                        "_BLOCKS"@,
                        id,
                    ));
                } else {
                    ids.to_multiset_ensures();
                    assert(ids.to_multiset().count(id) > 0);
                }
            }
            if let Some(Ok(b)) = block_at(t.shared, id) {
                let path = block_path(id, b.depth as nat, root);
                if so_far.freed.contains(path) {
                    let j = choose|j: int| 0 <= j < so_far.freed.len() && so_far.freed[j] == path;
                    assert(done.freed[j] == path);
                }
            }
        }
    }
}

/// What an action says it did is what it did: the count that was there, the one that
/// was set and the one it was planned from; the number of references that a part
/// held; the depths that a record moved between and the number of copies that went
/// with it; and the numbers of objects that a teardown deleted and passed over.
pub proof fn lemma_said_is_done(
    rows: Rows,
    root: Seq<char>,
    id: Seq<u8>,
    from: u64,
    to: u64,
    key: Seq<u8>,
    a: AdoptionView,
    deleted: nat,
    skipped: nat,
)
    ensures
        block_at(rows, id) matches Some(Ok(b)) ==> {
            let step = set_rc_step(rows, root, id, from, to).1;
            &&& b.rc != to && 0 < to <= usize::MAX ==> step == StepView::Finished(
                RepairStatus::Applied,
                "rc "@ + dec(b.rc as nat) + " -> "@ + dec(to as nat) + " (planned from "@ + dec(
                    from as nat,
                ) + ")"@,
            )
            &&& b.rc != to && to > usize::MAX ==> set_rc_step(rows, root, id, from, to).0 == rows
                && (step matches StepView::Finished(s, _) && s is Failed)
        },
        reap_step(rows, root, key).1 is Applied ==> (lookup(rows, "_MULTIPART_PARTS"@, key)
            matches Some(raw) && (decode_part(raw) matches Ok(p) && reap_step(rows, root, key).2
            == " removed, and the "@ + dec(p.blocks.len())
            + " block reference(s) it held released"@)),
        a.at + 1 == a.next && a.quarantined.len() == 0 ==> adopted_text(a) == "re-hashed "@
            + a.candidates[a.at as int].1 + " and it matches: the record moves from depth "@ + dec(
            a.record_depth as nat,
        ) + " to "@ + dec(a.candidates[a.at as int].0 as nat),
        a.at + 1 < a.next && a.quarantined.len() == 0 ==> adopted_text(a) == "re-hashed "@
            + a.candidates[a.at as int].1 + " and it matches: the record moves from depth "@ + dec(
            a.record_depth as nat,
        ) + " to "@ + dec(a.candidates[a.at as int].0 as nat) + (", "@ + dec(
            (a.next - a.at - 1) as nat,
        ) + " further copy/copies deleted"@),
        teardown_text(deleted, skipped) == "teardown resumed: "@ + dec(deleted)
            + " object(s) deleted through the striped path, "@ + dec(skipped)
            + " skipped, tree dropped"@,
{
    assert(adopted_text(a) + Seq::<char>::empty() =~= adopted_text(a));
    let head = "re-hashed "@ + a.candidates[a.at as int].1
        + " and it matches: the record moves from depth "@ + dec(a.record_depth as nat) + " to "@
        + dec(a.candidates[a.at as int].0 as nat);
    assert(head + Seq::<char>::empty() =~= head);
    let more = head + (", "@ + dec((a.next - a.at - 1) as nat) + " further copy/copies deleted"@);
    assert(more + Seq::<char>::empty() =~= more);
}

} // verus!
