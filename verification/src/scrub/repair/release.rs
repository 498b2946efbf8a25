//! The repair actions that remove holders: each takes a record away together
//! with the block references it held.

use vstd::prelude::*;
use vstd::slice::slice_to_vec;
use vstd::string::*;
use vstd::utf8::*;

use super::plan::held_back;
use super::summary::{add_outcome, outcome_views, OutcomeView, RepairOutcome, RepairStatus};
use super::{ended, ActionResult, Done, RepairContext};
use crate::cas::multipart::{decode_part, MultiPart, PartView};
use crate::cas::SharedBlockStore;
use crate::metastore::block::{
    block_disk_path, block_path, encode_block, lemma_block_round_trip, Block, BlockId,
};
use crate::metastore::codec::id_views;
use crate::metastore::errors::{FsError, MetaError};
use crate::metastore::meta_store::ops::{partly_dropped, without_bucket};
use crate::metastore::meta_store::transaction::{block_row, step};
use crate::metastore::meta_store::{
    block_at, BlockDecrement, MetaStore, Transaction, DEFAULT_BLOCK_TREE, MULTIPART_PARTS_TREE,
};
use crate::metastore::object::decode_object;
use crate::metastore::traits::{
    is_listed, lemma_listing, listing, lookup, pairs, tree_of, BaseMetaTree, Entries, KeyValuePairs,
    MetaTreeExt, Rows, Store, TransactionBackend,
};
use crate::scrub::findings::Severity;
use crate::scrub::holders::occurrences;
use crate::scrub::passes::buckets::stranded;
use crate::scrub::trees::{lemma_prefix, text_views};
use crate::text::{dec, dec_int, lossy, lossy_text, put_dec_int, put_len_dec, utf8_text};

verus! {

/// What releasing one reference to a block does to the rows, and the path of the
/// file that it frees. The last reference takes the record with it; a record
/// that counts nothing is left alone, as is a block without a record.
pub open spec fn release_one(rows: Rows, root: Seq<char>, id: Seq<u8>) -> Result<
    (Rows, Option<Seq<char>>),
    FsError,
> {
    match block_at(rows, id) {
        None => Ok((rows, None)),
        Some(Err(damage)) => Err(damage),
        Some(Ok(b)) => if b.rc == 0 {
            Ok((rows, None))
        } else if b.rc == 1 {
            Ok((rows.remove(block_row(id)), Some(block_path(id, b.depth as nat, root))))
        } else {
            Ok(
                (
                    rows.insert(
                        block_row(id),
                        encode_block(Block { rc: (b.rc - 1) as usize, ..b }),
                    ),
                    None,
                ),
            )
        },
    }
}

/// What releasing references, one per occurrence, does to the rows, and the
/// paths of the files that it frees; or the first record that does not decode.
pub open spec fn release_all(rows: Rows, root: Seq<char>, ids: Seq<Seq<u8>>) -> Result<
    (Rows, Seq<Seq<char>>),
    FsError,
>
    decreases ids.len(),
{
    if ids.len() == 0 {
        Ok((rows, Seq::empty()))
    } else {
        match release_all(rows, root, ids.drop_last()) {
            Err(damage) => Err(damage),
            Ok((so_far, freed)) => match release_one(so_far, root, ids.last()) {
                Err(damage) => Err(damage),
                Ok((after, None)) => Ok((after, freed)),
                Ok((after, Some(path))) => Ok((after, freed.push(path))),
            },
        }
    }
}

proof fn lemma_release_stop(rows: Rows, root: Seq<char>, ids: Seq<Seq<u8>>, n: int)
    requires
        0 <= n <= ids.len(),
        release_all(rows, root, ids.subrange(0, n)) is Err,
    ensures
        release_all(rows, root, ids) == release_all(rows, root, ids.subrange(0, n)),
    decreases ids.len() - n,
{
    if n == ids.len() {
        assert(ids.subrange(0, n) =~= ids);
    } else {
        lemma_prefix(ids, n);
        lemma_release_stop(rows, root, ids, n + 1);
    }
}

/// Releasing drops exactly the occurrences: a block that is counted at least as
/// often as it is released keeps the rest of its count, and its record goes with
/// the last reference.
pub proof fn lemma_release_counts(
    rows: Rows,
    root: Seq<char>,
    ids: Seq<Seq<u8>>,
    id: Seq<u8>,
    b: Block,
)
    requires
        block_at(rows, id) == Some(Ok::<Block, FsError>(b)),
        b.rc >= occurrences(ids, id),
        release_all(rows, root, ids) is Ok,
    ensures
        block_at(release_all(rows, root, ids)->Ok_0.0, id) == (if 0 < occurrences(ids, id)
            && b.rc == occurrences(ids, id) {
            None
        } else {
            Some(
                Ok::<Block, FsError>(Block { rc: (b.rc - occurrences(ids, id)) as usize, ..b }),
            )
        }),
    decreases ids.len(),
{
    if ids.len() > 0 {
        let init = ids.drop_last();
        let n = occurrences(init, id);
        lemma_release_counts(rows, root, init, id, b);
        let before = release_all(rows, root, init)->Ok_0.0;
        let last = ids.last();
        if last == id {
            lemma_block_round_trip(Block { rc: (b.rc - n - 1) as usize, ..b });
        } else {
            assert(block_row(last) != block_row(id));
            let after = release_all(rows, root, ids)->Ok_0.0;
            assert(block_at(after, id) == block_at(before, id));
        }
    }
}

/// Releasing neither makes records nor moves them.
proof fn lemma_release_depth(rows: Rows, root: Seq<char>, ids: Seq<Seq<u8>>, id: Seq<u8>)
    requires
        release_all(rows, root, ids) is Ok,
    ensures
        block_at(release_all(rows, root, ids)->Ok_0.0, id) matches Some(Ok(now)) ==> (block_at(
            rows,
            id,
        ) matches Some(Ok(b)) && b.depth == now.depth),
        block_at(rows, id) is None ==> block_at(release_all(rows, root, ids)->Ok_0.0, id) is None,
    decreases ids.len(),
{
    if ids.len() > 0 {
        lemma_release_depth(rows, root, ids.drop_last(), id);
        let so_far = release_all(rows, root, ids.drop_last())->Ok_0.0;
        let last = ids.last();
        if last == id {
            match block_at(so_far, id) {
                Some(Ok(b)) => {
                    lemma_block_round_trip(Block { rc: (b.rc - 1) as usize, ..b });
                },
                _ => {},
            }
        } else {
            assert(block_row(last) != block_row(id));
        }
    }
}

/// Whether a path is that of the file of a block whose record went.
pub open spec fn was_freed(
    rows: Rows,
    after: Rows,
    root: Seq<char>,
    id: Seq<u8>,
    path: Seq<char>,
) -> bool {
    &&& block_at(rows, id) matches Some(Ok(b))
    &&& path == block_path(id, b.depth as nat, root)
    &&& block_at(after, id) is None
}

/// Only files that nothing names are freed: every path is the one that the record
/// of a released block named, and that record is gone.
pub proof fn lemma_freed_unrecorded(rows: Rows, root: Seq<char>, ids: Seq<Seq<u8>>, i: int) -> (id:
    Seq<u8>)
    requires
        release_all(rows, root, ids) is Ok,
        0 <= i < release_all(rows, root, ids)->Ok_0.1.len(),
    ensures
        ids.contains(id),
        was_freed(
            rows,
            release_all(rows, root, ids)->Ok_0.0,
            root,
            id,
            release_all(rows, root, ids)->Ok_0.1[i],
        ),
    decreases ids.len(),
{
    let init = ids.drop_last();
    let last = ids.last();
    let so_far = release_all(rows, root, init)->Ok_0;
    lemma_release_depth(rows, root, init, last);
    if i < so_far.1.len() {
        let id = lemma_freed_unrecorded(rows, root, init, i);
        let k = choose|k: int| 0 <= k < init.len() && init[k] == id;
        assert(ids[k] == id);
        if id != last {
            assert(block_row(last) != block_row(id));
        }
        id
    } else {
        assert(ids[ids.len() - 1] == last);
        last
    }
}

/// Releases references inside a transaction, one per occurrence.
fn release_staged<B: Store>(
    tx: &mut Transaction<'_, B>,
    root: &str,
    ids: &[BlockId],
    freed: &mut Vec<String>,
) -> (out: Result<(), MetaError>)
    ensures
        step(*old(tx).store, *final(tx).store),
        *final(final(tx).store) == *final(old(tx).store),
        match out {
            Ok(()) => release_all(old(tx).staged(), root@, id_views(ids@)) matches Ok((
                after,
                paths,
            )) && final(tx).staged() == after && text_views(final(freed)@) == text_views(
                old(freed)@,
            ) + paths,
            Err(e) => old(tx).healthy() ==> (release_all(
                old(tx).staged(),
                root@,
                id_views(ids@),
            ) matches Err(damage) && e == MetaError::Corruption(damage)),
        },
{
    let ghost rows = tx.staged();
    let ghost views = id_views(ids@);
    let ghost start = text_views(freed@);
    let ghost healthy = tx.healthy();
    let mut i: usize = 0;
    proof {
        assert(views.subrange(0, 0) =~= Seq::<Seq<u8>>::empty());
        assert(start + Seq::<Seq<char>>::empty() =~= start);
    }
    while i < ids.len()
        invariant
            i <= ids@.len(),
            views == id_views(ids@),
            rows == old(tx).staged(),
            start == text_views(old(freed)@),
            healthy == old(tx).healthy(),
            step(*old(tx).store, *tx.store),
            *final(tx.store) == *final(old(tx).store),
            release_all(rows, root@, views.subrange(0, i as int)) is Ok,
            tx.staged() == release_all(rows, root@, views.subrange(0, i as int))->Ok_0.0,
            text_views(freed@) == start + release_all(
                rows,
                root@,
                views.subrange(0, i as int),
            )->Ok_0.1,
        decreases ids@.len() - i,
    {
        let id = ids[i];
        let ghost so_far = tx.staged();
        let ghost paths = release_all(rows, root@, views.subrange(0, i as int))->Ok_0.1;
        proof {
            lemma_prefix(views, i as int);
            assert(views[i as int] == id@);
        }
        let counts = match tx.get_block_record(id) {
            Err(e) => {
                proof {
                    if healthy {
                        lemma_release_stop(rows, root@, views, i + 1);
                    }
                }
                return Err(e);
            },
            Ok(None) => false,
            Ok(Some(b)) => b.rc() > 0,
        };
        if counts {
            match tx.decrement_block_rc(id) {
                Err(e) => {
                    return Err(e);
                },
                Ok(BlockDecrement::Removed(b)) => {
                    let path = block_disk_path(&id, b.depth(), root.to_owned());
                    let ghost before = freed@;
                    freed.push(path);
                    proof {
                        assert(text_views(freed@) =~= text_views(before).push(path@));
                        assert((start + paths).push(path@) =~= start + paths.push(path@));
                    }
                },
                Ok(_) => {},
            }
        }
        i = i + 1;
    }
    proof {
        assert(views.subrange(0, views.len() as int) =~= views);
    }
    Ok(())
}

/// Releases references, one per occurrence: all of them, or, where that fails,
/// none. The files that are freed are to be unlinked.
pub fn release_blocks<B: Store>(
    shared: &mut SharedBlockStore<B>,
    ids: &[BlockId],
    freed: &mut Vec<String>,
) -> (out: Result<(), MetaError>)
    ensures
        ({
            let rows = old(shared).meta.store.committed();
            let want = release_all(rows, old(shared).blocks_root@, id_views(ids@));
            match out {
                Ok(()) => want matches Ok((after, paths)) && final(shared).meta.store.committed()
                    == after && text_views(final(freed)@) == text_views(old(freed)@) + paths,
                Err(e) => {
                    &&& old(shared).meta.store.healthy() ==> (want matches Err(damage) && e
                        == MetaError::Corruption(damage) && final(shared).meta.store.committed()
                        == rows)
                    &&& final(shared).meta.store.committed() == rows || (want matches Ok((
                        after,
                        _,
                    )) && final(shared).meta.store.committed() == after)
                    &&& final(freed)@ == old(freed)@
                },
            }
        }),
        final(shared).blocks_root == old(shared).blocks_root,
        final(shared).hasher == old(shared).hasher,
        old(shared).meta.store.healthy() ==> final(shared).meta.store.healthy(),
{
    let root = shared.blocks_root.as_str().to_owned();
    let mut paths: Vec<String> = Vec::new();
    let ghost had = text_views(freed@);
    proof {
        assert(text_views(paths@) =~= Seq::<Seq<char>>::empty());
    }
    let mut tx = shared.meta.begin_transaction();
    match release_staged(&mut tx, &root, ids, &mut paths) {
        Err(e) => {
            tx.rollback();
            return Err(e);
        },
        Ok(()) => {},
    }
    match tx.commit() {
        Err(e) => {
            return Err(e);
        },
        Ok(()) => {},
    }
    let ghost new = text_views(paths@);
    let ghost before = freed@;
    let ghost added = paths@;
    freed.append(&mut paths);
    proof {
        assert(text_views(freed@) =~= text_views(before) + text_views(added));
        let want = release_all(
            old(shared).meta.store.committed(),
            root@,
            id_views(ids@),
        )->Ok_0.1;
        assert(Seq::<Seq<char>>::empty() + want =~= want);
    }
    Ok(())
}

/// How a part is named in what is reported of it.
pub open spec fn part_text(
    bucket: Seq<char>,
    key: Seq<char>,
    upload_id: Seq<char>,
    part_number: int,
) -> Seq<char> {
    "part "@ + dec_int(part_number) + " of upload "@ + upload_id + " ("@ + bucket + "/"@ + key
        + ")"@
}

/// What reaping a part does to the rows; what is reported of it, behind the name
/// of the part; and the paths of the files that it frees.
pub open spec fn reap_step(rows: Rows, root: Seq<char>, storage_key: Seq<u8>) -> (
    Rows,
    RepairStatus,
    Seq<char>,
    Seq<Seq<char>>,
) {
    match lookup(rows, MULTIPART_PARTS_TREE@, storage_key) {
        None => (
            rows,
            RepairStatus::Skipped,
            " is already gone, so there was nothing to release"@,
            Seq::empty(),
        ),
        Some(raw) => match decode_part(raw) {
            Err(damage) => (rows, RepairStatus::Failed, unreaped(damage), Seq::empty()),
            Ok(part) => match release_all(
                rows.remove((MULTIPART_PARTS_TREE@, storage_key)),
                root,
                part.blocks,
            ) {
                Err(damage) => (rows, RepairStatus::Failed, unreaped(damage), Seq::empty()),
                Ok((after, freed)) => (
                    after,
                    RepairStatus::Applied,
                    " removed, and the "@ + dec(part.blocks.len())
                        + " block reference(s) it held released"@,
                    freed,
                ),
            },
        },
    }
}

/// What is said of a part that could not be reaped, behind its name.
pub open spec fn unreaped(damage: FsError) -> Seq<char> {
    " could not be reaped: "@ + MetaError::Corruption(damage).text()
        + ". Its blocks stay referenced by the record that survives, which is the over-count direction, and the next run retries"@
}

/// Takes a part record and the references it held: both, or neither. Returns the
/// part, or nothing where the record was gone already.
pub fn reap_part<B: Store>(
    shared: &mut SharedBlockStore<B>,
    storage_key: &[u8],
    freed: &mut Vec<String>,
) -> (out: Result<Option<MultiPart>, MetaError>)
    ensures
        ({
            let rows = old(shared).meta.store.committed();
            let after = final(shared).meta.store.committed();
            let root = old(shared).blocks_root@;
            match out {
                Ok(None) => {
                    &&& lookup(rows, MULTIPART_PARTS_TREE@, storage_key@) is None
                    &&& after == rows
                    &&& final(freed)@ == old(freed)@
                },
                Ok(Some(part)) => {
                    &&& lookup(rows, MULTIPART_PARTS_TREE@, storage_key@) matches Some(raw)
                    &&& decode_part(raw) == Ok::<PartView, FsError>(part@)
                    &&& release_all(
                        rows.remove((MULTIPART_PARTS_TREE@, storage_key@)),
                        root,
                        part@.blocks,
                    ) matches Ok((released, paths))
                    &&& after == released
                    &&& text_views(final(freed)@) == text_views(old(freed)@) + paths
                },
                Err(e) => {
                    &&& final(freed)@ == old(freed)@
                    &&& after == rows || after == reap_step(rows, root, storage_key@).0
                    &&& old(shared).meta.store.healthy() ==> {
                        &&& after == rows
                        &&& lookup(rows, MULTIPART_PARTS_TREE@, storage_key@) matches Some(raw)
                        &&& match decode_part(raw) {
                            Err(damage) => e == MetaError::Corruption(damage),
                            Ok(part) => release_all(
                                rows.remove((MULTIPART_PARTS_TREE@, storage_key@)),
                                root,
                                part.blocks,
                            ) matches Err(damage) && e == MetaError::Corruption(damage),
                        }
                    }
                },
            }
        }),
        final(shared).blocks_root == old(shared).blocks_root,
        final(shared).hasher == old(shared).hasher,
        old(shared).meta.store.healthy() ==> final(shared).meta.store.healthy(),
{
    let root = shared.blocks_root.as_str().to_owned();
    let mut paths: Vec<String> = Vec::new();
    proof {
        assert(text_views(paths@) =~= Seq::<Seq<char>>::empty());
    }
    let mut tx = shared.meta.begin_transaction();
    let raw = match tx.take_part(storage_key) {
        Err(e) => {
            tx.rollback();
            return Err(e);
        },
        Ok(None) => {
            tx.rollback();
            return Ok(None);
        },
        Ok(Some(raw)) => raw,
    };
    let part = match MultiPart::try_from(&raw) {
        Err(damage) => {
            tx.rollback();
            return Err(MetaError::Corruption(damage));
        },
        Ok(part) => part,
    };
    match release_staged(&mut tx, &root, &part.blocks, &mut paths) {
        Err(e) => {
            tx.rollback();
            return Err(e);
        },
        Ok(()) => {},
    }
    match tx.commit() {
        Err(e) => {
            return Err(e);
        },
        Ok(()) => {},
    }
    let ghost before = freed@;
    let ghost added = paths@;
    freed.append(&mut paths);
    proof {
        assert(text_views(freed@) =~= text_views(before) + text_views(added));
        let want = release_all(
            old(shared).meta.store.committed().remove((MULTIPART_PARTS_TREE@, storage_key@)),
            root@,
            part@.blocks,
        )->Ok_0.1;
        assert(Seq::<Seq<char>>::empty() + want =~= want);
    }
    Ok(Some(part))
}

/// Reaps a part record no upload record owns: the record and the block
/// references it held leave together. One that is gone already is a skip, so a
/// killed repair can be run again.
pub fn reap_orphan_part<B: Store>(
    shared: &mut SharedBlockStore<B>,
    bucket: &str,
    key: &str,
    upload_id: &str,
    part_number: i64,
    storage_key: &[u8],
    freed: &mut Vec<String>,
) -> (out: ActionResult)
    ensures
        ({
            let rows = old(shared).meta.store.committed();
            let after = final(shared).meta.store.committed();
            let want = reap_step(rows, old(shared).blocks_root@, storage_key@);
            let name = part_text(bucket@, key@, upload_id@, part_number as int);
            ||| {
                &&& after == want.0
                &&& ended(out) == (want.1, name + want.2)
                &&& text_views(final(freed)@) == text_views(old(freed)@) + want.3
            }
            ||| {
                &&& !old(shared).meta.store.healthy()
                &&& ended(out).0 is Failed
                &&& after == rows || after == want.0
                &&& final(freed)@ == old(freed)@
            }
        }),
        final(shared).blocks_root == old(shared).blocks_root,
        final(shared).hasher == old(shared).hasher,
        old(shared).meta.store.healthy() ==> final(shared).meta.store.healthy(),
{
    let ghost name = part_text(bucket@, key@, upload_id@, part_number as int);
    let ghost had = text_views(freed@);
    let mut text = "part ".to_owned();
    put_dec_int(&mut text, part_number);
    text.append(" of upload ");
    text.append(upload_id);
    text.append(" (");
    text.append(bucket);
    text.append("/");
    text.append(key);
    text.append(")");
    proof {
        assert(text@ == name);
        assert(had + Seq::<Seq<char>>::empty() =~= had);
    }
    match reap_part(shared, storage_key, freed) {
        Ok(Some(part)) => {
            text.append(" removed, and the ");
            put_len_dec(&mut text, part.blocks.len());
            text.append(" block reference(s) it held released");
            proof {
                assert(part@.blocks.len() == part.blocks@.len());
                assert(text@ =~= name + (" removed, and the "@ + dec(part@.blocks.len())
                    + " block reference(s) it held released"@));
            }
            Ok(Done::Applied(text))
        },
        Ok(None) => {
            text.append(" is already gone, so there was nothing to release");
            Ok(Done::Skipped(text))
        },
        Err(e) => {
            text.append(" could not be reaped: ");
            text.append(&e.to_string());
            text.append(
                ". Its blocks stay referenced by the record that survives, which is the over-count direction, and the next run retries",
            );
            proof {
                let tail = " could not be reaped: "@ + e.text()
                    + ". Its blocks stay referenced by the record that survives, which is the over-count direction, and the next run retries"@;
                assert(text@ =~= name + tail);
            }
            Err(text)
        },
    }
}

/// The two databases in the middle of a teardown, what was done so far, and the
/// files that were freed.
pub ghost struct Teardown {
    pub namespace: Rows,
    pub shared: Rows,
    pub deleted: nat,
    pub skipped: nat,
    pub freed: Seq<Seq<char>>,
    pub outcomes: Seq<OutcomeView>,
}

/// What deleting one object does: its record goes, and then the references it
/// held; or the first record in its way.
pub open spec fn delete_step(t: Teardown, root: Seq<char>, bucket: Seq<char>, key: Seq<u8>) -> Result<
    Teardown,
    (Teardown, FsError),
> {
    match lookup(t.namespace, bucket, key) {
        None => Ok(Teardown { deleted: t.deleted + 1, ..t }),
        Some(raw) => match decode_object(raw) {
            Err(damage) => Err((t, damage)),
            Ok(object) => {
                let taken = Teardown { namespace: t.namespace.remove((bucket, key)), ..t };
                match release_all(t.shared, root, object.data.blocks()) {
                    Err(damage) => Err((taken, damage)),
                    Ok((after, freed)) => Ok(
                        Teardown {
                            shared: after,
                            deleted: t.deleted + 1,
                            freed: t.freed + freed,
                            ..taken
                        },
                    ),
                }
            },
        },
    }
}

/// Whether a teardown stands where deleting one object stopped for want of an
/// answer: the record may be gone, and, where it is, the references too; no file
/// was freed and nothing was said.
pub open spec fn half_deleted(
    t: Teardown,
    now: Teardown,
    root: Seq<char>,
    bucket: Seq<char>,
    key: Seq<u8>,
) -> bool {
    &&& now.freed == t.freed
    &&& now.outcomes == t.outcomes
    &&& now.namespace == t.namespace || now.namespace == t.namespace.remove((bucket, key))
    &&& now.shared == t.shared || (delete_step(t, root, bucket, key) matches Ok(next)
        && now.namespace == next.namespace && now.shared == next.shared)
}

/// What is said of an object whose key is not text.
pub open spec fn unnamed_object(bucket: Seq<char>, key: Seq<u8>) -> OutcomeView {
    held_back(
        "resume_bucket_teardown"@,
        "object key "@ + lossy(key) + " in "@ + bucket
            + " is not UTF-8, so the striped delete path cannot name it: the record goes with the tree and the recount reconciles its block references"@,
    )
}

/// What deleting objects does, one after the other. One whose key is not text is
/// passed over.
pub open spec fn delete_all(
    t: Teardown,
    root: Seq<char>,
    bucket: Seq<char>,
    keys: Seq<Seq<u8>>,
) -> Result<Teardown, (Teardown, Seq<u8>, FsError)>
    decreases keys.len(),
{
    if keys.len() == 0 {
        Ok(t)
    } else {
        let key = keys.last();
        match delete_all(t, root, bucket, keys.drop_last()) {
            Err(why) => Err(why),
            Ok(so_far) => if valid_utf8(key) {
                match delete_step(so_far, root, bucket, key) {
                    Ok(next) => Ok(next),
                    Err((left, damage)) => Err((left, key, damage)),
                }
            } else {
                Ok(
                    Teardown {
                        skipped: so_far.skipped + 1,
                        outcomes: so_far.outcomes.push(unnamed_object(bucket, key)),
                        ..so_far
                    },
                )
            },
        }
    }
}

/// Whether a path is that of the file of some block whose record went.
pub open spec fn named_by_none(rows: Rows, after: Rows, root: Seq<char>, path: Seq<char>) -> bool {
    exists|id: Seq<u8>| #[trigger] was_freed(rows, after, root, id, path)
}

/// Whether every file freed since some place of a list was that of a block whose
/// record went.
pub open spec fn frees_unrecorded(
    rows: Rows,
    after: Rows,
    root: Seq<char>,
    freed: Seq<Seq<char>>,
    from: nat,
) -> bool {
    forall|i: int|
        from <= i < freed.len() ==> named_by_none(rows, after, root, #[trigger] freed[i])
}

/// Deleting an object frees only files that nothing names any more, and makes no
/// block record.
proof fn lemma_delete_step_frees(
    t: Teardown,
    root: Seq<char>,
    bucket: Seq<char>,
    key: Seq<u8>,
    now: Teardown,
)
    requires
        match delete_step(t, root, bucket, key) {
            Ok(next) => now == next,
            Err((left, _)) => now == left,
        },
    ensures
        now.freed.len() >= t.freed.len(),
        now.freed.subrange(0, t.freed.len() as int) == t.freed,
        frees_unrecorded(t.shared, now.shared, root, now.freed, t.freed.len()),
        forall|id: Seq<u8>| #[trigger]
            block_at(t.shared, id) is None ==> block_at(now.shared, id) is None,
        forall|id: Seq<u8>| #[trigger]
            block_at(now.shared, id) matches Some(Ok(b)) ==> (block_at(t.shared, id) matches Some(
                Ok(was),
            ) && was.depth == b.depth),
{
    assert(t.freed.subrange(0, t.freed.len() as int) =~= t.freed);
    if let Some(raw) = lookup(t.namespace, bucket, key) {
        if let Ok(object) = decode_object(raw) {
            let ids = object.data.blocks();
            if let Ok((after, freed)) = release_all(t.shared, root, ids) {
                assert((t.freed + freed).subrange(0, t.freed.len() as int) =~= t.freed);
                assert forall|i: int| t.freed.len() <= i < now.freed.len() implies named_by_none(
                    t.shared,
                    now.shared,
                    root,
                    #[trigger] now.freed[i],
                ) by {
                    let id = lemma_freed_unrecorded(t.shared, root, ids, i - t.freed.len());
                    assert(was_freed(t.shared, now.shared, root, id, now.freed[i]));
                }
                assert forall|id: Seq<u8>| #[trigger] block_at(t.shared, id) is None implies
                    block_at(now.shared, id) is None by {
                    lemma_release_depth(t.shared, root, ids, id);
                }
                assert forall|id: Seq<u8>| #[trigger]
                    block_at(now.shared, id) matches Some(Ok(b)) implies (block_at(
                    t.shared,
                    id,
                ) matches Some(Ok(was)) && was.depth == block_at(now.shared, id)->Some_0->Ok_0.depth)
                    by {
                    lemma_release_depth(t.shared, root, ids, id);
                }
            }
        }
    }
}

/// Deleting objects frees only files that nothing names any more, however far it
/// comes.
pub proof fn lemma_delete_frees(
    t: Teardown,
    root: Seq<char>,
    bucket: Seq<char>,
    keys: Seq<Seq<u8>>,
    now: Teardown,
)
    requires
        match delete_all(t, root, bucket, keys) {
            Ok(done) => now == done,
            Err((left, _, _)) => now == left,
        },
    ensures
        now.freed.len() >= t.freed.len(),
        now.freed.subrange(0, t.freed.len() as int) == t.freed,
        frees_unrecorded(t.shared, now.shared, root, now.freed, t.freed.len()),
        forall|id: Seq<u8>| #[trigger]
            block_at(now.shared, id) matches Some(Ok(b)) ==> (block_at(t.shared, id) matches Some(
                Ok(was),
            ) && was.depth == b.depth),
    decreases keys.len(),
{
    assert(t.freed.subrange(0, t.freed.len() as int) =~= t.freed);
    if keys.len() > 0 {
        match delete_all(t, root, bucket, keys.drop_last()) {
            Err((left, _, _)) => {
                lemma_delete_frees(t, root, bucket, keys.drop_last(), left);
            },
            Ok(so_far) => {
                lemma_delete_frees(t, root, bucket, keys.drop_last(), so_far);
                if valid_utf8(keys.last()) {
                    lemma_delete_step_frees(so_far, root, bucket, keys.last(), now);
                    lemma_frees_joined(t, so_far, now, root);
                }
            },
        }
    }
}

/// What two deletions one after the other free, nothing names any more.
proof fn lemma_frees_joined(t: Teardown, mid: Teardown, now: Teardown, root: Seq<char>)
    requires
        t.freed.len() <= mid.freed.len() <= now.freed.len(),
        mid.freed.subrange(0, t.freed.len() as int) == t.freed,
        now.freed.subrange(0, mid.freed.len() as int) == mid.freed,
        frees_unrecorded(t.shared, mid.shared, root, mid.freed, t.freed.len()),
        frees_unrecorded(mid.shared, now.shared, root, now.freed, mid.freed.len()),
        forall|id: Seq<u8>| #[trigger]
            block_at(mid.shared, id) is None ==> block_at(now.shared, id) is None,
        forall|id: Seq<u8>| #[trigger]
            block_at(mid.shared, id) matches Some(Ok(b)) ==> (block_at(t.shared, id) matches Some(
                Ok(was),
            ) && was.depth == b.depth),
    ensures
        now.freed.subrange(0, t.freed.len() as int) == t.freed,
        frees_unrecorded(t.shared, now.shared, root, now.freed, t.freed.len()),
{
    assert forall|i: int| 0 <= i < mid.freed.len() implies now.freed[i] == mid.freed[i] by {
        assert(now.freed.subrange(0, mid.freed.len() as int)[i] == mid.freed[i]);
    }
    assert(now.freed.subrange(0, t.freed.len() as int) =~= mid.freed.subrange(
        0,
        t.freed.len() as int,
    ));
    assert forall|i: int| t.freed.len() <= i < now.freed.len() implies named_by_none(
        t.shared,
        now.shared,
        root,
        #[trigger] now.freed[i],
    ) by {
        if i < mid.freed.len() {
            assert(named_by_none(t.shared, mid.shared, root, mid.freed[i]));
            let id = choose|id: Seq<u8>| #[trigger]
                was_freed(t.shared, mid.shared, root, id, mid.freed[i]);
            assert(was_freed(t.shared, now.shared, root, id, now.freed[i]));
        } else {
            let id = choose|id: Seq<u8>| #[trigger]
                was_freed(mid.shared, now.shared, root, id, now.freed[i]);
            assert(was_freed(t.shared, now.shared, root, id, now.freed[i]));
        }
    }
}

/// An object that is half deleted changes nothing about what was freed before it.
pub proof fn lemma_half_deleted_frees(
    t: Teardown,
    left: Teardown,
    now: Teardown,
    root: Seq<char>,
    bucket: Seq<char>,
    key: Seq<u8>,
)
    requires
        half_deleted(left, now, root, bucket, key),
        frees_unrecorded(t.shared, left.shared, root, left.freed, t.freed.len()),
    ensures
        frees_unrecorded(t.shared, now.shared, root, now.freed, t.freed.len()),
{
    if now.shared != left.shared {
        let next = delete_step(left, root, bucket, key)->Ok_0;
        lemma_delete_step_frees(left, root, bucket, key, next);
        assert forall|i: int| t.freed.len() <= i < now.freed.len() implies named_by_none(
            t.shared,
            now.shared,
            root,
            #[trigger] now.freed[i],
        ) by {
            assert(named_by_none(t.shared, left.shared, root, left.freed[i]));
            let id = choose|id: Seq<u8>| #[trigger]
                was_freed(t.shared, left.shared, root, id, left.freed[i]);
            assert(was_freed(t.shared, now.shared, root, id, now.freed[i]));
        }
    }
}

/// Reaping a part frees only files that nothing names any more.
pub proof fn lemma_reap_frees(
    rows: Rows,
    root: Seq<char>,
    storage_key: Seq<u8>,
    freed: (Seq<Seq<char>>, Seq<Seq<char>>),
)
    ensures
        ({
            let want = reap_step(rows, root, storage_key);
            freed.1 == freed.0 + want.3 ==> {
                &&& freed.1.subrange(0, freed.0.len() as int) == freed.0
                &&& frees_unrecorded(rows, want.0, root, freed.1, freed.0.len())
            }
        }),
{
    let want = reap_step(rows, root, storage_key);
    if freed.1 == freed.0 + want.3 {
        assert(freed.1.subrange(0, freed.0.len() as int) =~= freed.0);
        let taken = rows.remove((MULTIPART_PARTS_TREE@, storage_key));
        reveal_strlit("_BLOCKS");
        reveal_strlit("_MULTIPART_PARTS");
        assert(DEFAULT_BLOCK_TREE@.len() != MULTIPART_PARTS_TREE@.len());
        assert forall|i: int| freed.0.len() <= i < freed.1.len() implies named_by_none(
            rows,
            want.0,
            root,
            #[trigger] freed.1[i],
        ) by {
            let raw = lookup(rows, MULTIPART_PARTS_TREE@, storage_key)->Some_0;
            let ids = decode_part(raw)->Ok_0.blocks;
            let id = lemma_freed_unrecorded(taken, root, ids, i - freed.0.len());
            assert(block_at(taken, id) == block_at(rows, id));
            assert(was_freed(rows, want.0, root, id, freed.1[i]));
        }
    }
}

/// What is said of the objects among some whose keys are not text, in order.
pub open spec fn unnamed_objects(bucket: Seq<char>, keys: Seq<Seq<u8>>) -> Seq<OutcomeView>
    decreases keys.len(),
{
    if keys.len() == 0 {
        Seq::empty()
    } else {
        let init = unnamed_objects(bucket, keys.drop_last());
        if valid_utf8(keys.last()) {
            init
        } else {
            init.push(unnamed_object(bucket, keys.last()))
        }
    }
}

/// Deleting objects says something of those alone whose keys are not text, as
/// far as it came.
pub proof fn lemma_delete_says(
    t: Teardown,
    root: Seq<char>,
    bucket: Seq<char>,
    keys: Seq<Seq<u8>>,
) -> (n: int)
    ensures
        0 <= n <= keys.len(),
        match delete_all(t, root, bucket, keys) {
            Ok(done) => n == keys.len() && done.outcomes == t.outcomes + unnamed_objects(
                bucket,
                keys,
            ),
            Err((left, key, _)) => n < keys.len() && key == keys[n] && left.outcomes == t.outcomes
                + unnamed_objects(bucket, keys.subrange(0, n)),
        },
    decreases keys.len(),
{
    if keys.len() == 0 {
        assert(t.outcomes + unnamed_objects(bucket, keys) =~= t.outcomes);
        0
    } else {
        let init = keys.drop_last();
        let n = lemma_delete_says(t, root, bucket, init);
        match delete_all(t, root, bucket, init) {
            Err(_) => {
                assert(keys.subrange(0, n) =~= init.subrange(0, n));
                n
            },
            Ok(so_far) => {
                let said = unnamed_objects(bucket, init);
                let key = keys.last();
                assert(t.outcomes + said.push(unnamed_object(bucket, key)) =~= (t.outcomes
                    + said).push(unnamed_object(bucket, key)));
                assert(keys.subrange(0, keys.len() - 1) =~= init);
                if delete_all(t, root, bucket, keys) is Ok {
                    keys.len() as int
                } else {
                    keys.len() - 1
                }
            },
        }
    }
}

/// What is said of single objects is said of some whose keys are not text.
pub proof fn lemma_unnamed_objects(bucket: Seq<char>, keys: Seq<Seq<u8>>, i: int)
    requires
        0 <= i < unnamed_objects(bucket, keys).len(),
    ensures
        exists|k: int|
            {
                &&& 0 <= k < keys.len()
                &&& !valid_utf8(#[trigger] keys[k])
                &&& unnamed_objects(bucket, keys)[i] == unnamed_object(bucket, keys[k])
            },
    decreases keys.len(),
{
    let init = keys.drop_last();
    if i < unnamed_objects(bucket, init).len() {
        lemma_unnamed_objects(bucket, init, i);
        let k = choose|k: int|
            {
                &&& 0 <= k < init.len()
                &&& !valid_utf8(#[trigger] init[k])
                &&& unnamed_objects(bucket, init)[i] == unnamed_object(bucket, init[k])
            };
        assert(keys[k] == init[k]);
    } else {
        assert(!valid_utf8(keys[keys.len() - 1]));
    }
}

proof fn lemma_delete_stop(
    t: Teardown,
    root: Seq<char>,
    bucket: Seq<char>,
    keys: Seq<Seq<u8>>,
    n: int,
)
    requires
        0 <= n <= keys.len(),
        delete_all(t, root, bucket, keys.subrange(0, n)) is Err,
    ensures
        delete_all(t, root, bucket, keys) == delete_all(t, root, bucket, keys.subrange(0, n)),
    decreases keys.len() - n,
{
    if n == keys.len() {
        assert(keys.subrange(0, n) =~= keys);
    } else {
        lemma_prefix(keys, n);
        lemma_delete_stop(t, root, bucket, keys, n + 1);
    }
}

impl<N: Store, B: Store> RepairContext<N, B> {
    /// Whether both databases answer every call.
    pub open spec fn healthy(&self) -> bool {
        self.namespace.store.healthy() && self.shared.meta.store.healthy()
    }

    /// The store in the middle of a teardown.
    pub open spec fn teardown(
        &self,
        deleted: nat,
        skipped: nat,
        freed: Seq<Seq<char>>,
        outcomes: Seq<OutcomeView>,
    ) -> Teardown {
        Teardown {
            namespace: self.namespace.store.committed(),
            shared: self.shared.meta.store.committed(),
            deleted,
            skipped,
            freed,
            outcomes,
        }
    }

    /// Whether everything but the rows is as before.
    pub open spec fn same_place(&self, before: Self) -> bool {
        &&& self.shared.blocks_root == before.shared.blocks_root
        &&& self.shared.hasher == before.shared.hasher
        &&& self.meta_root == before.meta_root
        &&& before.namespace.store.names().subset_of(self.namespace.store.names())
        &&& before.healthy() ==> self.healthy()
    }

    /// Deletes an object: its record, and the block references it held. An
    /// object that is gone already is not an error.
    pub fn delete_object(&mut self, bucket: &str, key: &[u8], freed: &mut Vec<String>) -> (out:
        Result<(), MetaError>)
        ensures
            final(self).same_place(*old(self)),
            ({
                let t = old(self).teardown(0, 0, text_views(old(freed)@), Seq::empty());
                let now = final(self).teardown(1, 0, text_views(final(freed)@), Seq::empty());
                let want = delete_step(t, old(self).shared.blocks_root@, bucket@, key@);
                match out {
                    Ok(()) => want == Ok::<Teardown, (Teardown, FsError)>(now),
                    Err(e) => {
                        &&& half_deleted(t, now, old(self).shared.blocks_root@, bucket@, key@)
                        &&& old(self).healthy() ==> (want matches Err((left, damage)) && e
                            == MetaError::Corruption(damage) && left == (Teardown {
                            deleted: 0,
                            ..now
                        }))
                    },
                }
            }),
    {
        let mut tx = self.namespace.begin_transaction();
        let object = match tx.take_object(bucket, key) {
            Err(e) => {
                tx.rollback();
                return Err(e);
            },
            Ok(None) => {
                tx.rollback();
                return Ok(());
            },
            Ok(Some(object)) => object,
        };
        match tx.commit() {
            Err(e) => {
                return Err(e);
            },
            Ok(()) => {},
        }
        release_blocks(&mut self.shared, object.blocks(), freed)
    }
}

/// What is reported of a finished teardown.
pub open spec fn teardown_text(deleted: nat, skipped: nat) -> Seq<char> {
    "teardown resumed: "@ + dec(deleted) + " object(s) deleted through the striped path, "@ + dec(
        skipped,
    ) + " skipped, tree dropped"@
}

/// The keys of rows.
pub open spec fn row_keys(rows: Seq<(Seq<u8>, Seq<u8>)>) -> Seq<Seq<u8>> {
    rows.map_values(|row: (Seq<u8>, Seq<u8>)| row.0)
}

/// What a teardown came to.
pub open spec fn torn_down<N: Store, B: Store>(
    before: RepairContext<N, B>,
    after: RepairContext<N, B>,
    bucket: Seq<char>,
    freed: (Seq<Seq<char>>, Seq<Seq<char>>),
    outcomes: (Seq<OutcomeView>, Seq<OutcomeView>),
    out: (RepairStatus, Seq<char>),
) -> bool {
    let t = before.teardown(0, 0, freed.0, outcomes.0);
    let keys = row_keys(listing(tree_of(before.namespace.store.committed(), bucket)));
    match delete_all(t, before.shared.blocks_root@, bucket, keys) {
        Ok(done) => {
            &&& after.namespace.store.committed() == without_bucket(done.namespace, bucket, true)
            &&& !after.namespace.store.names().contains(bucket)
            &&& after.shared.meta.store.committed() == done.shared
            &&& freed.1 == done.freed
            &&& outcomes.1 == done.outcomes
            &&& out == (RepairStatus::Applied, teardown_text(done.deleted, done.skipped))
        },
        Err((left, key, damage)) => {
            &&& after.namespace.store.committed() == left.namespace
            &&& after.shared.meta.store.committed() == left.shared
            &&& freed.1 == left.freed
            &&& outcomes.1 == left.outcomes
            &&& out == (
                RepairStatus::Failed,
                "object "@ + bucket + "/"@ + decode_utf8(key) + " would not delete: "@
                    + MetaError::Corruption(damage).text(),
            )
        },
    }
}

/// Whether a teardown stands where it stopped for want of an answer: so many
/// objects were deleted or passed over, and the next one, or the drop of the
/// tree, may be half done. The freed files and what was said are those of the
/// objects before.
pub open spec fn torn_halfway<N: Store, B: Store>(
    before: RepairContext<N, B>,
    after: RepairContext<N, B>,
    bucket: Seq<char>,
    freed: (Seq<Seq<char>>, Seq<Seq<char>>),
    outcomes: (Seq<OutcomeView>, Seq<OutcomeView>),
    n: int,
) -> bool {
    let root = before.shared.blocks_root@;
    let keys = row_keys(listing(tree_of(before.namespace.store.committed(), bucket)));
    let now = after.teardown(0, 0, freed.1, outcomes.1);
    &&& 0 <= n <= keys.len()
    &&& delete_all(
        before.teardown(0, 0, freed.0, outcomes.0),
        root,
        bucket,
        keys.subrange(0, n),
    ) matches Ok(left)
    &&& if n < keys.len() {
        half_deleted(left, now, root, bucket, keys[n])
    } else {
        &&& now.freed == left.freed
        &&& now.outcomes == left.outcomes
        &&& now.shared == left.shared
        &&& partly_dropped(left.namespace, now.namespace, bucket)
    }
}

/// Whether a teardown came out as it should: on a store that answers exactly so,
/// and otherwise as a failure somewhere on the way.
pub open spec fn tears_down<N: Store, B: Store>(
    before: RepairContext<N, B>,
    after: RepairContext<N, B>,
    bucket: Seq<char>,
    freed: (Seq<Seq<char>>, Seq<Seq<char>>),
    outcomes: (Seq<OutcomeView>, Seq<OutcomeView>),
    out: (RepairStatus, Seq<char>),
) -> bool {
    ||| torn_down(before, after, bucket, freed, outcomes, out)
    ||| {
        &&& !before.healthy()
        &&& out.0 is Failed
        &&& exists|n: int| #[trigger] torn_halfway(before, after, bucket, freed, outcomes, n)
    }
}

/// The objects that a bucket still holds, in key order. Its object tree is created
/// if it doesn't exist.
fn held_rows<N: Store>(namespace: &mut MetaStore<N>, bucket: &str) -> (out: Result<
    KeyValuePairs,
    String,
>)
    ensures
        match out {
            Ok(list) => {
                let entries = tree_of(old(namespace).store.committed(), bucket@);
                &&& pairs(list@) == listing(entries)
                &&& is_listed(entries)
                &&& final(namespace).opened(*old(namespace), bucket@)
            },
            Err(_) => !old(namespace).store.healthy(),
        },
        final(namespace).opened_or_not(*old(namespace), bucket@),
{
    let ghost entries = tree_of(namespace.store.committed(), bucket@);
    let tree = match namespace.get_bucket_ext(bucket) {
        Ok(tree) => tree,
        Err(e) => {
            let mut text = "the object tree would not open: ".to_owned();
            text.append(&e.to_string());
            return Err(text);
        },
    };
    match tree.iter_all() {
        Ok(rows) => {
            proof {
                lemma_listing(pairs(rows@), entries);
            }
            Ok(rows)
        },
        Err(e) => {
            let mut text = "the object tree would not iterate: ".to_owned();
            text.append(&e.to_string());
            Err(text)
        },
    }
}

/// Resumes a bucket teardown: every object, with the references it held, and then
/// the tree. The files that are freed are to be unlinked.
///
/// Deleting object by object rather than dropping the tree outright keeps the
/// refcounts honest as it goes. An object key that is not text is reported and
/// passed over; the tree is still dropped, because the bucket row is gone already
/// and leaving the tree would strand it forever. The recount that follows
/// reconciles the references that such an object was holding.
pub fn resume_bucket_teardown<N: Store, B: Store>(
    ctx: &mut RepairContext<N, B>,
    bucket: &str,
    extra: &mut Vec<RepairOutcome>,
    freed: &mut Vec<String>,
) -> (out: ActionResult)
    ensures
        tears_down(
            *old(ctx),
            *final(ctx),
            bucket@,
            (text_views(old(freed)@), text_views(final(freed)@)),
            (outcome_views(old(extra)@), outcome_views(final(extra)@)),
            ended(out),
        ),
        final(ctx).shared.blocks_root == old(ctx).shared.blocks_root,
        final(ctx).shared.hasher == old(ctx).shared.hasher,
        final(ctx).meta_root == old(ctx).meta_root,
        old(ctx).healthy() ==> final(ctx).healthy(),
{
    let ghost t = ctx.teardown(0, 0, text_views(freed@), outcome_views(extra@));
    let ghost root = ctx.shared.blocks_root@;
    proof {
        let none = row_keys(listing(tree_of(ctx.namespace.store.committed(), bucket@))).subrange(
            0,
            0,
        );
        assert(none =~= Seq::<Seq<u8>>::empty());
    }
    let rows = match held_rows(&mut ctx.namespace, bucket) {
        Ok(rows) => rows,
        Err(text) => {
            proof {
                assert(torn_halfway(
                    *old(ctx),
                    *ctx,
                    bucket@,
                    (text_views(old(freed)@), text_views(freed@)),
                    (outcome_views(old(extra)@), outcome_views(extra@)),
                    0,
                ));
            }
            return Err(text);
        },
    };
    let ghost keys = row_keys(pairs(rows@));
    let mut deleted: usize = 0;
    let mut skipped: usize = 0;
    let mut i: usize = 0;
    proof {
        assert(keys.subrange(0, 0) =~= Seq::<Seq<u8>>::empty());
    }
    while i < rows.len()
        invariant
            i <= rows@.len(),
            deleted + skipped == i,
            keys == row_keys(pairs(rows@)),
            keys == row_keys(listing(tree_of(old(ctx).namespace.store.committed(), bucket@))),
            root == old(ctx).shared.blocks_root@,
            t == old(ctx).teardown(0, 0, text_views(old(freed)@), outcome_views(old(extra)@)),
            ctx.same_place(*old(ctx)),
            ctx.namespace.store.names().contains(bucket@),
            delete_all(t, root, bucket@, keys.subrange(0, i as int)) == Ok::<
                Teardown,
                (Teardown, Seq<u8>, FsError),
            >(
                ctx.teardown(
                    deleted as nat,
                    skipped as nat,
                    text_views(freed@),
                    outcome_views(extra@),
                ),
            ),
        decreases rows@.len() - i,
    {
        let ghost now = ctx.teardown(
            deleted as nat,
            skipped as nat,
            text_views(freed@),
            outcome_views(extra@),
        );
        let ghost key = keys[i as int];
        proof {
            lemma_prefix(keys, i as int);
            assert(pairs(rows@)[i as int] == (rows@[i as int].0@, rows@[i as int].1@));
            assert(key == rows@[i as int].0@);
        }
        match utf8_text(slice_to_vec(&rows[i].0)) {
            Ok(name) => {
                match ctx.delete_object(bucket, &rows[i].0, freed) {
                    Ok(()) => {},
                    Err(e) => {
                        proof {
                            if old(ctx).healthy() {
                                lemma_delete_stop(t, root, bucket@, keys, i + 1);
                            }
                            assert(torn_halfway(
                                    *old(ctx),
                                    *ctx,
                                    bucket@,
                                    (text_views(old(freed)@), text_views(freed@)),
                                    (outcome_views(old(extra)@), outcome_views(extra@)),
                                    i as int,
                                ));
                        }
                        let mut text = "object ".to_owned();
                        text.append(bucket);
                        text.append("/");
                        text.append(&name);
                        text.append(" would not delete: ");
                        text.append(&e.to_string());
                        return Err(text);
                    },
                }
                deleted = deleted + 1;
            },
            Err(_) => {
                skipped = skipped + 1;
                let mut text = "object key ".to_owned();
                text.append(&lossy_text(&rows[i].0));
                text.append(" in ");
                text.append(bucket);
                text.append(
                    " is not UTF-8, so the striped delete path cannot name it: the record goes with the tree and the recount reconciles its block references",
                );
                add_outcome(
                    extra,
                    RepairOutcome::new(
                        "resume_bucket_teardown",
                        RepairStatus::Skipped,
                        text,
                    ).at(Severity::Warn),
                );
            },
        }
        i = i + 1;
    }
    proof {
        assert(keys.subrange(0, keys.len() as int) =~= keys);
    }
    let ghost done = ctx.teardown(
        deleted as nat,
        skipped as nat,
        text_views(freed@),
        outcome_views(extra@),
    );
    match ctx.namespace.drop_bucket(bucket) {
        Err(e) => {
            proof {
                assert(torn_halfway(
                    *old(ctx),
                    *ctx,
                    bucket@,
                    (text_views(old(freed)@), text_views(freed@)),
                    (outcome_views(old(extra)@), outcome_views(extra@)),
                    keys.len() as int,
                ));
            }
            let mut text = "the object tree would not drop: ".to_owned();
            text.append(&e.to_string());
            Err(text)
        },
        Ok(()) => {
            let mut text = "teardown resumed: ".to_owned();
            put_len_dec(&mut text, deleted);
            text.append(" object(s) deleted through the striped path, ");
            put_len_dec(&mut text, skipped);
            text.append(" skipped, tree dropped");
            Ok(Done::Applied(text))
        },
    }
}

proof fn lemma_release_keeps(rows: Rows, root: Seq<char>, ids: Seq<Seq<u8>>, key: Seq<u8>)
    requires
        release_all(rows, root, ids) is Ok,
    ensures
        lookup(release_all(rows, root, ids)->Ok_0.0, MULTIPART_PARTS_TREE@, key) == lookup(
            rows,
            MULTIPART_PARTS_TREE@,
            key,
        ),
    decreases ids.len(),
{
    reveal_strlit("_BLOCKS");
    reveal_strlit("_MULTIPART_PARTS");
    assert(DEFAULT_BLOCK_TREE@.len() != MULTIPART_PARTS_TREE@.len());
    if ids.len() > 0 {
        lemma_release_keeps(rows, root, ids.drop_last(), key);
    }
}

/// Reaping is idempotent: a part that was reaped is then found gone, and reaping
/// it again releases nothing.
pub proof fn lemma_reap_again(rows: Rows, root: Seq<char>, storage_key: Seq<u8>)
    requires
        !(reap_step(rows, root, storage_key).1 is Failed),
    ensures
        ({
            let once = reap_step(rows, root, storage_key);
            let twice = reap_step(once.0, root, storage_key);
            &&& twice.0 == once.0
            &&& twice.1 is Skipped
            &&& twice.3.len() == 0
        }),
{
    match lookup(rows, MULTIPART_PARTS_TREE@, storage_key) {
        None => {},
        Some(raw) => {
            let rest = rows.remove((MULTIPART_PARTS_TREE@, storage_key));
            lemma_release_keeps(rest, root, decode_part(raw)->Ok_0.blocks, storage_key);
        },
    }
}

/// A bucket that was torn down holds nothing and is not torn down again.
pub proof fn lemma_torn_down_once(rows: Rows, names: Set<Seq<char>>, bucket: Seq<char>)
    ensures
        tree_of(without_bucket(rows, bucket, true), bucket) == Entries::empty(),
        !stranded(names.remove(bucket), without_bucket(rows, bucket, true)).contains(bucket),
{
    assert(tree_of(without_bucket(rows, bucket, true), bucket) =~= Entries::empty());
}

} // verus!
