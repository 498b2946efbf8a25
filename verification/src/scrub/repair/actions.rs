//! The repair actions on block records.
//!
//! An action that also touches files is split there: it returns what is to be
//! done with a file, and what came of it is handed back.

use vstd::prelude::*;
use vstd::string::*;

use super::summary::RepairStatus;
use super::{ended, ActionResult, Done};
use crate::cas::SharedBlockStore;
use crate::metastore::block::{
    block_disk_path, block_path, encode_block, lemma_block_round_trip, Block, BlockId,
};
use crate::metastore::errors::{FsError, MetaError};
use crate::metastore::meta_store::transaction::{block_row, is_damaged_block};
use crate::metastore::meta_store::{block_at, DEFAULT_BLOCK_TREE};
use crate::metastore::traits::{tree_of, Rows, Store, TransactionBackend};
use crate::text::{dec, put_dec};

verus! {

/// What came of unlinking a file.
#[derive(Debug, PartialEq, Eq)]
pub enum Unlinked {
    /// It is gone now.
    Removed,
    /// It was gone already.
    Missing,
    /// It could not be removed, for this reason.
    Failed(String),
}

/// What came of moving a file into quarantine.
#[derive(Debug, PartialEq, Eq)]
pub enum Moved {
    /// There was no file.
    Absent,
    /// It is at this path now.
    To(String),
    /// It could not be moved, for this reason.
    Failed(String),
}

/// The complaint about a file that could not be unlinked, if it could not.
pub open spec fn unlink_complaint(path: Seq<char>, reply: Unlinked) -> Option<Seq<char>> {
    match reply {
        Unlinked::Failed(e) => Some("could not unlink "@ + path + ": "@ + e@),
        _ => None,
    }
}

/// Judges an unlink, treating "already gone" as success.
pub fn unlink_tolerant(path: &str, reply: &Unlinked) -> (out: Result<(), String>)
    ensures
        match out {
            Ok(()) => unlink_complaint(path@, *reply) is None,
            Err(text) => unlink_complaint(path@, *reply) == Some(text@),
        },
{
    match reply {
        Unlinked::Removed | Unlinked::Missing => Ok(()),
        Unlinked::Failed(e) => {
            let mut text = "could not unlink ".to_owned();
            text.append(path);
            text.append(": ");
            text.append(e);
            Err(text)
        },
    }
}

/// Deletes a block file nothing references: what is reported of the unlink. A
/// file that is gone already is success, so a killed repair can be run again.
pub fn delete_unreferenced(path: &str, reply: &Unlinked) -> (out: ActionResult)
    ensures
        ended(out) == (match *reply {
            Unlinked::Removed => (RepairStatus::Applied, "deleted "@ + path@),
            Unlinked::Missing => (RepairStatus::Skipped, "already gone"@),
            Unlinked::Failed(e) => (
                RepairStatus::Failed,
                "could not delete "@ + path@ + ": "@ + e@,
            ),
        }),
{
    match reply {
        Unlinked::Removed => {
            let mut text = "deleted ".to_owned();
            text.append(path);
            Ok(Done::Applied(text))
        },
        Unlinked::Missing => Ok(Done::Skipped("already gone".to_owned())),
        Unlinked::Failed(e) => {
            let mut text = "could not delete ".to_owned();
            text.append(path);
            text.append(": ");
            text.append(e);
            Err(text)
        },
    }
}

/// Moves something that is not part of the layout into quarantine: what is
/// reported of the move.
pub fn quarantine_foreign(moved: &Moved) -> (out: ActionResult)
    ensures
        ended(out) == (match *moved {
            Moved::Absent => (RepairStatus::Skipped, "already gone"@),
            Moved::To(dest) => (
                RepairStatus::Applied,
                "moved out of the blocks root to "@ + dest@
                    + "; fsck did not put it there and does not delete it"@,
            ),
            Moved::Failed(e) => (RepairStatus::Failed, e@),
        }),
{
    match moved {
        Moved::Absent => Ok(Done::Skipped("already gone".to_owned())),
        Moved::To(dest) => {
            let mut text = "moved out of the blocks root to ".to_owned();
            text.append(dest);
            text.append("; fsck did not put it there and does not delete it");
            Ok(Done::Applied(text))
        },
        Moved::Failed(e) => Err(e.as_str().to_owned()),
    }
}

/// The complaint about a record that cannot be read.
pub open spec fn unreadable(e: MetaError) -> Seq<char> {
    "the record could not be read: "@ + e.text()
}

/// Reads a block record.
pub fn read_record<B: Store>(shared: &SharedBlockStore<B>, block: &BlockId) -> (out: Result<
    Option<Block>,
    String,
>)
    ensures
        match out {
            Ok(None) => block_at(shared.meta.store.committed(), block@) is None,
            Ok(Some(b)) => block_at(shared.meta.store.committed(), block@) == Some(
                Ok::<Block, FsError>(b),
            ),
            Err(text) => exists|e: MetaError|
                text@ == #[trigger] unreadable(e) && (shared.meta.store.healthy()
                    ==> is_damaged_block(shared.meta.store.committed(), block@, e)),
        },
{
    proof {
        let rows = shared.meta.store.committed();
        let entries = tree_of(rows, DEFAULT_BLOCK_TREE@);
        assert(entries.contains_key(block@) <==> rows.contains_key((DEFAULT_BLOCK_TREE@, block@)));
    }
    let got = match shared.meta_store().find_block_tree() {
        Ok(tree) => tree.get_block(block.as_slice()),
        Err(e) => Err(e),
    };
    match got {
        Ok(record) => Ok(record),
        Err(e) => {
            let mut text = "the record could not be read: ".to_owned();
            text.append(&e.to_string());
            proof {
                assert(text@ == unreadable(e));
            }
            Err(text)
        },
    }
}

/// Writes a block record. The two texts start the complaint about a write that
/// was refused and about one that did not commit.
pub fn write_record<B: Store>(
    shared: &mut SharedBlockStore<B>,
    block: &BlockId,
    record: &Block,
    refused: &str,
    uncommitted: &str,
) -> (out: Result<(), String>)
    ensures
        ({
            let rows = old(shared).meta.store.committed();
            let written = rows.insert(block_row(block@), encode_block(*record));
            let after = final(shared).meta.store.committed();
            &&& out is Ok ==> after == written
            &&& out is Err ==> after == rows || after == written
            &&& old(shared).meta.store.healthy() ==> out is Ok
                && final(shared).meta.store.healthy()
        }),
        final(shared).blocks_root == old(shared).blocks_root,
        final(shared).hasher == old(shared).hasher,
{
    let mut tx = shared.meta.begin_transaction();
    match tx.put_block_record(*block, record) {
        Err(e) => {
            tx.rollback();
            let mut text = refused.to_owned();
            text.append(&e.to_string());
            return Err(text);
        },
        Ok(()) => {},
    }
    match tx.commit() {
        Ok(()) => Ok(()),
        Err(e) => {
            let mut text = uncommitted.to_owned();
            text.append(&e.to_string());
            Err(text)
        },
    }
}

/// Removes a block record.
pub fn remove_record<B: Store>(shared: &mut SharedBlockStore<B>, block: &BlockId) -> (out: Result<
    (),
    String,
>)
    ensures
        ({
            let rows = old(shared).meta.store.committed();
            let removed = rows.remove(block_row(block@));
            let after = final(shared).meta.store.committed();
            &&& out is Ok ==> after == removed
            &&& out is Err ==> after == rows || after == removed
            &&& old(shared).meta.store.healthy() ==> out is Ok
                && final(shared).meta.store.healthy()
        }),
        final(shared).blocks_root == old(shared).blocks_root,
        final(shared).hasher == old(shared).hasher,
{
    let mut tx = shared.meta.begin_transaction();
    match tx.remove_block_record(*block) {
        Err(e) => {
            tx.rollback();
            let mut text = "the record could not be removed: ".to_owned();
            text.append(&e.to_string());
            return Err(text);
        },
        Ok(()) => {},
    }
    match tx.commit() {
        Ok(()) => Ok(()),
        Err(e) => {
            let mut text = "the record removal would not commit: ".to_owned();
            text.append(&e.to_string());
            Err(text)
        },
    }
}

/// How far an action on a record has come.
#[derive(Debug, PartialEq, Eq)]
pub enum RecordStep {
    /// It is over.
    Finished(ActionResult),
    /// The file at a path is to be unlinked; the action is then described so.
    Unlink {
        /// Where the file is.
        path: String,
        /// What the action has done once the file is gone.
        detail: String,
    },
}

/// What a step states.
pub ghost enum StepView {
    Finished(RepairStatus, Seq<char>),
    Unlink(Seq<char>, Seq<char>),
}

impl View for RecordStep {
    type V = StepView;

    open spec fn view(&self) -> StepView {
        match self {
            RecordStep::Finished(result) => StepView::Finished(ended(*result).0, ended(*result).1),
            RecordStep::Unlink { path, detail } => StepView::Unlink(path@, detail@),
        }
    }
}

/// What setting a count does to the rows, and what is left to do.
pub open spec fn set_rc_step(
    rows: Rows,
    root: Seq<char>,
    id: Seq<u8>,
    from: u64,
    to: u64,
) -> (Rows, StepView) {
    match block_at(rows, id) {
        None => (
            rows,
            StepView::Finished(
                RepairStatus::Skipped,
                "the record is gone, so there is no rc to set"@,
            ),
        ),
        Some(Err(damage)) => (
            rows,
            StepView::Finished(RepairStatus::Failed, unreadable(MetaError::Corruption(damage))),
        ),
        Some(Ok(record)) => if record.rc == to {
            (
                rows,
                StepView::Finished(
                    RepairStatus::Skipped,
                    "rc already reads "@ + dec(to as nat),
                ),
            )
        } else if to == 0 {
            let path = block_path(id, record.depth as nat, root);
            (
                rows.remove(block_row(id)),
                StepView::Unlink(
                    path,
                    "rc "@ + dec(record.rc as nat) + " -> 0 (planned from "@ + dec(from as nat)
                        + "): nothing holds this block, so the record is removed and "@ + path
                        + " unlinked"@,
                ),
            )
        } else if to > usize::MAX {
            (
                rows,
                StepView::Finished(
                    RepairStatus::Failed,
                    "holder count "@ + dec(to as nat) + " does not fit an rc"@,
                ),
            )
        } else {
            (
                rows.insert(
                    block_row(id),
                    encode_block(Block { rc: to as usize, ..record }),
                ),
                StepView::Finished(
                    RepairStatus::Applied,
                    "rc "@ + dec(record.rc as nat) + " -> "@ + dec(to as nat) + " (planned from "@
                        + dec(from as nat) + ")"@,
                ),
            )
        },
    }
}

/// Whether a step on a record came out as it should: on a store that answers
/// exactly so, and otherwise as a failure that may or may not have written.
pub open spec fn settles(
    healthy: bool,
    before: Rows,
    after: Rows,
    step: StepView,
    want: (Rows, StepView),
) -> bool {
    ||| after == want.0 && step == want.1
    ||| !healthy && step is Finished && step->Finished_0 is Failed && (after == before || after
        == want.0)
}

/// Sets a record's rc to `to`, or frees the block when `to` is zero.
///
/// The value is a target, not a delta, so an rc that already reads `to` is
/// skipped. A block that nothing holds loses its record first and its file
/// second, so that a stop in between leaves an orphan file rather than a record
/// with no bytes.
pub fn set_rc<B: Store>(shared: &mut SharedBlockStore<B>, block: &BlockId, from: u64, to: u64) -> (
    step: RecordStep)
    ensures
        settles(
            old(shared).meta.store.healthy(),
            old(shared).meta.store.committed(),
            final(shared).meta.store.committed(),
            step@,
            set_rc_step(
                old(shared).meta.store.committed(),
                old(shared).blocks_root@,
                block@,
                from,
                to,
            ),
        ),
        final(shared).blocks_root == old(shared).blocks_root,
        final(shared).hasher == old(shared).hasher,
        old(shared).meta.store.healthy() ==> final(shared).meta.store.healthy(),
{
    let record = match read_record(shared, block) {
        Err(text) => {
            return RecordStep::Finished(Err(text));
        },
        Ok(None) => {
            return RecordStep::Finished(
                Ok(Done::Skipped("the record is gone, so there is no rc to set".to_owned())),
            );
        },
        Ok(Some(record)) => record,
    };
    let current: u64 = record.rc() as u64;
    if current == to {
        let mut text = "rc already reads ".to_owned();
        put_dec(&mut text, to);
        return RecordStep::Finished(Ok(Done::Skipped(text)));
    }
    if to == 0 {
        let path = block_disk_path(block, record.depth(), shared.blocks_root.as_str().to_owned());
        match remove_record(shared, block) {
            Err(text) => {
                return RecordStep::Finished(Err(text));
            },
            Ok(()) => {},
        }
        let mut detail = "rc ".to_owned();
        put_dec(&mut detail, current);
        detail.append(" -> 0 (planned from ");
        put_dec(&mut detail, from);
        detail.append("): nothing holds this block, so the record is removed and ");
        detail.append(&path);
        detail.append(" unlinked");
        return RecordStep::Unlink { path, detail };
    }
    if to > usize::MAX as u64 {
        let mut text = "holder count ".to_owned();
        put_dec(&mut text, to);
        text.append(" does not fit an rc");
        return RecordStep::Finished(Err(text));
    }
    let updated = Block::from_parts(record.size(), record.depth(), to as usize, record.flags());
    match write_record(
        shared,
        block,
        &updated,
        "the record could not be written: ",
        "the rc write would not commit: ",
    ) {
        Err(text) => RecordStep::Finished(Err(text)),
        Ok(()) => {
            let mut detail = "rc ".to_owned();
            put_dec(&mut detail, current);
            detail.append(" -> ");
            put_dec(&mut detail, to);
            detail.append(" (planned from ");
            put_dec(&mut detail, from);
            detail.append(")");
            RecordStep::Finished(Ok(Done::Applied(detail)))
        },
    }
}

/// What an action reports once the file it freed is unlinked, or could not be.
pub fn after_unlink(path: &str, detail: String, reply: &Unlinked) -> (out: ActionResult)
    ensures
        ended(out) == (match unlink_complaint(path@, *reply) {
            None => (RepairStatus::Applied, detail@),
            Some(text) => (RepairStatus::Failed, text),
        }),
{
    match unlink_tolerant(path, reply) {
        Ok(()) => Ok(Done::Applied(detail)),
        Err(text) => Err(text),
    }
}

/// What flagging a record does to the rows, and whether anything changed.
pub open spec fn degrade_step(rows: Rows, id: Seq<u8>) -> (Rows, Result<bool, Seq<char>>) {
    match block_at(rows, id) {
        None => (rows, Ok(false)),
        Some(Err(damage)) => (rows, Err(unreadable(MetaError::Corruption(damage)))),
        Some(Ok(record)) => if record.degraded() {
            (rows, Ok(false))
        } else {
            (rows.insert(block_row(id), encode_block(record.marked(true))), Ok(true))
        },
    }
}

/// Whether a flagging came out as it should.
pub open spec fn degrades(
    healthy: bool,
    before: Rows,
    after: Rows,
    id: Seq<u8>,
    out: Result<bool, Seq<char>>,
) -> bool {
    ||| (after, out) == degrade_step(before, id)
    ||| !healthy && out is Err && (after == before || after == degrade_step(before, id).0)
}

/// A flagging's result by what it states.
pub open spec fn flag_view(out: Result<bool, String>) -> Result<bool, Seq<char>> {
    match out {
        Ok(changed) => Ok(changed),
        Err(text) => Err(text@),
    }
}

/// Sets the degraded flag on a record, if there is one and it is not set
/// already. Returns whether anything changed.
pub fn mark_degraded<B: Store>(shared: &mut SharedBlockStore<B>, block: &BlockId) -> (out: Result<
    bool,
    String,
>)
    ensures
        degrades(
            old(shared).meta.store.healthy(),
            old(shared).meta.store.committed(),
            final(shared).meta.store.committed(),
            block@,
            flag_view(out),
        ),
        final(shared).blocks_root == old(shared).blocks_root,
        final(shared).hasher == old(shared).hasher,
        old(shared).meta.store.healthy() ==> final(shared).meta.store.healthy(),
{
    let record = match read_record(shared, block) {
        Err(text) => {
            return Err(text);
        },
        Ok(None) => {
            return Ok(false);
        },
        Ok(Some(record)) => record,
    };
    if record.is_degraded() {
        return Ok(false);
    }
    let mut flagged = Block::from_parts(
        record.size(),
        record.depth(),
        record.rc(),
        record.flags(),
    );
    flagged.set_degraded(true);
    match write_record(
        shared,
        block,
        &flagged,
        "the degraded flag could not be written: ",
        "the degraded flag would not commit: ",
    ) {
        Err(text) => Err(text),
        Ok(()) => Ok(true),
    }
}

/// What is reported of a flagging.
pub open spec fn degrade_report(out: Result<bool, Seq<char>>) -> (RepairStatus, Seq<char>) {
    match out {
        Ok(true) => (
            RepairStatus::Applied,
            "record flagged degraded: its holders stay accounted for, and the next PUT of this content writes the file and clears the flag"@,
        ),
        Ok(false) => (RepairStatus::Skipped, "the record is gone or already degraded"@),
        Err(text) => (RepairStatus::Failed, text),
    }
}

/// Whether flagging a record ended as it should.
pub open spec fn flags(
    healthy: bool,
    before: Rows,
    after: Rows,
    id: Seq<u8>,
    end: (RepairStatus, Seq<char>),
) -> bool {
    exists|flagged: Result<bool, Seq<char>>|
        {
            &&& #[trigger] degrades(healthy, before, after, id, flagged)
            &&& end == degrade_report(flagged)
        }
}

/// Flags a record whose bytes are gone.
pub fn mark_degraded_action<B: Store>(shared: &mut SharedBlockStore<B>, block: &BlockId) -> (out:
    ActionResult)
    ensures
        flags(
            old(shared).meta.store.healthy(),
            old(shared).meta.store.committed(),
            final(shared).meta.store.committed(),
            block@,
            ended(out),
        ),
        final(shared).blocks_root == old(shared).blocks_root,
        final(shared).hasher == old(shared).hasher,
        old(shared).meta.store.healthy() ==> final(shared).meta.store.healthy(),
{
    let flagged = mark_degraded(shared, block);
    proof {
        assert(degrades(
            old(shared).meta.store.healthy(),
            old(shared).meta.store.committed(),
            shared.meta.store.committed(),
            block@,
            flag_view(flagged),
        ));
    }
    match flagged {
        Ok(true) => Ok(
            Done::Applied(
                "record flagged degraded: its holders stay accounted for, and the next PUT of this content writes the file and clears the flag".to_owned(),
            ),
        ),
        Ok(false) => Ok(Done::Skipped("the record is gone or already degraded".to_owned())),
        Err(text) => Err(text),
    }
}

/// What is reported of a corrupt file once it was moved, or not, and its record
/// was flagged.
pub open spec fn corrupt_report(
    path: Seq<char>,
    moved: Moved,
    flagged: Result<bool, Seq<char>>,
) -> (RepairStatus, Seq<char>) {
    match flagged {
        Err(text) => (RepairStatus::Failed, text),
        Ok(changed) => match moved {
            Moved::To(dest) => (
                RepairStatus::Applied,
                "moved to "@ + dest@
                    + " and the record marked degraded, so the next PUT of this content heals it instead of deduplicating against bytes that do not hash"@,
            ),
            _ => (
                RepairStatus::Skipped,
                "the file is already gone from "@ + path + (if changed {
                    "; its record is now marked degraded"@
                } else {
                    Seq::empty()
                }),
            ),
        },
    }
}

/// Whether setting a corrupt file aside ended as it should, once the file was
/// moved or was gone.
pub open spec fn sets_aside(
    healthy: bool,
    before: Rows,
    after: Rows,
    subject: (Seq<u8>, Seq<char>),
    moved: Moved,
    end: (RepairStatus, Seq<char>),
) -> bool {
    exists|flagged: Result<bool, Seq<char>>|
        {
            &&& #[trigger] degrades(healthy, before, after, subject.0, flagged)
            &&& end == corrupt_report(subject.1, moved, flagged)
        }
}

/// Moves a corrupt block file out of the blocks root and marks its record
/// degraded: the part after the move. A file that could not be moved leaves the
/// record as it is; one that was gone already still gets its record flagged.
pub fn quarantine_corrupt<B: Store>(
    shared: &mut SharedBlockStore<B>,
    block: &BlockId,
    path: &str,
    moved: &Moved,
) -> (out: ActionResult)
    ensures
        match *moved {
            Moved::Failed(e) => ended(out) == (RepairStatus::Failed, e@) && *final(shared) == *old(
                shared,
            ),
            _ => sets_aside(
                old(shared).meta.store.healthy(),
                old(shared).meta.store.committed(),
                final(shared).meta.store.committed(),
                (block@, path@),
                *moved,
                ended(out),
            ),
        },
        final(shared).blocks_root == old(shared).blocks_root,
        final(shared).hasher == old(shared).hasher,
        old(shared).meta.store.healthy() ==> final(shared).meta.store.healthy(),
{
    match moved {
        Moved::Failed(e) => {
            return Err(e.as_str().to_owned());
        },
        _ => {},
    }
    let result = mark_degraded(shared, block);
    let ghost flagged = flag_view(result);
    let out: ActionResult = match (result, moved) {
        (Err(text), _) => Err(text),
        (Ok(_), Moved::To(dest)) => {
            let mut text = "moved to ".to_owned();
            text.append(dest);
            text.append(
                " and the record marked degraded, so the next PUT of this content heals it instead of deduplicating against bytes that do not hash",
            );
            Ok(Done::Applied(text))
        },
        (Ok(changed), _) => {
            let mut text = "the file is already gone from ".to_owned();
            text.append(path);
            if changed {
                text.append("; its record is now marked degraded");
            }
            proof {
                assert("the file is already gone from "@ + path@ + Seq::<char>::empty()
                    =~= "the file is already gone from "@ + path@);
            }
            Ok(Done::Skipped(text))
        },
    };
    proof {
        let subject = (block@, path@);
        assert(ended(out) == corrupt_report(subject.1, *moved, flagged));
        assert(degrades(
            old(shared).meta.store.healthy(),
            old(shared).meta.store.committed(),
            shared.meta.store.committed(),
            subject.0,
            flagged,
        ));
        assert(sets_aside(
            old(shared).meta.store.healthy(),
            old(shared).meta.store.committed(),
            shared.meta.store.committed(),
            subject,
            *moved,
            ended(out),
        ));
    }
    out
}

/// Setting a count is idempotent: after it was set, setting it again changes
/// nothing and is skipped.
pub proof fn lemma_set_rc_again(rows: Rows, root: Seq<char>, id: Seq<u8>, from: u64, to: u64)
    ensures
        ({
            let once = set_rc_step(rows, root, id, from, to);
            let twice = set_rc_step(once.0, root, id, from, to);
            &&& twice.0 == once.0
            &&& !(once.1 is Finished && once.1->Finished_0 is Failed) ==> twice.1 is Finished
                && twice.1->Finished_0 is Skipped
        }),
{
    match block_at(rows, id) {
        Some(Ok(record)) => {
            lemma_block_round_trip(Block { rc: to as usize, ..record });
        },
        _ => {},
    }
}

/// Flagging a record is idempotent: after it was flagged, flagging it again
/// changes nothing.
pub proof fn lemma_degrade_again(rows: Rows, id: Seq<u8>)
    requires
        degrade_step(rows, id).1 is Ok,
    ensures
        degrade_step(degrade_step(rows, id).0, id) == (
            degrade_step(rows, id).0,
            Ok::<bool, Seq<char>>(false),
        ),
{
    match block_at(rows, id) {
        Some(Ok(record)) => {
            lemma_block_round_trip(record.marked(true));
            assert(record.marked(true).degraded());
        },
        _ => {},
    }
}

} // verus!
