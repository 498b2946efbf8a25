//! Pointing a record at a copy of its block found at another depth.
//!
//! A candidate is re-hashed first: a file under an address need not hold that
//! address's content. One that does not hash is quarantined; if none of them
//! hash, the record is marked degraded. Once a candidate is adopted the
//! remaining copies are unreferenced duplicates of it, and are deleted.
//!
//! The adoption decides; the files are somebody else's to touch. Each step says
//! what is wanted of a file, and what came of it is handed to the next.

use vstd::prelude::*;
use vstd::string::*;

use super::actions::{
    degrade_step, mark_degraded, read_record, unlink_complaint, unlink_tolerant, unreadable,
    write_record, Unlinked,
};
use super::summary::RepairStatus;
use super::{candidate_views, ended, ActionResult, Done};
use crate::cas::SharedBlockStore;
use crate::hasher::Hasher;
use crate::metastore::block::{
    block_disk_path, block_path, encode_block, lemma_block_round_trip, Block, BlockId,
};
use crate::metastore::errors::{FsError, MetaError};
use crate::metastore::meta_store::block_at;
use crate::metastore::meta_store::transaction::block_row;
use crate::metastore::traits::{Rows, Store, TransactionBackend};
use crate::scrub::trees::{lemma_prefix, text_views};
use crate::text::{dec, hex, put_dec, put_len_dec};

verus! {

/// What is wanted of a file.
#[derive(Debug, PartialEq, Eq)]
pub enum FileTask {
    /// Whether there is a file at the path.
    Stat(String),
    /// The bytes of the file at the path.
    Read(String),
    /// That the file at the path is moved into quarantine.
    Quarantine(String),
    /// That the file at the path is unlinked.
    Unlink(String),
}

/// What came of reading a file.
#[derive(Debug, PartialEq, Eq)]
pub enum Read {
    /// Its bytes.
    Bytes(Vec<u8>),
    /// There is no such file.
    Missing,
    /// It could not be read, for this reason.
    Failed(String),
}

/// An adoption under way.
#[derive(Debug)]
pub struct Adoption {
    /// The record's block.
    pub block: BlockId,
    /// The depth the record named when the adoption was planned.
    pub record_depth: u8,
    /// The copies of the block, by depth and path.
    pub candidates: Vec<(u8, String)>,
    /// The record.
    pub record: Block,
    /// The candidate being looked at.
    pub at: usize,
    /// The candidate to unlink next, once one was adopted.
    pub next: usize,
    /// The address that the candidate being looked at hashes to.
    pub actual: BlockId,
    /// What was quarantined so far.
    pub quarantined: Vec<String>,
}

/// What an adoption states.
#[verifier::ext_equal]
pub ghost struct AdoptionView {
    pub block: Seq<u8>,
    pub record_depth: u8,
    pub candidates: Seq<(u8, Seq<char>)>,
    pub record: Block,
    pub at: nat,
    pub next: nat,
    pub actual: Seq<u8>,
    pub quarantined: Seq<Seq<char>>,
}

impl View for Adoption {
    type V = AdoptionView;

    open spec fn view(&self) -> AdoptionView {
        AdoptionView {
            block: self.block@,
            record_depth: self.record_depth,
            candidates: candidate_views(self.candidates@),
            record: self.record,
            at: self.at as nat,
            next: self.next as nat,
            actual: self.actual@,
            quarantined: text_views(self.quarantined@),
        }
    }
}

/// What is wanted of a file, by what it states.
pub ghost enum TaskView {
    Stat(Seq<char>),
    Read(Seq<char>),
    Quarantine(Seq<char>),
    Unlink(Seq<char>),
}

impl View for FileTask {
    type V = TaskView;

    open spec fn view(&self) -> TaskView {
        match self {
            FileTask::Stat(path) => TaskView::Stat(path@),
            FileTask::Read(path) => TaskView::Read(path@),
            FileTask::Quarantine(path) => TaskView::Quarantine(path@),
            FileTask::Unlink(path) => TaskView::Unlink(path@),
        }
    }
}

/// How far an adoption has come.
#[derive(Debug)]
pub enum AdoptStep {
    /// It is over.
    Finished(ActionResult),
    /// Something is wanted of a file.
    Wants(Adoption, FileTask),
}

/// What a step of an adoption states.
pub ghost enum AdoptStepView {
    Finished(RepairStatus, Seq<char>),
    Wants(AdoptionView, TaskView),
}

impl View for AdoptStep {
    type V = AdoptStepView;

    open spec fn view(&self) -> AdoptStepView {
        match self {
            AdoptStep::Finished(result) => AdoptStepView::Finished(
                ended(*result).0,
                ended(*result).1,
            ),
            AdoptStep::Wants(adoption, task) => AdoptStepView::Wants(adoption@, task@),
        }
    }
}

/// Texts, joined by a comma.
pub open spec fn joined(list: Seq<Seq<char>>) -> Seq<char>
    decreases list.len(),
{
    if list.len() == 0 {
        Seq::empty()
    } else if list.len() == 1 {
        list[0]
    } else {
        joined(list.drop_last()) + ", "@ + list.last()
    }
}

/// Appends texts, joined by a comma.
fn put_joined(out: &mut String, list: &Vec<String>)
    ensures
        final(out)@ == old(out)@ + joined(text_views(list@)),
{
    let ghost start = out@;
    let ghost all = text_views(list@);
    let mut i: usize = 0;
    proof {
        assert(all.subrange(0, 0) =~= Seq::<Seq<char>>::empty());
        assert(start + joined(Seq::empty()) =~= start);
    }
    while i < list.len()
        invariant
            i <= list@.len(),
            all == text_views(list@),
            out@ == start + joined(all.subrange(0, i as int)),
        decreases list@.len() - i,
    {
        proof {
            lemma_prefix(all, i as int);
            assert(all[i as int] == list@[i as int]@);
            assert(all.subrange(0, i + 1)[0] == all[0]);
        }
        if i > 0 {
            out.append(", ");
        }
        out.append(&list[i]);
        proof {
            assert(out@ =~= start + joined(all.subrange(0, i + 1)));
        }
        i = i + 1;
    }
    proof {
        assert(all.subrange(0, all.len() as int) =~= all);
    }
}

/// What an adoption does to the rows at some step, and how far it has come.
pub type Adopted = (Rows, AdoptStepView);

/// Looking at a candidate; beyond the last of them, giving up.
pub open spec fn look_step(rows: Rows, a: AdoptionView) -> Adopted {
    if a.at < a.candidates.len() {
        (rows, AdoptStepView::Wants(a, TaskView::Read(a.candidates[a.at as int].1)))
    } else if a.quarantined.len() == 0 {
        (
            rows,
            AdoptStepView::Finished(
                RepairStatus::Skipped,
                "no candidate is on disk any more; the record is left to the degraded marking"@,
            ),
        )
    } else {
        let flagged = degrade_step(rows, a.block);
        (
            flagged.0,
            match flagged.1 {
                Err(text) => AdoptStepView::Finished(RepairStatus::Failed, text),
                Ok(_) => AdoptStepView::Finished(
                    RepairStatus::Applied,
                    "no candidate hashes to this address, so none was adopted: quarantined "@
                        + joined(a.quarantined) + " and marked the record degraded"@,
                ),
            },
        )
    }
}

/// What is reported of an adoption.
pub open spec fn adopted_text(a: AdoptionView) -> Seq<char> {
    let candidate = a.candidates[a.at as int];
    "re-hashed "@ + candidate.1 + " and it matches: the record moves from depth "@ + dec(
        a.record_depth as nat,
    ) + " to "@ + dec(candidate.0 as nat) + (if a.next > a.at + 1 {
        ", "@ + dec((a.next - a.at - 1) as nat) + " further copy/copies deleted"@
    } else {
        Seq::empty()
    }) + (if a.quarantined.len() > 0 {
        ", after quarantining "@ + joined(a.quarantined)
    } else {
        Seq::empty()
    })
}

/// Unlinking the copies behind an adopted candidate, one after the other.
pub open spec fn unlink_step(rows: Rows, a: AdoptionView) -> Adopted {
    if a.next < a.candidates.len() {
        (rows, AdoptStepView::Wants(a, TaskView::Unlink(a.candidates[a.next as int].1)))
    } else {
        (rows, AdoptStepView::Finished(RepairStatus::Applied, adopted_text(a)))
    }
}

/// Starting an adoption.
pub open spec fn start_step(
    rows: Rows,
    root: Seq<char>,
    block: Seq<u8>,
    record_depth: u8,
    candidates: Seq<(u8, Seq<char>)>,
) -> Adopted {
    match block_at(rows, block) {
        None => (
            rows,
            AdoptStepView::Finished(
                RepairStatus::Skipped,
                "the record is gone, so there is nothing to adopt for"@,
            ),
        ),
        Some(Err(damage)) => (
            rows,
            AdoptStepView::Finished(
                RepairStatus::Failed,
                unreadable(MetaError::Corruption(damage)),
            ),
        ),
        Some(Ok(record)) => (
            rows,
            AdoptStepView::Wants(
                AdoptionView {
                    block,
                    record_depth,
                    candidates,
                    record,
                    at: 0,
                    next: 0,
                    actual: block,
                    quarantined: Seq::empty(),
                },
                TaskView::Stat(block_path(block, record.depth as nat, root)),
            ),
        ),
    }
}

/// Going on once it is known whether the record's own file is there after all.
pub open spec fn stat_step(rows: Rows, a: AdoptionView, is_file: bool) -> Adopted {
    if is_file {
        (
            rows,
            AdoptStepView::Finished(
                RepairStatus::Skipped,
                "the record's own file is at depth "@ + dec(a.record.depth as nat)
                    + " after all"@,
            ),
        )
    } else {
        look_step(rows, a)
    }
}

/// Going on with what was read of a candidate: adopting it where its bytes hash
/// to the address, and only there.
pub open spec fn read_step(rows: Rows, hasher: Hasher, a: AdoptionView, read: Read) -> Adopted {
    let candidate = a.candidates[a.at as int];
    match read {
        Read::Missing => look_step(rows, AdoptionView { at: a.at + 1, ..a }),
        Read::Failed(e) => (
            rows,
            AdoptStepView::Finished(
                RepairStatus::Failed,
                "candidate "@ + candidate.1 + " could not be read: "@ + e@,
            ),
        ),
        Read::Bytes(bytes) => {
            let actual = hasher.address(bytes@);
            if actual != a.block {
                (
                    rows,
                    AdoptStepView::Wants(
                        AdoptionView { actual, ..a },
                        TaskView::Quarantine(candidate.1),
                    ),
                )
            } else {
                unlink_step(
                    rows.insert(
                        block_row(a.block),
                        encode_block(Block { depth: candidate.0, ..a.record }),
                    ),
                    AdoptionView { next: a.at + 1, ..a },
                )
            }
        },
    }
}

/// Going on once a candidate that does not hash was moved, or could not be.
pub open spec fn move_step(rows: Rows, a: AdoptionView, moved: Result<Seq<char>, Seq<char>>) -> Adopted {
    match moved {
        Err(e) => (rows, AdoptStepView::Finished(RepairStatus::Failed, e)),
        Ok(dest) => look_step(
            rows,
            AdoptionView {
                at: a.at + 1,
                quarantined: a.quarantined.push(
                    a.candidates[a.at as int].1 + " (hashes to "@ + hex(a.actual) + ") -> "@ + dest,
                ),
                ..a
            },
        ),
    }
}

/// Going on once a further copy was unlinked, or could not be.
pub open spec fn unlinked_step(rows: Rows, a: AdoptionView, reply: Unlinked) -> Adopted {
    match unlink_complaint(a.candidates[a.next as int].1, reply) {
        Some(text) => (rows, AdoptStepView::Finished(RepairStatus::Failed, text)),
        None => unlink_step(rows, AdoptionView { next: a.next + 1, ..a }),
    }
}

/// Whether a step came out as it should: on a store that answers exactly so, and
/// otherwise as a failure that may or may not have written.
pub open spec fn adopts(
    healthy: bool,
    before: Rows,
    after: Rows,
    step: AdoptStepView,
    want: Adopted,
) -> bool {
    ||| after == want.0 && step == want.1
    ||| !healthy && step is Finished && step->Finished_0 is Failed && (after == before || after
        == want.0)
}

/// Starts pointing a record at one of the copies of its block.
pub fn adopt_orphan<B: Store>(
    shared: &SharedBlockStore<B>,
    block: &BlockId,
    record_depth: u8,
    candidates: Vec<(u8, String)>,
) -> (step: AdoptStep)
    ensures
        adopts(
            shared.meta.store.healthy(),
            shared.meta.store.committed(),
            shared.meta.store.committed(),
            step@,
            start_step(
                shared.meta.store.committed(),
                shared.blocks_root@,
                block@,
                record_depth,
                candidate_views(candidates@),
            ),
        ),
{
    match read_record(shared, block) {
        Err(text) => AdoptStep::Finished(Err(text)),
        Ok(None) => AdoptStep::Finished(
            Ok(Done::Skipped("the record is gone, so there is nothing to adopt for".to_owned())),
        ),
        Ok(Some(record)) => {
            let path = block_disk_path(
                block,
                record.depth(),
                shared.blocks_root.as_str().to_owned(),
            );
            let adoption = Adoption {
                block: *block,
                record_depth,
                candidates,
                record,
                at: 0,
                next: 0,
                actual: *block,
                quarantined: Vec::new(),
            };
            proof {
                assert(text_views(adoption.quarantined@) =~= Seq::<Seq<char>>::empty());
            }
            AdoptStep::Wants(adoption, FileTask::Stat(path))
        },
    }
}

impl Adoption {
    /// Looks at a candidate; beyond the last of them, gives up.
    fn look<B: Store>(self, shared: &mut SharedBlockStore<B>) -> (step: AdoptStep)
        ensures
            adopts(
                old(shared).meta.store.healthy(),
                old(shared).meta.store.committed(),
                final(shared).meta.store.committed(),
                step@,
                look_step(old(shared).meta.store.committed(), self@),
            ),
            final(shared).blocks_root == old(shared).blocks_root,
            final(shared).hasher == old(shared).hasher,
            old(shared).meta.store.healthy() ==> final(shared).meta.store.healthy(),
    {
        if self.at < self.candidates.len() {
            let path = self.candidates[self.at].1.as_str().to_owned();
            proof {
                assert(self@.candidates[self.at as int].1 == self.candidates@[self.at as int].1@);
            }
            return AdoptStep::Wants(self, FileTask::Read(path));
        }
        if self.quarantined.len() == 0 {
            return AdoptStep::Finished(
                Ok(
                    Done::Skipped(
                        "no candidate is on disk any more; the record is left to the degraded marking".to_owned(),
                    ),
                ),
            );
        }
        match mark_degraded(shared, &self.block) {
            Err(text) => AdoptStep::Finished(Err(text)),
            Ok(_) => {
                let mut text =
                    "no candidate hashes to this address, so none was adopted: quarantined ".to_owned();
                put_joined(&mut text, &self.quarantined);
                text.append(" and marked the record degraded");
                AdoptStep::Finished(Ok(Done::Applied(text)))
            },
        }
    }

    /// Unlinks the next copy behind an adopted candidate; beyond the last of
    /// them, the adoption is done.
    fn unlink_next(self) -> (step: AdoptStep)
        requires
            self.at < self.candidates@.len(),
            self.at < self.next,
        ensures
            forall|rows: Rows| (rows, step@) == #[trigger] unlink_step(rows, self@),
    {
        if self.next < self.candidates.len() {
            let path = self.candidates[self.next].1.as_str().to_owned();
            return AdoptStep::Wants(self, FileTask::Unlink(path));
        }
        let mut text = "re-hashed ".to_owned();
        text.append(&self.candidates[self.at].1);
        text.append(" and it matches: the record moves from depth ");
        put_dec(&mut text, self.record_depth as u64);
        text.append(" to ");
        put_dec(&mut text, self.candidates[self.at].0 as u64);
        if self.next - self.at > 1 {
            text.append(", ");
            put_len_dec(&mut text, self.next - self.at - 1);
            text.append(" further copy/copies deleted");
        }
        if self.quarantined.len() > 0 {
            text.append(", after quarantining ");
            put_joined(&mut text, &self.quarantined);
        }
        proof {
            assert(self@.candidates[self.at as int] == (
                self.candidates@[self.at as int].0,
                self.candidates@[self.at as int].1@,
            ));
            assert(text@ =~= adopted_text(self@));
        }
        AdoptStep::Finished(Ok(Done::Applied(text)))
    }

    /// Goes on once it is known whether the record's own file is there after all.
    pub fn after_stat<B: Store>(self, shared: &mut SharedBlockStore<B>, is_file: bool) -> (step:
        AdoptStep)
        ensures
            adopts(
                old(shared).meta.store.healthy(),
                old(shared).meta.store.committed(),
                final(shared).meta.store.committed(),
                step@,
                stat_step(old(shared).meta.store.committed(), self@, is_file),
            ),
            final(shared).blocks_root == old(shared).blocks_root,
            final(shared).hasher == old(shared).hasher,
            old(shared).meta.store.healthy() ==> final(shared).meta.store.healthy(),
    {
        if is_file {
            let mut text = "the record's own file is at depth ".to_owned();
            put_dec(&mut text, self.record.depth() as u64);
            text.append(" after all");
            return AdoptStep::Finished(Ok(Done::Skipped(text)));
        }
        self.look(shared)
    }

    /// Goes on with what was read of the candidate being looked at.
    pub fn after_read<B: Store>(self, shared: &mut SharedBlockStore<B>, read: Read) -> (step:
        AdoptStep)
        requires
            self.at < self.candidates@.len(),
        ensures
            adopts(
                old(shared).meta.store.healthy(),
                old(shared).meta.store.committed(),
                final(shared).meta.store.committed(),
                step@,
                read_step(
                    old(shared).meta.store.committed(),
                    old(shared).hasher,
                    self@,
                    read,
                ),
            ),
            final(shared).blocks_root == old(shared).blocks_root,
            final(shared).hasher == old(shared).hasher,
            old(shared).meta.store.healthy() ==> final(shared).meta.store.healthy(),
    {
        let mut adoption = self;
        let at: usize = adoption.at;
        proof {
            assert(at < self.candidates.len());
            assert(self@.candidates[at as int] == (
                self.candidates@[at as int].0,
                self.candidates@[at as int].1@,
            ));
        }
        match read {
            Read::Missing => {
                adoption.at = at + 1;
                adoption.look(shared)
            },
            Read::Failed(e) => {
                let mut text = "candidate ".to_owned();
                text.append(&adoption.candidates[at].1);
                text.append(" could not be read: ");
                text.append(&e);
                AdoptStep::Finished(Err(text))
            },
            Read::Bytes(bytes) => {
                let actual = shared.hasher().hash(&bytes);
                if !actual.same(&adoption.block) {
                    let path = adoption.candidates[at].1.as_str().to_owned();
                    adoption.actual = actual;
                    return AdoptStep::Wants(adoption, FileTask::Quarantine(path));
                }
                let record = adoption.record;
                let adopted = Block::from_parts(
                    record.size(),
                    adoption.candidates[at].0,
                    record.rc(),
                    record.flags(),
                );
                match write_record(
                    shared,
                    &adoption.block,
                    &adopted,
                    "the adopted record could not be written: ",
                    "the adoption would not commit: ",
                ) {
                    Err(text) => AdoptStep::Finished(Err(text)),
                    Ok(()) => {
                        adoption.next = at + 1;
                        let step = adoption.unlink_next();
                        proof {
                            let rows = shared.meta.store.committed();
                            assert((rows, step@) == unlink_step(rows, adoption@));
                            assert(adoption@ =~= AdoptionView { next: (at + 1) as nat, ..self@ });
                        }
                        step
                    },
                }
            },
        }
    }

    /// Goes on once the candidate being looked at was moved into quarantine, or
    /// could not be.
    pub fn after_move<B: Store>(
        self,
        shared: &mut SharedBlockStore<B>,
        moved: Result<String, String>,
    ) -> (step: AdoptStep)
        requires
            self.at < self.candidates@.len(),
        ensures
            adopts(
                old(shared).meta.store.healthy(),
                old(shared).meta.store.committed(),
                final(shared).meta.store.committed(),
                step@,
                move_step(
                    old(shared).meta.store.committed(),
                    self@,
                    match moved {
                        Ok(dest) => Ok(dest@),
                        Err(e) => Err(e@),
                    },
                ),
            ),
            final(shared).blocks_root == old(shared).blocks_root,
            final(shared).hasher == old(shared).hasher,
            old(shared).meta.store.healthy() ==> final(shared).meta.store.healthy(),
    {
        let mut adoption = self;
        let at: usize = adoption.at;
        proof {
            assert(at < self.candidates.len());
        }
        match moved {
            Err(e) => AdoptStep::Finished(Err(e)),
            Ok(dest) => {
                let mut text = adoption.candidates[at].1.as_str().to_owned();
                text.append(" (hashes to ");
                text.append(&adoption.actual.to_hex());
                text.append(") -> ");
                text.append(&dest);
                let ghost before = adoption.quarantined@;
                adoption.quarantined.push(text);
                adoption.at = at + 1;
                proof {
                    assert(self@.candidates[at as int].1 == self.candidates@[at as int].1@);
                    assert(text_views(adoption.quarantined@) =~= text_views(before).push(text@));
                }
                adoption.look(shared)
            },
        }
    }

    /// Goes on once the next further copy was unlinked, or could not be.
    pub fn after_unlink<B: Store>(self, shared: &mut SharedBlockStore<B>, reply: &Unlinked) -> (
        step: AdoptStep)
        requires
            self.at < self.next < self.candidates@.len(),
        ensures
            adopts(
                old(shared).meta.store.healthy(),
                old(shared).meta.store.committed(),
                final(shared).meta.store.committed(),
                step@,
                unlinked_step(old(shared).meta.store.committed(), self@, *reply),
            ),
            *final(shared) == *old(shared),
    {
        let mut adoption = self;
        let next: usize = adoption.next;
        proof {
            assert(next < self.candidates.len());
            assert(self@.candidates[next as int].1 == self.candidates@[next as int].1@);
        }
        match unlink_tolerant(&adoption.candidates[next].1, reply) {
            Err(text) => AdoptStep::Finished(Err(text)),
            Ok(()) => {
                adoption.next = next + 1;
                let step = adoption.unlink_next();
                proof {
                    let rows = old(shared).meta.store.committed();
                    assert((rows, step@) == unlink_step(rows, adoption@));
                }
                step
            },
        }
    }
}

/// No record is pointed at bytes that were not checked: reading a candidate moves
/// a record to another depth only where the bytes hash to its address, and then
/// to the depth of that candidate.
pub proof fn lemma_adopts_checked(
    rows: Rows,
    hasher: Hasher,
    a: AdoptionView,
    read: Read,
    id: Seq<u8>,
    b: Block,
)
    requires
        a.at < a.candidates.len(),
        block_at(rows, id) == Some(Ok::<Block, FsError>(b)),
        id == a.block ==> a.record == b,
    ensures
        ({
            let after = block_at(read_step(rows, hasher, a, read).0, id);
            &&& after matches Some(Ok(now))
            &&& now.rc == b.rc && now.size == b.size
            &&& now.depth != b.depth ==> id == a.block && now.depth
                == a.candidates[a.at as int].0 && (read matches Read::Bytes(bytes)
                && hasher.address(bytes@) == id)
        }),
{
    let candidate = a.candidates[a.at as int];
    if id == a.block {
        lemma_block_round_trip(Block { depth: candidate.0, ..a.record });
        lemma_block_round_trip(b.marked(true));
    } else {
        assert(block_row(id) != block_row(a.block));
    }
}

/// Adopting is idempotent: a record that was pointed at a candidate is then found
/// to have its file, and adopting again is skipped.
pub proof fn lemma_adopt_again(
    rows: Rows,
    root: Seq<char>,
    hasher: Hasher,
    a: AdoptionView,
    bytes: Vec<u8>,
)
    requires
        a.at < a.candidates.len(),
        hasher.address(bytes@) == a.block,
    ensures
        ({
            let now = read_step(rows, hasher, a, Read::Bytes(bytes)).0;
            let again = start_step(now, root, a.block, a.record_depth, a.candidates);
            &&& again.1 matches AdoptStepView::Wants(b, task)
            &&& task == TaskView::Stat(
                block_path(a.block, a.candidates[a.at as int].0 as nat, root),
            )
            &&& stat_step(now, b, true).0 == now
            &&& stat_step(now, b, true).1 matches AdoptStepView::Finished(status, _)
            &&& status is Skipped
        }),
{
    lemma_block_round_trip(Block { depth: a.candidates[a.at as int].0, ..a.record });
}

} // verus!
