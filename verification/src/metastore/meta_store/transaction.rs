//! Transactions: the reference-count protocol's atomic steps.

use vstd::prelude::*;
use vstd::utf8::*;

use super::{
    block_at, decode_usage, is_usage_error, moved_usage, usage_value, DEFAULT_BLOCK_TREE,
    DEFAULT_BUCKET_TREE, DEFAULT_USAGE_TREE, MULTIPART_PARTS_TREE, UPLOADS_TREE,
};
use crate::bytes::{
    le_bytes, lemma_byte_ranges, lemma_le_bytes_len, lemma_le_value_of_le_bytes, put_le,
};
use crate::metastore::block::{
    encode_block, lemma_block_bytes_canonical, lemma_block_round_trip, Block, BlockId,
};
use crate::metastore::errors::{FsError, MetaError};
use crate::metastore::object::{decode_object, Object, ObjectView};
use crate::metastore::traits::{
    lemma_opens_again, lookup, opens, opt_bytes, Rows, TransactionBackend,
};
use crate::metastore::upload_record::{decode_upload, UploadRecord, UploadView};

verus! {

/// How a block decrement resolved.
#[derive(Debug)]
pub enum BlockDecrement {
    /// No record for the block existed.
    Missing,
    /// The reference count was above one and has been decremented; the block
    /// and its file live on.
    Decremented(Block),
    /// This was the last reference: the record has been removed in this
    /// transaction. After committing, the caller must unlink the file at the
    /// block's recorded depth.
    Removed(Block),
}

/// A database transaction that can be committed or rolled back.
///
/// It has the store to itself until then; one that is dropped instead leaves
/// the committed state as it was.
pub struct Transaction<'a, S: TransactionBackend> {
    pub store: &'a mut S,
}

/// A step of a transaction leaves the committed state alone, takes no tree away
/// and keeps a healthy store healthy.
pub open spec fn step<S: TransactionBackend>(before: S, after: S) -> bool {
    &&& after.committed() == before.committed()
    &&& before.names().subset_of(after.names())
    &&& before.healthy() ==> after.healthy()
}

/// Where the record of a block stands.
pub open spec fn block_row(id: Seq<u8>) -> (Seq<char>, Seq<u8>) {
    (DEFAULT_BLOCK_TREE@, id)
}

/// The record that a new file for a block gives: a fresh one, or the degraded
/// one healed, with the new reference added and the depth the file landed at.
pub open spec fn healed(present: Option<Block>, data_len: usize, depth: u8) -> Block {
    match present {
        None => Block { size: data_len, depth, rc: 1, flags: 0 },
        Some(b) => Block {
            size: data_len,
            depth,
            rc: (b.rc + 1) as usize,
            flags: b.marked(false).flags,
        },
    }
}

/// Whether an error reports that the record of a block does not decode.
pub open spec fn is_damaged_block(rows: Rows, id: Seq<u8>, e: MetaError) -> bool {
    block_at(rows, id) matches Some(Err(damage)) && e == MetaError::Corruption(damage)
}

/// Whether an error reports that an object record does not decode.
pub open spec fn is_damaged_object(
    rows: Rows,
    bucket: Seq<char>,
    key: Seq<u8>,
    e: MetaError,
) -> bool {
    &&& lookup(rows, bucket, key) matches Some(raw)
    &&& decode_object(raw) matches Err(damage)
    &&& e == MetaError::Corruption(damage)
}

/// Whether an error reports that an upload record does not decode.
pub open spec fn is_damaged_upload(rows: Rows, key: Seq<u8>, e: MetaError) -> bool {
    &&& lookup(rows, UPLOADS_TREE@, key) matches Some(raw)
    &&& decode_upload(raw) matches Err(damage)
    &&& e == MetaError::Corruption(damage)
}

impl<'a, S: TransactionBackend> Transaction<'a, S> {
    /// What reads of the transaction see.
    pub open spec fn staged(&self) -> Rows {
        (*self.store).staged()
    }

    /// What is committed.
    pub open spec fn committed(&self) -> Rows {
        (*self.store).committed()
    }

    /// The names of the trees that exist.
    pub open spec fn names(&self) -> Set<Seq<char>> {
        (*self.store).names()
    }

    /// Whether every call on the store succeeds.
    pub open spec fn healthy(&self) -> bool {
        (*self.store).healthy()
    }

    /// Opens a transaction.
    pub fn new(store: &'a mut S) -> (tx: Self)
        ensures
            tx.staged() == old(store).committed(),
            step(*old(store), *tx.store),
            tx.names() == old(store).names(),
            *final(tx.store) == *final(store),
    {
        store.begin();
        Transaction { store }
    }

    /// Commits the transaction, making all changes permanent. A failed call may
    /// or may not have done so.
    pub fn commit(self) -> (out: Result<(), MetaError>)
        ensures
            out is Ok ==> final(self.store).committed() == self.staged(),
            out is Err ==> final(self.store).committed() == self.committed()
                || final(self.store).committed() == self.staged(),
            old(self.store).names().subset_of(final(self.store).names()),
            self.healthy() ==> out is Ok && final(self.store).healthy(),
    {
        self.store.commit()
    }

    /// Rolls back the transaction, discarding all changes.
    pub fn rollback(self)
        ensures
            step(*old(self.store), *final(self.store)),
            final(self.store).names() == old(self.store).names(),
            final(self.store).staged() == self.committed(),
    {
        self.store.rollback()
    }

    /// The dedup half of the write protocol: if a record for `block_hash`
    /// exists, bumps its reference count by one and returns the updated block;
    /// otherwise returns `None` and changes nothing.
    ///
    /// A record flagged degraded reports as absent: its file is gone, so
    /// deduplicating against it would commit another damaged object.
    pub fn bump_block_rc(&mut self, block_hash: BlockId) -> (out: Result<Option<Block>, MetaError>)
        requires
            block_at(old(self).staged(), block_hash@) matches Some(Ok(b)) ==> b.degraded() || b.rc
                < usize::MAX,
        ensures
            step(*old(self).store, *final(self).store),
            opens(old(self).names(), final(self).names(), DEFAULT_BLOCK_TREE@, out is Ok),
            *final(final(self).store) == *final(old(self).store),
            match out {
                Ok(None) => {
                    &&& final(self).staged() == old(self).staged()
                    &&& block_at(old(self).staged(), block_hash@) matches Some(found) ==> found
                        matches Ok(b) && b.degraded()
                },
                Ok(Some(b)) => {
                    &&& block_at(old(self).staged(), block_hash@) matches Some(Ok(found))
                    &&& !found.degraded()
                    &&& b == (Block { rc: (found.rc + 1) as usize, ..found })
                    &&& final(self).staged() == old(self).staged().insert(
                        block_row(block_hash@),
                        encode_block(b),
                    )
                },
                Err(e) => {
                    &&& final(self).staged() == old(self).staged()
                    &&& old(self).healthy() ==> is_damaged_block(
                        old(self).staged(),
                        block_hash@,
                        e,
                    )
                },
            },
    {
        proof {
            lemma_opens_again(self.names(), DEFAULT_BLOCK_TREE@);
        }
        match self.store.get(DEFAULT_BLOCK_TREE, block_hash.as_slice()) {
            Err(e) => Err(e),
            Ok(None) => Ok(None),
            Ok(Some(raw)) => match Block::try_from(&raw) {
                Err(e) => Err(MetaError::Corruption(e)),
                Ok(found) => {
                    if found.is_degraded() {
                        return Ok(None);
                    }
                    let mut block = found;
                    block.increment_refcount();
                    match self.store.insert(
                        DEFAULT_BLOCK_TREE,
                        block_hash.as_slice(),
                        block.to_vec(),
                    ) {
                        Ok(()) => Ok(Some(block)),
                        Err(e) => Err(e),
                    }
                },
            },
        }
    }

    /// Reads and removes the object record for `key`, so that read and remove
    /// commit as one: that is what keeps a concurrent double delete from
    /// releasing the object's blocks twice.
    ///
    /// Returns `None` and changes nothing if the key was absent.
    pub fn take_object(&mut self, bucket: &str, key: &[u8]) -> (out: Result<
        Option<Object>,
        MetaError,
    >)
        ensures
            step(*old(self).store, *final(self).store),
            opens(old(self).names(), final(self).names(), bucket@, out is Ok),
            *final(final(self).store) == *final(old(self).store),
            match out {
                Ok(None) => {
                    &&& lookup(old(self).staged(), bucket@, key@) is None
                    &&& final(self).staged() == old(self).staged()
                },
                Ok(Some(object)) => {
                    &&& lookup(old(self).staged(), bucket@, key@) matches Some(raw)
                    &&& decode_object(raw) == Ok::<ObjectView, FsError>(object@)
                    &&& final(self).staged() == old(self).staged().remove((bucket@, key@))
                },
                Err(e) => {
                    &&& final(self).staged() == old(self).staged()
                    &&& old(self).healthy() ==> is_damaged_object(
                        old(self).staged(),
                        bucket@,
                        key@,
                        e,
                    )
                },
            },
    {
        proof {
            lemma_opens_again(self.names(), bucket@);
        }
        match self.store.get(bucket, key) {
            Err(e) => Err(e),
            Ok(None) => Ok(None),
            Ok(Some(raw)) => match Object::try_from(&raw) {
                Err(e) => Err(MetaError::Corruption(e)),
                Ok(object) => match self.store.remove(bucket, key) {
                    Err(e) => Err(e),
                    Ok(()) => Ok(Some(object)),
                },
            },
        }
    }

    /// Reads the object record for `key` and writes `raw_obj` over it, and
    /// returns what it displaced (`None` if the key was free).
    ///
    /// The returned record is what this writer displaced, so its blocks are
    /// this writer's to release. A displaced record that will not decode fails
    /// the whole call and nothing is written: writing over it would strand
    /// every reference it names.
    pub fn replace_object(&mut self, bucket: &str, key: &[u8], raw_obj: Vec<u8>) -> (out: Result<
        Option<Object>,
        MetaError,
    >)
        ensures
            step(*old(self).store, *final(self).store),
            opens(old(self).names(), final(self).names(), bucket@, out is Ok),
            *final(final(self).store) == *final(old(self).store),
            match out {
                Ok(displaced) => {
                    &&& final(self).staged() == old(self).staged().insert((bucket@, key@), raw_obj@)
                    &&& match displaced {
                        None => lookup(old(self).staged(), bucket@, key@) is None,
                        Some(object) => lookup(old(self).staged(), bucket@, key@) matches Some(raw)
                            && decode_object(raw) == Ok::<ObjectView, FsError>(object@),
                    }
                },
                Err(e) => {
                    &&& final(self).staged() == old(self).staged()
                    &&& old(self).healthy() ==> is_damaged_object(
                        old(self).staged(),
                        bucket@,
                        key@,
                        e,
                    )
                },
            },
    {
        proof {
            lemma_opens_again(self.names(), bucket@);
        }
        let displaced: Option<Object> = match self.store.get(bucket, key) {
            Err(e) => {
                return Err(e);
            },
            Ok(None) => None,
            Ok(Some(raw)) => match Object::try_from(&raw) {
                Err(e) => {
                    return Err(MetaError::Corruption(e));
                },
                Ok(object) => Some(object),
            },
        };
        match self.store.insert(bucket, key, raw_obj) {
            Err(e) => Err(e),
            Ok(()) => Ok(displaced),
        }
    }

    /// Reads the raw bucket record for `bucket_name`.
    pub fn get_bucket_record(&mut self, bucket_name: &str) -> (out: Result<
        Option<Vec<u8>>,
        MetaError,
    >)
        ensures
            step(*old(self).store, *final(self).store),
            opens(old(self).names(), final(self).names(), DEFAULT_BUCKET_TREE@, out is Ok),
            *final(final(self).store) == *final(old(self).store),
            final(self).staged() == old(self).staged(),
            out matches Ok(raw) ==> opt_bytes(raw) == lookup(
                old(self).staged(),
                DEFAULT_BUCKET_TREE@,
                encode_utf8(bucket_name@),
            ),
            old(self).healthy() ==> out is Ok,
    {
        self.store.get(DEFAULT_BUCKET_TREE, bucket_name.as_bytes())
    }

    /// Writes the raw bucket record for `bucket_name`, over whatever is there.
    pub fn put_bucket_record(&mut self, bucket_name: &str, raw_bucket: Vec<u8>) -> (out: Result<
        (),
        MetaError,
    >)
        ensures
            step(*old(self).store, *final(self).store),
            opens(old(self).names(), final(self).names(), DEFAULT_BUCKET_TREE@, out is Ok),
            *final(final(self).store) == *final(old(self).store),
            out is Ok ==> final(self).staged() == old(self).staged().insert(
                (DEFAULT_BUCKET_TREE@, encode_utf8(bucket_name@)),
                raw_bucket@,
            ),
            out is Err ==> final(self).staged() == old(self).staged(),
            old(self).healthy() ==> out is Ok,
    {
        self.store.insert(DEFAULT_BUCKET_TREE, bucket_name.as_bytes(), raw_bucket)
    }

    /// Moves `bucket`'s usage counter by `delta` logical bytes, and returns
    /// what it now reads. A counter that was never written counts from zero; a
    /// decrement below zero is clamped.
    ///
    /// Called from the same transaction as the record mutation it accounts for,
    /// so counter and records commit or roll back together.
    pub fn add_bucket_usage(&mut self, bucket: &str, delta: i64) -> (out: Result<u64, MetaError>)
        ensures
            step(*old(self).store, *final(self).store),
            opens(old(self).names(), final(self).names(), DEFAULT_USAGE_TREE@, out is Ok),
            *final(final(self).store) == *final(old(self).store),
            match out {
                Ok(updated) => {
                    &&& usage_at(old(self).staged(), bucket@) matches Some(current)
                    &&& updated == moved_usage(current, delta as int)
                    &&& final(self).staged() == old(self).staged().insert(
                        usage_row(bucket@),
                        le_bytes(updated as nat, 8),
                    )
                },
                Err(e) => {
                    &&& final(self).staged() == old(self).staged()
                    &&& old(self).healthy() ==> usage_at(old(self).staged(), bucket@) is None
                        && is_usage_error(e, bucket@, old(self).staged()[usage_row(bucket@)])
                },
            },
    {
        proof {
            lemma_opens_again(self.names(), DEFAULT_USAGE_TREE@);
        }
        let current: u64 = match self.store.get(DEFAULT_USAGE_TREE, bucket.as_bytes()) {
            Err(e) => {
                return Err(e);
            },
            Ok(Some(raw)) => match decode_usage(bucket, &raw) {
                Ok(n) => n,
                Err(e) => {
                    return Err(e);
                },
            },
            Ok(None) => 0,
        };
        let updated: u64 = if delta >= 0 {
            current.saturating_add(delta as u64)
        } else {
            let down: u64 = (-(delta + 1)) as u64 + 1;
            current.saturating_sub(down)
        };
        let mut raw: Vec<u8> = Vec::new();
        put_le(&mut raw, updated, 8);
        proof {
            assert(raw@ =~= le_bytes(updated as nat, 8));
        }
        match self.store.insert(DEFAULT_USAGE_TREE, bucket.as_bytes(), raw) {
            Ok(()) => Ok(updated),
            Err(e) => Err(e),
        }
    }

    /// Sets `bucket`'s usage counter to zero: the counter a bucket starts life
    /// with.
    pub fn reset_bucket_usage(&mut self, bucket: &str) -> (out: Result<(), MetaError>)
        ensures
            step(*old(self).store, *final(self).store),
            opens(old(self).names(), final(self).names(), DEFAULT_USAGE_TREE@, out is Ok),
            *final(final(self).store) == *final(old(self).store),
            out is Ok ==> final(self).staged() == old(self).staged().insert(
                usage_row(bucket@),
                le_bytes(0, 8),
            ),
            out is Err ==> final(self).staged() == old(self).staged(),
            old(self).healthy() ==> out is Ok,
    {
        let mut raw: Vec<u8> = Vec::new();
        put_le(&mut raw, 0, 8);
        proof {
            assert(raw@ =~= le_bytes(0, 8));
        }
        self.store.insert(DEFAULT_USAGE_TREE, bucket.as_bytes(), raw)
    }

    /// The multipart claim: reads and removes the upload record at `key`.
    ///
    /// Complete and abort both begin here, and the atomic read and remove makes
    /// exactly one of them the winner: the loser gets `None`.
    pub fn take_upload(&mut self, key: &[u8]) -> (out: Result<Option<UploadRecord>, MetaError>)
        ensures
            step(*old(self).store, *final(self).store),
            opens(old(self).names(), final(self).names(), UPLOADS_TREE@, out is Ok),
            *final(final(self).store) == *final(old(self).store),
            match out {
                Ok(None) => {
                    &&& lookup(old(self).staged(), UPLOADS_TREE@, key@) is None
                    &&& final(self).staged() == old(self).staged()
                },
                Ok(Some(record)) => {
                    &&& lookup(old(self).staged(), UPLOADS_TREE@, key@) matches Some(raw)
                    &&& decode_upload(raw) == Ok::<UploadView, FsError>(record@)
                    &&& final(self).staged() == old(self).staged().remove((UPLOADS_TREE@, key@))
                },
                Err(e) => {
                    &&& final(self).staged() == old(self).staged()
                    &&& old(self).healthy() ==> is_damaged_upload(old(self).staged(), key@, e)
                },
            },
    {
        proof {
            lemma_opens_again(self.names(), UPLOADS_TREE@);
        }
        match self.store.get(UPLOADS_TREE, key) {
            Err(e) => Err(e),
            Ok(None) => Ok(None),
            Ok(Some(raw)) => match UploadRecord::try_from(&raw) {
                Err(e) => Err(MetaError::Corruption(e)),
                Ok(record) => match self.store.remove(UPLOADS_TREE, key) {
                    Err(e) => Err(e),
                    Ok(()) => Ok(Some(record)),
                },
            },
        }
    }

    /// The per-part claim: reads and removes the part record at `key`.
    /// Removing the record is the claim on its blocks.
    pub fn take_part(&mut self, key: &[u8]) -> (out: Result<Option<Vec<u8>>, MetaError>)
        ensures
            step(*old(self).store, *final(self).store),
            opens(old(self).names(), final(self).names(), MULTIPART_PARTS_TREE@, out is Ok),
            *final(final(self).store) == *final(old(self).store),
            match out {
                Ok(raw) => {
                    &&& opt_bytes(raw) == lookup(old(self).staged(), MULTIPART_PARTS_TREE@, key@)
                    &&& final(self).staged() == old(self).staged().remove(
                        (MULTIPART_PARTS_TREE@, key@),
                    )
                },
                Err(_) => final(self).staged() == old(self).staged() && !old(self).healthy(),
            },
    {
        proof {
            lemma_opens_again(self.names(), MULTIPART_PARTS_TREE@);
        }
        match self.store.get(MULTIPART_PARTS_TREE, key) {
            Err(e) => Err(e),
            Ok(None) => {
                proof {
                    assert(old(self).staged().remove((MULTIPART_PARTS_TREE@, key@)) =~= old(
                        self,
                    ).staged());
                }
                Ok(None)
            },
            Ok(Some(raw)) => match self.store.remove(MULTIPART_PARTS_TREE, key) {
                Err(e) => Err(e),
                Ok(()) => Ok(Some(raw)),
            },
        }
    }

    /// The delete-side block step: re-checks the record and applies one
    /// reference decrement.
    ///
    /// On `Removed` the caller must commit first and then unlink the file at
    /// the returned block's depth. A degraded record accounts for real holders,
    /// so it decrements like any other.
    pub fn decrement_block_rc(&mut self, block_hash: BlockId) -> (out: Result<
        BlockDecrement,
        MetaError,
    >)
        requires
            block_at(old(self).staged(), block_hash@) matches Some(Ok(b)) ==> b.rc > 0,
        ensures
            step(*old(self).store, *final(self).store),
            opens(old(self).names(), final(self).names(), DEFAULT_BLOCK_TREE@, out is Ok),
            *final(final(self).store) == *final(old(self).store),
            match out {
                Ok(BlockDecrement::Missing) => {
                    &&& block_at(old(self).staged(), block_hash@) is None
                    &&& final(self).staged() == old(self).staged()
                },
                Ok(BlockDecrement::Removed(b)) => {
                    &&& block_at(old(self).staged(), block_hash@) == Some(Ok::<Block, FsError>(b))
                    &&& b.rc == 1
                    &&& final(self).staged() == old(self).staged().remove(block_row(block_hash@))
                },
                Ok(BlockDecrement::Decremented(b)) => {
                    &&& block_at(old(self).staged(), block_hash@) matches Some(Ok(found))
                    &&& found.rc > 1
                    &&& b == (Block { rc: (found.rc - 1) as usize, ..found })
                    &&& final(self).staged() == old(self).staged().insert(
                        block_row(block_hash@),
                        encode_block(b),
                    )
                },
                Err(e) => {
                    &&& final(self).staged() == old(self).staged()
                    &&& old(self).healthy() ==> is_damaged_block(
                        old(self).staged(),
                        block_hash@,
                        e,
                    )
                },
            },
    {
        proof {
            lemma_opens_again(self.names(), DEFAULT_BLOCK_TREE@);
        }
        match self.store.get(DEFAULT_BLOCK_TREE, block_hash.as_slice()) {
            Err(e) => Err(e),
            Ok(None) => Ok(BlockDecrement::Missing),
            Ok(Some(raw)) => match Block::try_from(&raw) {
                Err(e) => Err(MetaError::Corruption(e)),
                Ok(found) => {
                    if found.rc() == 1 {
                        return match self.store.remove(DEFAULT_BLOCK_TREE, block_hash.as_slice()) {
                            Ok(()) => Ok(BlockDecrement::Removed(found)),
                            Err(e) => Err(e),
                        };
                    }
                    let mut block = found;
                    block.decrement_refcount();
                    match self.store.insert(
                        DEFAULT_BLOCK_TREE,
                        block_hash.as_slice(),
                        block.to_vec(),
                    ) {
                        Ok(()) => Ok(BlockDecrement::Decremented(block)),
                        Err(e) => Err(e),
                    }
                },
            },
        }
    }

    /// The new-block half of the write protocol: writes the record for
    /// `block_hash`, whose file is now durable at `depth`.
    ///
    /// There are two states to meet, because the bump has just reported the
    /// record absent or degraded: no record, which gives a fresh one with one
    /// reference, or a degraded one, which the new file heals.
    pub fn insert_new_block(&mut self, block_hash: BlockId, data_len: usize, depth: u8) -> (out:
        Result<Block, MetaError>)
        requires
            block_at(old(self).staged(), block_hash@) matches Some(Ok(b)) ==> b.degraded() && b.size
                == data_len && b.rc < usize::MAX,
        ensures
            step(*old(self).store, *final(self).store),
            opens(old(self).names(), final(self).names(), DEFAULT_BLOCK_TREE@, out is Ok),
            *final(final(self).store) == *final(old(self).store),
            match out {
                Ok(b) => {
                    &&& match block_at(old(self).staged(), block_hash@) {
                        None => b == healed(None, data_len, depth),
                        Some(Ok(found)) => b == healed(Some(found), data_len, depth),
                        Some(Err(_)) => false,
                    }
                    &&& !b.degraded()
                    &&& final(self).staged() == old(self).staged().insert(
                        block_row(block_hash@),
                        encode_block(b),
                    )
                },
                Err(e) => {
                    &&& final(self).staged() == old(self).staged()
                    &&& old(self).healthy() ==> is_damaged_block(
                        old(self).staged(),
                        block_hash@,
                        e,
                    )
                },
            },
    {
        proof {
            lemma_opens_again(self.names(), DEFAULT_BLOCK_TREE@);
        }
        let present: Option<Block> = match self.store.get(
            DEFAULT_BLOCK_TREE,
            block_hash.as_slice(),
        ) {
            Err(e) => {
                return Err(e);
            },
            Ok(None) => None,
            Ok(Some(raw)) => match Block::try_from(&raw) {
                Err(e) => {
                    return Err(MetaError::Corruption(e));
                },
                Ok(block) => Some(block),
            },
        };
        let block: Block = match present {
            None => Block::new(data_len, depth),
            Some(found) => {
                let mut live = found;
                live.set_degraded(false);
                Block::from_parts(data_len, depth, live.rc() + 1, live.flags())
            },
        };
        match self.store.insert(DEFAULT_BLOCK_TREE, block_hash.as_slice(), block.to_vec()) {
            Ok(()) => Ok(block),
            Err(e) => Err(e),
        }
    }

    /// Writes `block`'s record verbatim, replacing whatever is there: the raw
    /// write that repairs need, to which none of the accounting rules apply.
    pub fn put_block_record(&mut self, block_hash: BlockId, block: &Block) -> (out: Result<
        (),
        MetaError,
    >)
        ensures
            step(*old(self).store, *final(self).store),
            opens(old(self).names(), final(self).names(), DEFAULT_BLOCK_TREE@, out is Ok),
            *final(final(self).store) == *final(old(self).store),
            out is Ok ==> final(self).staged() == old(self).staged().insert(
                block_row(block_hash@),
                encode_block(*block),
            ),
            out is Err ==> final(self).staged() == old(self).staged(),
            old(self).healthy() ==> out is Ok,
    {
        self.store.insert(DEFAULT_BLOCK_TREE, block_hash.as_slice(), block.to_vec())
    }

    /// Removes the record for `block_hash`; an absent record is not an error.
    pub fn remove_block_record(&mut self, block_hash: BlockId) -> (out: Result<(), MetaError>)
        ensures
            step(*old(self).store, *final(self).store),
            opens(old(self).names(), final(self).names(), DEFAULT_BLOCK_TREE@, out is Ok),
            *final(final(self).store) == *final(old(self).store),
            out is Ok ==> final(self).staged() == old(self).staged().remove(block_row(block_hash@)),
            out is Err ==> final(self).staged() == old(self).staged(),
            old(self).healthy() ==> out is Ok,
    {
        self.store.remove(DEFAULT_BLOCK_TREE, block_hash.as_slice())
    }

    /// Reads the record for `block_hash`.
    pub fn get_block_record(&mut self, block_hash: BlockId) -> (out: Result<
        Option<Block>,
        MetaError,
    >)
        ensures
            step(*old(self).store, *final(self).store),
            opens(old(self).names(), final(self).names(), DEFAULT_BLOCK_TREE@, out is Ok),
            *final(final(self).store) == *final(old(self).store),
            final(self).staged() == old(self).staged(),
            match out {
                Ok(None) => block_at(old(self).staged(), block_hash@) is None,
                Ok(Some(b)) => block_at(old(self).staged(), block_hash@) == Some(
                    Ok::<Block, FsError>(b),
                ),
                Err(e) => old(self).healthy() ==> is_damaged_block(
                        old(self).staged(),
                        block_hash@,
                        e,
                    ),
            },
    {
        match self.store.get(DEFAULT_BLOCK_TREE, block_hash.as_slice()) {
            Err(e) => Err(e),
            Ok(None) => Ok(None),
            Ok(Some(raw)) => match Block::try_from(&raw) {
                Err(e) => Err(MetaError::Corruption(e)),
                Ok(block) => Ok(Some(block)),
            },
        }
    }
}

/// Where the usage counter of a bucket stands.
pub open spec fn usage_row(bucket: Seq<char>) -> (Seq<char>, Seq<u8>) {
    (DEFAULT_USAGE_TREE@, encode_utf8(bucket))
}

/// What the usage counter of a bucket reads: zero where it was never written,
/// nothing where the row is damaged.
pub open spec fn usage_at(rows: Rows, bucket: Seq<char>) -> Option<nat> {
    match lookup(rows, DEFAULT_USAGE_TREE@, encode_utf8(bucket)) {
        Some(raw) => usage_value(raw),
        None => Some(0),
    }
}

/// A bump and the decrement that undoes it leave the rows as they were.
pub proof fn lemma_bump_then_decrement(rows: Rows, id: Seq<u8>, b: Block)
    requires
        block_at(rows, id) == Some(Ok::<Block, FsError>(b)),
        1 <= b.rc < usize::MAX,
    ensures
        ({
            let bumped = Block { rc: (b.rc + 1) as usize, ..b };
            let after = rows.insert(block_row(id), encode_block(bumped));
            &&& block_at(after, id) == Some(Ok::<Block, FsError>(bumped))
            &&& bumped.rc > 1
            &&& after.insert(
                block_row(id),
                encode_block(Block { rc: (bumped.rc - 1) as usize, ..bumped }),
            ) == rows
        }),
{
    let bumped = Block { rc: (b.rc + 1) as usize, ..b };
    let after = rows.insert(block_row(id), encode_block(bumped));
    lemma_block_round_trip(bumped);
    lemma_block_bytes_canonical(rows[block_row(id)], b);
    assert(Block { rc: (bumped.rc - 1) as usize, ..bumped } == b);
    assert(after.insert(block_row(id), encode_block(b)) =~= rows);
}

/// A fresh block has one reference, and dropping it removes the record.
pub proof fn lemma_fresh_then_decrement(rows: Rows, id: Seq<u8>, data_len: usize, depth: u8)
    requires
        block_at(rows, id) is None,
    ensures
        ({
            let fresh = healed(None, data_len, depth);
            let after = rows.insert(block_row(id), encode_block(fresh));
            &&& block_at(after, id) == Some(Ok::<Block, FsError>(fresh))
            &&& fresh.rc == 1
            &&& after.remove(block_row(id)) == rows
        }),
{
    let fresh = healed(None, data_len, depth);
    lemma_block_round_trip(fresh);
    assert(rows.insert(block_row(id), encode_block(fresh)).remove(block_row(id)) =~= rows);
}

/// A healed record is live, at the new depth, with one reference more; a bump
/// then finds it.
pub proof fn lemma_heal_is_live(rows: Rows, id: Seq<u8>, b: Block, depth: u8)
    requires
        block_at(rows, id) == Some(Ok::<Block, FsError>(b)),
        b.degraded(),
        b.rc < usize::MAX,
    ensures
        ({
            let live = healed(Some(b), b.size, depth);
            let after = rows.insert(block_row(id), encode_block(live));
            &&& block_at(after, id) == Some(Ok::<Block, FsError>(live))
            &&& !live.degraded()
            &&& live.rc == b.rc + 1
            &&& live.depth == depth
            &&& live.marked(true).flags == b.flags
        }),
{
    lemma_block_round_trip(healed(Some(b), b.size, depth));
}

/// The second of two replacements displaces what the first one wrote, and
/// leaves the rows as if it had been the only one.
pub proof fn lemma_replace_twice(
    rows: Rows,
    bucket: Seq<char>,
    key: Seq<u8>,
    first: Seq<u8>,
    second: Seq<u8>,
)
    ensures
        lookup(rows.insert((bucket, key), first), bucket, key) == Some(first),
        rows.insert((bucket, key), first).insert((bucket, key), second) == rows.insert(
            (bucket, key),
            second,
        ),
{
    assert(rows.insert((bucket, key), first).insert((bucket, key), second) =~= rows.insert(
        (bucket, key),
        second,
    ));
}

/// What one caller has taken the next one finds gone: of two takes at most one
/// wins.
pub proof fn lemma_take_once(rows: Rows, tree: Seq<char>, key: Seq<u8>)
    ensures
        lookup(rows.remove((tree, key)), tree, key) is None,
        rows.remove((tree, key)).remove((tree, key)) == rows.remove((tree, key)),
{
    assert(rows.remove((tree, key)).remove((tree, key)) =~= rows.remove((tree, key)));
}

/// A written usage counter reads back, and a delta that is neither clamped nor
/// saturated is undone by the opposite one.
pub proof fn lemma_usage_round_trip(rows: Rows, bucket: Seq<char>, usage: nat, delta: int)
    requires
        usage <= u64::MAX,
        0 <= usage + delta <= u64::MAX,
    ensures
        usage_at(rows.insert(usage_row(bucket), le_bytes(usage, 8)), bucket) == Some(usage),
        moved_usage(moved_usage(usage, delta), -delta) == usage,
{
    lemma_byte_ranges();
    lemma_le_bytes_len(usage, 8);
    lemma_le_value_of_le_bytes(usage, 8);
}

} // verus!
