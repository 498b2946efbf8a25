//! Bucket, object and usage operations.

use vstd::prelude::*;
use vstd::slice::slice_to_vec;
use vstd::string::*;
use vstd::utf8::*;

use super::transaction::{is_damaged_object, step, usage_row};
use super::{
    decode_usage, is_usage_error, usage_value, BlockTree, MetaStore, Transaction,
    DEFAULT_BLOCK_TREE, DEFAULT_BUCKET_TREE, DEFAULT_USAGE_TREE,
};
use crate::bytes::{le_bytes, put_le};
use crate::hasher::header_hasher;
use crate::metastore::bucket_meta::{decode_bucket, BucketMeta};
use crate::metastore::errors::{FsError, MetaError};
use crate::metastore::object::{decode_object, Object, ObjectView};
use crate::metastore::store_header::ops::{header_at, refuses, refuses_bytes, with_header};
use crate::metastore::store_header::{
    decodes_header, is_minted, names_store, read_header, write_header, HeaderSpec, StoreHeader,
    StoreHeaderError, StoreInit, STORE_HEADER_TREE, STORE_HEADER_VERSION,
};
use crate::metastore::traits::{
    is_listed, lemma_listing, listing, lists, lists_names, lookup, pairs, rows_in, tree_of,
    with_tree, BaseMetaTree, Entries, KeyValuePairs, MetaTreeExt, Rows, Store, TransactionBackend,
};
use crate::text::{utf8_complaint, utf8_text};

verus! {

/// The record size that a store inlines up to unless it is told otherwise: low
/// enough to practically disable inlining.
pub const DEFAULT_INLINED_METADATA_SIZE: usize = 1;

/// Whether a name belongs to the store's internal trees.
pub open spec fn is_reserved_name(name: Seq<char>) -> bool {
    name.len() > 0 && name[0] == '_'
}

/// Whether a name belongs to the store's internal trees.
pub fn has_reserved_prefix(name: &str) -> (yes: bool)
    ensures
        yes == is_reserved_name(name@),
{
    name.unicode_len() > 0 && name.get_char(0) == '_'
}

/// Whether an error is the refusal of a reserved bucket name.
pub open spec fn refuses_name(e: MetaError, name: Seq<char>) -> bool {
    e matches MetaError::ReservedBucketName(refused) && refused@ == name
}

/// Where the record of a bucket stands.
pub open spec fn bucket_row(name: Seq<char>) -> (Seq<char>, Seq<u8>) {
    (DEFAULT_BUCKET_TREE@, encode_utf8(name))
}

/// Writing one row through its tree is writing the row.
pub proof fn lemma_insert_row(rows: Rows, tree: Seq<char>, key: Seq<u8>, value: Seq<u8>)
    ensures
        with_tree(rows, tree, tree_of(rows, tree).insert(key, value)) == rows.insert(
            (tree, key),
            value,
        ),
        with_tree(rows, tree, tree_of(rows, tree).remove(key)) == rows.remove((tree, key)),
        with_tree(rows, tree, tree_of(rows, tree)) == rows,
{
    assert(with_tree(rows, tree, tree_of(rows, tree).insert(key, value)) =~= rows.insert(
        (tree, key),
        value,
    ));
    assert(with_tree(rows, tree, tree_of(rows, tree).remove(key)) =~= rows.remove((tree, key)));
    assert(with_tree(rows, tree, tree_of(rows, tree)) =~= rows);
}

/// Writes one row of a store. A failed call may or may not have written it.
fn put_row<S: Store>(store: &mut S, tree: &str, key: &[u8], value: Vec<u8>) -> (out: Result<
    (),
    MetaError,
>)
    ensures
        out is Ok ==> final(store).committed() == old(store).committed().insert(
            (tree@, key@),
            value@,
        ) && final(store).names() == old(store).names().insert(tree@),
        out is Err ==> final(store).committed() == old(store).committed()
            || final(store).committed() == old(store).committed().insert((tree@, key@), value@),
        old(store).names().subset_of(final(store).names()),
        old(store).healthy() ==> out is Ok && final(store).healthy(),
{
    proof {
        lemma_insert_row(store.committed(), tree@, key@, value@);
    }
    match store.tree_open(tree) {
        Err(e) => Err(e),
        Ok(tree) => tree.insert(key, value),
    }
}

/// Removes one row of a store. A failed call may or may not have removed it.
fn drop_row<S: Store>(store: &mut S, tree: &str, key: &[u8]) -> (out: Result<(), MetaError>)
    ensures
        out is Ok ==> final(store).committed() == old(store).committed().remove((tree@, key@))
            && final(store).names() == old(store).names().insert(tree@),
        out is Err ==> final(store).committed() == old(store).committed()
            || final(store).committed() == old(store).committed().remove((tree@, key@)),
        old(store).names().subset_of(final(store).names()),
        old(store).healthy() ==> out is Ok && final(store).healthy(),
{
    proof {
        lemma_insert_row(store.committed(), tree@, key@, Seq::empty());
    }
    match store.tree_open(tree) {
        Err(e) => Err(e),
        Ok(tree) => match tree.remove(key) {
            Err(e) => Err(e),
            Ok(_) => Ok(()),
        },
    }
}

/// What dropping a bucket leaves: its row, its usage counter and its tree are
/// gone.
pub open spec fn without_bucket(rows: Rows, name: Seq<char>, has_tree: bool) -> Rows {
    let rest = rows.remove(bucket_row(name)).remove(usage_row(name));
    if has_tree {
        with_tree(rest, name, Entries::empty())
    } else {
        rest
    }
}

/// Whether rows are those that a bucket's drop leaves where it stops: its row is
/// dropped first, then its usage counter, then its tree.
pub open spec fn partly_dropped(rows: Rows, now: Rows, name: Seq<char>) -> bool {
    ||| now == rows
    ||| now == rows.remove(bucket_row(name))
    ||| now == without_bucket(rows, name, false)
    ||| now == without_bucket(rows, name, true)
}

/// A store's rows with a bucket created.
pub open spec fn with_bucket(rows: Rows, name: Seq<char>, raw: Seq<u8>) -> Rows {
    rows.insert(bucket_row(name), raw).insert(usage_row(name), le_bytes(0, 8))
}

impl<S: Store> MetaStore<S> {
    /// Wraps a store. This neither writes nor checks the store header.
    pub fn new(store: S, inlined_metadata_size: Option<usize>) -> (meta: Self)
        ensures
            meta.store == store,
            meta.inlined_metadata_size == (match inlined_metadata_size {
                Some(n) => n,
                None => DEFAULT_INLINED_METADATA_SIZE,
            }),
    {
        let inlined_metadata_size: usize = match inlined_metadata_size {
            Some(n) => n,
            None => DEFAULT_INLINED_METADATA_SIZE,
        };
        MetaStore { store, inlined_metadata_size }
    }

    /// Takes a store into use: one that is being created gets a fresh header
    /// with the hash of `spec`, one that exists is validated by the header it
    /// has, and `spec` is ignored.
    ///
    /// `init` has to be found out before the database is opened. Where a header
    /// is written, its copy for manual recovery is to be written after it.
    pub fn open_or_create(
        store: S,
        init: StoreInit,
        db_path: &str,
        inlined_metadata_size: Option<usize>,
        spec: HeaderSpec,
    ) -> (out: Result<(Self, StoreHeader), MetaError>)
        ensures
            match init {
                StoreInit::Create => match out {
                    Ok((meta, header)) => {
                        &&& header_hasher(spec.hash_algo, spec.hash_width) matches Ok(hasher)
                        &&& header.hasher == hasher
                        &&& header.version == STORE_HEADER_VERSION
                        &&& names_store(header.store_id@)
                        &&& is_minted(header.store_id@)
                        &&& meta.store.committed() == with_header(store.committed(), header)
                        &&& meta.store.names() == store.names().insert(STORE_HEADER_TREE@)
                        &&& store.healthy() ==> meta.store.healthy()
                    },
                    Err(e) => match header_hasher(spec.hash_algo, spec.hash_width) {
                        Err(reason) => refuses(e, db_path@, StoreHeaderError::Hash(reason)),
                        Ok(_) => !store.healthy(),
                    },
                },
                StoreInit::Open => match out {
                    Ok((meta, header)) => {
                        &&& meta.store.committed() == store.committed()
                        &&& meta.store.names() == store.names().insert(STORE_HEADER_TREE@)
                        &&& store.healthy() ==> meta.store.healthy()
                        &&& header_at(store.committed()) matches Some(raw)
                        &&& decodes_header(raw, Ok::<StoreHeader, StoreHeaderError>(header))
                    },
                    Err(e) => store.healthy() ==> match header_at(store.committed()) {
                        None => refuses(e, db_path@, StoreHeaderError::Missing),
                        Some(raw) => refuses_bytes(e, db_path@, raw),
                    },
                },
            },
            out matches Ok((meta, _)) ==> meta.inlined_metadata_size == (
            match inlined_metadata_size {
                Some(n) => n,
                None => DEFAULT_INLINED_METADATA_SIZE,
            }),
    {
        let mut meta = MetaStore::new(store, inlined_metadata_size);
        match init {
            StoreInit::Create => match StoreHeader::create(spec) {
                Err(e) => Err(MetaError::header(db_path, e)),
                Ok(header) => match write_header(&mut meta.store, &header) {
                    Err(e) => Err(e),
                    Ok(()) => Ok((meta, header)),
                },
            },
            StoreInit::Open => match read_header(&mut meta.store, db_path) {
                Err(e) => Err(e),
                Ok(None) => Err(MetaError::header(db_path, StoreHeaderError::Missing)),
                Ok(Some(header)) => Ok((meta, header)),
            },
        }
    }

    /// Returns the maximum length of the data that can be inlined in an object
    /// record.
    pub fn max_inlined_data_length(&self) -> (n: usize)
        ensures
            n == (if self.inlined_metadata_size < 41 {
                0
            } else {
                self.inlined_metadata_size - 41
            }),
    {
        let minimum: usize = Object::minimum_inline_metadata_size();
        if self.inlined_metadata_size < minimum {
            return 0;
        }
        self.inlined_metadata_size - minimum
    }

    /// Returns the underlying store.
    pub fn get_underlying_store(&mut self) -> (store: &mut S)
        ensures
            *store == old(self).store,
            final(self).store == *final(store),
            final(self).inlined_metadata_size == old(self).inlined_metadata_size,
    {
        &mut self.store
    }

    /// Whether this is a store in which the tree of some name was opened for
    /// reading: the tree is there now, and nothing else changed.
    pub open spec fn opened(&self, before: Self, name: Seq<char>) -> bool {
        &&& self.store.committed() == before.store.committed()
        &&& self.store.names() == before.store.names().insert(name)
        &&& self.inlined_metadata_size == before.inlined_metadata_size
        &&& before.store.healthy() ==> self.store.healthy()
    }

    /// Whether this is a store in which a tree was opened, or could not be for
    /// want of an answer.
    pub open spec fn opened_or_not(&self, before: Self, name: Seq<char>) -> bool {
        ||| self.opened(before, name)
        ||| {
            &&& !before.store.healthy()
            &&& self.store.committed() == before.store.committed()
            &&& self.store.names() == before.store.names()
            &&& self.inlined_metadata_size == before.inlined_metadata_size
        }
    }

    /// Whether `out` is the tree of some name, opened for reading in the store
    /// that this one was.
    pub open spec fn reads_tree(
        &self,
        before: Self,
        name: Seq<char>,
        out: Result<&S::Tree, MetaError>,
    ) -> bool {
        match out {
            Ok(tree) => {
                &&& self.opened(before, name)
                &&& tree.entries() == tree_of(before.store.committed(), name)
                &&& before.store.healthy() ==> tree.healthy()
            },
            Err(_) => {
                &&& !before.store.healthy()
                &&& self.opened_or_not(before, name)
            },
        }
    }

    /// Returns the tree of bucket records, creating it if it doesn't exist.
    pub fn get_allbuckets_tree(&mut self) -> (out: Result<&S::Tree, MetaError>)
        ensures
            final(self).reads_tree(*old(self), DEFAULT_BUCKET_TREE@, out),
    {
        self.store.tree_ext_open(DEFAULT_BUCKET_TREE)
    }

    /// Returns the object tree of a bucket, creating it if it doesn't exist.
    pub fn get_bucket_ext(&mut self, name: &str) -> (out: Result<&S::Tree, MetaError>)
        ensures
            final(self).reads_tree(*old(self), name@, out),
    {
        self.store.tree_ext_open(name)
    }

    /// Returns a tree for reading, creating it if it doesn't exist.
    pub fn get_tree_ext(&mut self, name: &str) -> (out: Result<&S::Tree, MetaError>)
        ensures
            final(self).reads_tree(*old(self), name@, out),
    {
        self.store.tree_ext_open(name)
    }

    /// Finds a tree that is there already, and changes nothing.
    pub fn find_tree(&self, name: &str) -> (out: Result<Option<&S::Tree>, MetaError>)
        ensures
            match out {
                Ok(Some(tree)) => {
                    &&& self.store.names().contains(name@)
                    &&& tree.entries() == tree_of(self.store.committed(), name@)
                    &&& self.store.healthy() ==> tree.healthy()
                },
                Ok(None) => {
                    &&& !self.store.names().contains(name@)
                    &&& tree_of(self.store.committed(), name@) == Entries::empty()
                },
                Err(_) => !self.store.healthy(),
            },
    {
        self.store.tree_find(name)
    }

    /// Returns a tree for writing, creating it if it doesn't exist.
    pub fn get_tree(&mut self, name: &str) -> (out: Result<&mut S::Tree, MetaError>)
        ensures
            match out {
                Ok(tree) => {
                    &&& tree.entries() == tree_of(old(self).store.committed(), name@)
                    &&& final(self).store.committed() == with_tree(
                        old(self).store.committed(),
                        name@,
                        final(tree).entries(),
                    )
                    &&& final(self).store.names() == old(self).store.names().insert(name@)
                    &&& old(self).store.healthy() ==> tree.healthy()
                    &&& old(self).store.healthy() && final(tree).healthy()
                        ==> final(self).store.healthy()
                },
                Err(_) => {
                    &&& final(self).store.committed() == old(self).store.committed()
                    &&& final(self).store.names() == old(self).store.names()
                    &&& !old(self).store.healthy()
                },
            },
            final(self).inlined_metadata_size == old(self).inlined_metadata_size,
    {
        self.store.tree_open(name)
    }

    /// Returns the block records, creating their tree if it doesn't exist.
    pub fn get_block_tree(&mut self) -> (out: Result<BlockTree<'_, S::Tree>, MetaError>)
        ensures
            match out {
                Ok(blocks) => {
                    &&& final(self).opened(*old(self), DEFAULT_BLOCK_TREE@)
                    &&& blocks.entries() == tree_of(
                        old(self).store.committed(),
                        DEFAULT_BLOCK_TREE@,
                    )
                    &&& old(self).store.healthy() ==> blocks.healthy()
                },
                Err(_) => {
                    &&& !old(self).store.healthy()
                    &&& final(self).opened_or_not(*old(self), DEFAULT_BLOCK_TREE@)
                },
            },
    {
        match self.store.tree_ext_open(DEFAULT_BLOCK_TREE) {
            Err(e) => Err(e),
            Ok(tree) => Ok(BlockTree { tree: Some(tree) }),
        }
    }

    /// Finds the block records, and changes nothing.
    pub fn find_block_tree(&self) -> (out: Result<BlockTree<'_, S::Tree>, MetaError>)
        ensures
            out matches Ok(blocks) ==> blocks.entries() == tree_of(
                self.store.committed(),
                DEFAULT_BLOCK_TREE@,
            ) && (self.store.healthy() ==> blocks.healthy()),
            self.store.healthy() ==> out is Ok,
    {
        match self.store.tree_find(DEFAULT_BLOCK_TREE) {
            Err(e) => Err(e),
            Ok(tree) => Ok(BlockTree { tree }),
        }
    }

    /// Returns the name of every tree in the store, reserved ones too.
    pub fn list_trees(&self) -> (out: Result<Vec<String>, MetaError>)
        ensures
            out matches Ok(list) ==> lists_names(list@, self.store.names()) && rows_in(
                self.store.committed(),
                self.store.names(),
            ),
            self.store.healthy() ==> out is Ok,
    {
        self.store.list_trees()
    }

    /// Checks if a bucket has an object tree.
    pub fn bucket_exists(&self, bucket_name: &str) -> (out: Result<bool, MetaError>)
        ensures
            out matches Ok(there) ==> there == self.store.names().contains(bucket_name@),
            self.store.healthy() ==> out is Ok,
    {
        self.store.tree_exists(bucket_name)
    }

    /// Deletes a bucket: its row, its usage counter and its object tree. A
    /// bucket that doesn't exist is not an error.
    pub fn drop_bucket(&mut self, name: &str) -> (out: Result<(), MetaError>)
        ensures
            out is Ok ==> {
                let names = old(self).store.names().insert(DEFAULT_BUCKET_TREE@).insert(
                    DEFAULT_USAGE_TREE@,
                );
                &&& final(self).store.committed() == without_bucket(
                    old(self).store.committed(),
                    name@,
                    names.contains(name@),
                )
                &&& final(self).store.names() == names.remove(name@)
            },
            out is Err ==> partly_dropped(
                old(self).store.committed(),
                final(self).store.committed(),
                name@,
            ),
            final(self).inlined_metadata_size == old(self).inlined_metadata_size,
            old(self).store.healthy() ==> out is Ok && final(self).store.healthy(),
    {
        match drop_row(&mut self.store, DEFAULT_BUCKET_TREE, name.as_bytes()) {
            Ok(()) => {},
            Err(e) => {
                return Err(e);
            },
        }
        match drop_row(&mut self.store, DEFAULT_USAGE_TREE, name.as_bytes()) {
            Ok(()) => {},
            Err(e) => {
                return Err(e);
            },
        }
        match self.bucket_exists(name) {
            Err(e) => Err(e),
            Ok(false) => {
                proof {
                    assert(self.store.names().remove(name@) =~= self.store.names());
                }
                Ok(())
            },
            Ok(true) => self.store.tree_delete(name),
        }
    }

    /// Logical bytes the records of `bucket` add up to, or `None` if the bucket
    /// has no counter. The tree of counters is created if it doesn't exist.
    pub fn bucket_usage(&mut self, bucket: &str) -> (out: Result<Option<u64>, MetaError>)
        ensures
            ({
                let rows = old(self).store.committed();
                match out {
                    Ok(None) => !rows.contains_key(usage_row(bucket@)),
                    Ok(Some(n)) => rows.contains_key(usage_row(bucket@)) && usage_value(
                        rows[usage_row(bucket@)],
                    ) == Some(n as nat),
                    Err(e) => old(self).store.healthy() ==> rows.contains_key(usage_row(bucket@))
                        && usage_value(rows[usage_row(bucket@)]) is None && is_usage_error(
                        e,
                        bucket@,
                        rows[usage_row(bucket@)],
                    ),
                }
            }),
            final(self).opened_or_not(*old(self), DEFAULT_USAGE_TREE@),
            out is Ok ==> final(self).opened(*old(self), DEFAULT_USAGE_TREE@),
    {
        proof {
            let entries = tree_of(self.store.committed(), DEFAULT_USAGE_TREE@);
            let key = encode_utf8(bucket@);
            assert(entries.contains_key(key) <==> self.store.committed().contains_key(
                usage_row(bucket@),
            ));
        }
        match self.store.tree_ext_open(DEFAULT_USAGE_TREE) {
            Err(e) => Err(e),
            Ok(tree) => match tree.get(bucket.as_bytes()) {
                Err(e) => Err(e),
                Ok(None) => Ok(None),
                Ok(Some(raw)) => match decode_usage(bucket, &raw) {
                    Ok(n) => Ok(Some(n)),
                    Err(e) => Err(e),
                },
            },
        }
    }

    /// Writes a bucket's usage counter outright.
    pub fn set_bucket_usage(&mut self, bucket: &str, bytes: u64) -> (out: Result<(), MetaError>)
        ensures
            out is Ok ==> final(self).store.committed() == old(self).store.committed().insert(
                usage_row(bucket@),
                le_bytes(bytes as nat, 8),
            ) && final(self).store.names() == old(self).store.names().insert(DEFAULT_USAGE_TREE@),
            out is Err ==> final(self).store.committed() == old(self).store.committed()
                || final(self).store.committed() == old(self).store.committed().insert(
                usage_row(bucket@),
                le_bytes(bytes as nat, 8),
            ),
            old(self).store.names().subset_of(final(self).store.names()),
            final(self).inlined_metadata_size == old(self).inlined_metadata_size,
            old(self).store.healthy() ==> out is Ok && final(self).store.healthy(),
    {
        let mut raw: Vec<u8> = Vec::new();
        put_le(&mut raw, bytes, 8);
        proof {
            assert(raw@ =~= le_bytes(bytes as nat, 8));
        }
        put_row(&mut self.store, DEFAULT_USAGE_TREE, bucket.as_bytes(), raw)
    }

    /// Files a bucket record, creates the bucket's tree and starts its usage
    /// counter at zero.
    ///
    /// A name starting with `_` is refused: a bucket becomes a tree of its own
    /// name, so such a bucket would collide with the store's internal trees.
    pub fn insert_bucket(&mut self, bucket_name: &str, raw_bucket: Vec<u8>) -> (out: Result<
        (),
        MetaError,
    >)
        ensures
            match out {
                Ok(()) => {
                    &&& !is_reserved_name(bucket_name@)
                    &&& final(self).store.committed() == with_bucket(
                        old(self).store.committed(),
                        bucket_name@,
                        raw_bucket@,
                    )
                    &&& final(self).store.names() == old(self).store.names().insert(
                        DEFAULT_BUCKET_TREE@,
                    ).insert(bucket_name@).insert(DEFAULT_USAGE_TREE@)
                },
                Err(e) => {
                    &&& is_reserved_name(bucket_name@) ==> refuses_name(e, bucket_name@)
                        && *final(self) == *old(self)
                    &&& old(self).store.healthy() ==> is_reserved_name(bucket_name@)
                    &&& {
                        let rows = old(self).store.committed();
                        let now = final(self).store.committed();
                        ||| now == rows
                        ||| now == rows.insert(bucket_row(bucket_name@), raw_bucket@)
                        ||| now == with_bucket(rows, bucket_name@, raw_bucket@)
                    }
                },
            },
            old(self).store.healthy() ==> final(self).store.healthy(),
    {
        if has_reserved_prefix(bucket_name) {
            return Err(MetaError::ReservedBucketName(bucket_name.to_owned()));
        }
        match put_row(&mut self.store, DEFAULT_BUCKET_TREE, bucket_name.as_bytes(), raw_bucket) {
            Ok(()) => {},
            Err(e) => {
                return Err(e);
            },
        }
        match open_tree(&mut self.store, bucket_name) {
            Ok(()) => {},
            Err(e) => {
                return Err(e);
            },
        }
        self.set_bucket_usage(bucket_name, 0)
    }

    /// Files a bucket record only if the name is free, and says whether it did.
    ///
    /// The read and the write are one transaction, so of two callers exactly
    /// one is told that it claimed the name. The bucket's own tree is created
    /// after the commit.
    pub fn insert_bucket_if_absent(&mut self, bucket_name: &str, raw_bucket: Vec<u8>) -> (out:
        Result<bool, MetaError>)
        ensures
            match out {
                Ok(true) => {
                    &&& !is_reserved_name(bucket_name@)
                    &&& !old(self).store.committed().contains_key(bucket_row(bucket_name@))
                    &&& final(self).store.committed() == with_bucket(
                        old(self).store.committed(),
                        bucket_name@,
                        raw_bucket@,
                    )
                    &&& final(self).store.names().contains(bucket_name@)
                },
                Ok(false) => {
                    &&& !is_reserved_name(bucket_name@)
                    &&& old(self).store.committed().contains_key(bucket_row(bucket_name@))
                    &&& final(self).store.committed() == old(self).store.committed()
                },
                Err(e) => {
                    &&& is_reserved_name(bucket_name@) ==> refuses_name(e, bucket_name@)
                        && *final(self) == *old(self)
                    &&& old(self).store.healthy() ==> is_reserved_name(bucket_name@)
                    &&& final(self).store.committed() == old(self).store.committed()
                        || final(self).store.committed() == with_bucket(
                        old(self).store.committed(),
                        bucket_name@,
                        raw_bucket@,
                    )
                },
            },
            old(self).store.names().subset_of(final(self).store.names()),
            final(self).inlined_metadata_size == old(self).inlined_metadata_size,
            old(self).store.healthy() ==> final(self).store.healthy(),
    {
        if has_reserved_prefix(bucket_name) {
            return Err(MetaError::ReservedBucketName(bucket_name.to_owned()));
        }
        let mut tx = Transaction::new(&mut self.store);
        let taken = match tx.get_bucket_record(bucket_name) {
            Ok(record) => record.is_some(),
            Err(e) => {
                tx.rollback();
                return Err(e);
            },
        };
        if taken {
            tx.rollback();
            return Ok(false);
        }
        match tx.put_bucket_record(bucket_name, raw_bucket) {
            Ok(()) => {},
            Err(e) => {
                tx.rollback();
                return Err(e);
            },
        }
        match tx.reset_bucket_usage(bucket_name) {
            Ok(()) => {},
            Err(e) => {
                tx.rollback();
                return Err(e);
            },
        }
        match tx.commit() {
            Ok(()) => {},
            Err(e) => {
                return Err(e);
            },
        }
        match open_tree(&mut self.store, bucket_name) {
            Ok(()) => Ok(true),
            Err(e) => Err(e),
        }
    }

    /// Returns all bucket records, in the order of their names. One that fails
    /// to decode fails the whole listing. The tree of bucket records is created
    /// if it doesn't exist.
    pub fn list_buckets(&mut self) -> (out: Result<Vec<BucketMeta>, MetaError>)
        ensures
            lists_buckets(
                listing(tree_of(old(self).store.committed(), DEFAULT_BUCKET_TREE@)),
                out,
                old(self).store.healthy(),
            ),
            out is Ok || old(self).store.healthy() ==> is_listed(
                tree_of(old(self).store.committed(), DEFAULT_BUCKET_TREE@),
            ),
            final(self).opened_or_not(*old(self), DEFAULT_BUCKET_TREE@),
            out is Ok ==> final(self).opened(*old(self), DEFAULT_BUCKET_TREE@),
    {
        let ghost entries = tree_of(self.store.committed(), DEFAULT_BUCKET_TREE@);
        let ghost healthy = self.store.healthy();
        let rows = match self.bucket_rows() {
            Ok(rows) => rows,
            Err(e) => {
                return Err(e);
            },
        };
        let ghost all = pairs(rows@);
        proof {
            lemma_listing(all, entries);
        }
        let mut out: Vec<BucketMeta> = Vec::new();
        let mut i: usize = 0;
        while i < rows.len()
            invariant
                i <= rows@.len(),
                all == pairs(rows@),
                all == listing(entries),
                is_listed(entries),
                entries == tree_of(old(self).store.committed(), DEFAULT_BUCKET_TREE@),
                healthy == old(self).store.healthy(),
                self.opened(*old(self), DEFAULT_BUCKET_TREE@),
                out@.len() == i,
                forall|j: int| 0 <= j < i ==> is_bucket(#[trigger] all[j], out@[j]),
            decreases rows@.len() - i,
        {
            let ghost before = out@;
            match BucketMeta::try_from(&rows[i].1) {
                Ok(bucket) => {
                    out.push(bucket);
                    proof {
                        assert forall|j: int| 0 <= j < i + 1 implies is_bucket(
                            #[trigger] all[j],
                            out@[j],
                        ) by {
                            if j < i {
                                assert(out@[j] == before[j]);
                            }
                        }
                    }
                },
                Err(e) => {
                    proof {
                        assert(first_bad_bucket(all, i as int));
                        assert(all[i as int].1 == rows@[i as int].1@);
                        assert(lists_buckets(all, Err(MetaError::Corruption(e)), healthy));
                    }
                    return Err(MetaError::Corruption(e));
                },
            }
            i = i + 1;
        }
        proof {
            assert(lists_buckets(all, Ok(out), healthy));
        }
        Ok(out)
    }

    /// The rows of the bucket tree, which is created if it doesn't exist.
    fn bucket_rows(&mut self) -> (out: Result<KeyValuePairs, MetaError>)
        ensures
            out matches Ok(rows) ==> lists(
                pairs(rows@),
                tree_of(old(self).store.committed(), DEFAULT_BUCKET_TREE@),
            ) && final(self).opened(*old(self), DEFAULT_BUCKET_TREE@),
            out is Err ==> !old(self).store.healthy(),
            final(self).opened_or_not(*old(self), DEFAULT_BUCKET_TREE@),
    {
        match self.get_allbuckets_tree() {
            Err(e) => Err(e),
            Ok(tree) => tree.iter_all(),
        }
    }

    /// The name of every bucket, taken from the keys of the bucket tree rather
    /// than from the records under them, in ascending order. A key that is not
    /// text fails the whole listing. The tree of bucket records is created if it
    /// doesn't exist.
    pub fn list_bucket_names(&mut self) -> (out: Result<Vec<String>, MetaError>)
        ensures
            lists_bucket_names(
                listing(tree_of(old(self).store.committed(), DEFAULT_BUCKET_TREE@)),
                out,
                old(self).store.healthy(),
            ),
            out is Ok || old(self).store.healthy() ==> is_listed(
                tree_of(old(self).store.committed(), DEFAULT_BUCKET_TREE@),
            ),
            final(self).opened_or_not(*old(self), DEFAULT_BUCKET_TREE@),
            out is Ok ==> final(self).opened(*old(self), DEFAULT_BUCKET_TREE@),
    {
        match self.bucket_rows() {
            Err(e) => Err(e),
            Ok(rows) => {
                proof {
                    lemma_listing(
                        pairs(rows@),
                        tree_of(old(self).store.committed(), DEFAULT_BUCKET_TREE@),
                    );
                }
                bucket_names(&rows)
            },
        }
    }

    /// Files an object record in a bucket.
    pub fn insert_meta(&mut self, bucket_name: &str, key: &str, raw_obj: Vec<u8>) -> (out: Result<
        (),
        MetaError,
    >)
        ensures
            out is Ok ==> final(self).store.committed() == old(self).store.committed().insert(
                (bucket_name@, encode_utf8(key@)),
                raw_obj@,
            ) && final(self).store.names() == old(self).store.names().insert(bucket_name@),
            out is Err ==> final(self).store.committed() == old(self).store.committed()
                || final(self).store.committed() == old(self).store.committed().insert(
                (bucket_name@, encode_utf8(key@)),
                raw_obj@,
            ),
            final(self).inlined_metadata_size == old(self).inlined_metadata_size,
            old(self).store.healthy() ==> out is Ok && final(self).store.healthy(),
    {
        put_row(&mut self.store, bucket_name, key.as_bytes(), raw_obj)
    }

    /// Retrieves the object for a bucket and key. The bucket's object tree is
    /// created if it doesn't exist.
    pub fn get_meta(&mut self, bucket_name: &str, key: &[u8]) -> (out: Result<
        Option<Object>,
        MetaError,
    >)
        ensures
            match out {
                Ok(None) => lookup(old(self).store.committed(), bucket_name@, key@) is None,
                Ok(Some(object)) => {
                    &&& lookup(old(self).store.committed(), bucket_name@, key@) matches Some(raw)
                    &&& decode_object(raw) == Ok::<ObjectView, FsError>(object@)
                },
                Err(e) => old(self).store.healthy() ==> is_damaged_object(
                    old(self).store.committed(),
                    bucket_name@,
                    key@,
                    e,
                ),
            },
            final(self).opened_or_not(*old(self), bucket_name@),
            out is Ok ==> final(self).opened(*old(self), bucket_name@),
    {
        proof {
            let entries = tree_of(self.store.committed(), bucket_name@);
            assert(entries.contains_key(key@) <==> lookup(
                self.store.committed(),
                bucket_name@,
                key@,
            ) is Some);
        }
        match self.get_bucket_ext(bucket_name) {
            Err(e) => Err(e),
            Ok(tree) => match tree.get(key) {
                Err(e) => Err(e),
                Ok(None) => Ok(None),
                Ok(Some(raw)) => match Object::try_from(&raw) {
                    Ok(object) => Ok(Some(object)),
                    Err(e) => Err(MetaError::Corruption(e)),
                },
            },
        }
    }

    /// Begins a transaction.
    pub fn begin_transaction(&mut self) -> (tx: Transaction<'_, S>)
        ensures
            tx.staged() == old(self).store.committed(),
            step(old(self).store, *tx.store),
            final(self).store == *final(tx.store),
            final(self).inlined_metadata_size == old(self).inlined_metadata_size,
    {
        Transaction::new(&mut self.store)
    }

    /// Returns the number of bucket records. Their tree is created if it doesn't
    /// exist.
    pub fn num_keys(&mut self) -> (out: Result<usize, MetaError>)
        ensures
            out matches Ok(n) ==> {
                let entries = tree_of(old(self).store.committed(), DEFAULT_BUCKET_TREE@);
                &&& entries.dom().finite()
                &&& n == entries.dom().len()
                &&& final(self).opened(*old(self), DEFAULT_BUCKET_TREE@)
            },
            final(self).opened_or_not(*old(self), DEFAULT_BUCKET_TREE@),
            old(self).store.healthy() ==> out is Ok,
    {
        self.store.num_keys(DEFAULT_BUCKET_TREE)
    }

    /// Returns the disk space used by the metadata store, as its backend
    /// measures it.
    pub fn disk_space(&self) -> (bytes: u64)
        ensures
            call_ensures(S::disk_space, (&self.store,), bytes),
    {
        self.store.disk_space()
    }
}

/// The names that the keys of bucket rows spell, in their order. A key that is not
/// text fails the whole listing.
pub fn bucket_names(rows: &KeyValuePairs) -> (out: Result<Vec<String>, MetaError>)
    ensures
        lists_bucket_names(pairs(rows@), out, true),
{
    let ghost all = pairs(rows@);
    let mut out: Vec<String> = Vec::new();
    let mut i: usize = 0;
    while i < rows.len()
        invariant
            i <= rows@.len(),
            all == pairs(rows@),
            out@.len() == i,
            forall|j: int|
                0 <= j < i ==> valid_utf8((#[trigger] all[j]).0) && out@[j]@ == decode_utf8(
                    all[j].0,
                ),
        decreases rows@.len() - i,
    {
        let ghost before = out@;
        match utf8_text(slice_to_vec(&rows[i].0)) {
            Ok(name) => {
                out.push(name);
                proof {
                    assert forall|j: int| 0 <= j < i + 1 implies valid_utf8((#[trigger] all[j]).0)
                        && out@[j]@ == decode_utf8(all[j].0) by {
                        if j < i {
                            assert(out@[j] == before[j]);
                        }
                    }
                }
            },
            Err(complaint) => {
                let mut text = "bucket name is not valid utf-8: ".to_owned();
                text.append(&complaint);
                let e = MetaError::OtherDBError(text);
                proof {
                    assert(first_bad_name(all, i as int));
                    assert(all[i as int].0 == rows@[i as int].0@);
                    assert(lists_bucket_names(all, Err(e), true));
                }
                return Err(e);
            },
        }
        i = i + 1;
    }
    proof {
        assert(lists_bucket_names(all, Ok(out), true));
    }
    Ok(out)
}

/// Creates a tree if it doesn't exist.
fn open_tree<S: Store>(store: &mut S, name: &str) -> (out: Result<(), MetaError>)
    ensures
        final(store).committed() == old(store).committed(),
        out is Ok ==> final(store).names() == old(store).names().insert(name@),
        out is Err ==> final(store).names() == old(store).names(),
        old(store).healthy() ==> out is Ok && final(store).healthy(),
{
    proof {
        lemma_insert_row(store.committed(), name@, Seq::empty(), Seq::empty());
    }
    match store.tree_open(name) {
        Err(e) => Err(e),
        Ok(_) => Ok(()),
    }
}

/// Whether a bucket record is what a row holds.
pub open spec fn is_bucket(row: (Seq<u8>, Seq<u8>), bucket: BucketMeta) -> bool {
    decode_bucket(row.1) == Ok::<(int, Seq<char>), FsError>((bucket.ctime as int, bucket.name@))
}

/// Whether a row is the first one that is no bucket record.
pub open spec fn first_bad_bucket(rows: Seq<(Seq<u8>, Seq<u8>)>, i: int) -> bool {
    &&& 0 <= i < rows.len()
    &&& decode_bucket(rows[i].1) is Err
    &&& forall|j: int| 0 <= j < i ==> decode_bucket((#[trigger] rows[j]).1) is Ok
}

/// Whether `out` is the listing of bucket records.
pub open spec fn lists_buckets(
    rows: Seq<(Seq<u8>, Seq<u8>)>,
    out: Result<Vec<BucketMeta>, MetaError>,
    healthy: bool,
) -> bool {
    match out {
        Ok(list) => list@.len() == rows.len() && forall|i: int|
            0 <= i < rows.len() ==> is_bucket(#[trigger] rows[i], list@[i]),
        Err(e) => healthy ==> exists|i: int| #[trigger]
            first_bad_bucket(rows, i) && (decode_bucket(rows[i].1) matches Err(damage) && e
                == MetaError::Corruption(damage)),
    }
}

/// Whether a row is the first one whose key is no text.
pub open spec fn first_bad_name(rows: Seq<(Seq<u8>, Seq<u8>)>, i: int) -> bool {
    &&& 0 <= i < rows.len()
    &&& !valid_utf8(rows[i].0)
    &&& forall|j: int| 0 <= j < i ==> valid_utf8((#[trigger] rows[j]).0)
}

/// Whether `out` is the listing of bucket names.
pub open spec fn lists_bucket_names(
    rows: Seq<(Seq<u8>, Seq<u8>)>,
    out: Result<Vec<String>, MetaError>,
    healthy: bool,
) -> bool {
    match out {
        Ok(list) => list@.len() == rows.len() && forall|i: int|
            0 <= i < rows.len() ==> valid_utf8((#[trigger] rows[i]).0) && list@[i]@ == decode_utf8(
                rows[i].0,
            ),
        Err(e) => healthy ==> exists|i: int| #[trigger]
            first_bad_name(rows, i) && (e matches MetaError::OtherDBError(text) && text@
                == "bucket name is not valid utf-8: "@ + utf8_complaint(rows[i].0)),
    }
}

} // verus!
