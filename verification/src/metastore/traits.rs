//! What a backing database offers: trees of key-value pairs, and transactions
//! over them.

use vstd::prelude::*;
use vstd::string::*;
use vstd::utf8::*;

use super::errors::MetaError;
use super::object::{decode_object, Object, ObjectView};
use crate::bytes::{ascending, bytes_lt, lemma_ascending_same, starts_with};
use crate::text::{equal_text, opt_text, text_lt};

verus! {

/// The contents of one tree.
pub type Entries = Map<Seq<u8>, Seq<u8>>;

/// The contents of a store: every row by its tree and key.
pub type Rows = Map<(Seq<char>, Seq<u8>), Seq<u8>>;

/// Key-value pairs in the order a tree yields them.
pub type KeyValuePairs = Vec<(Vec<u8>, Vec<u8>)>;

/// The value of a row, where there is one.
pub open spec fn lookup(rows: Rows, tree: Seq<char>, key: Seq<u8>) -> Option<Seq<u8>> {
    if rows.contains_key((tree, key)) {
        Some(rows[(tree, key)])
    } else {
        None
    }
}

/// The contents of one tree of a store.
pub open spec fn tree_of(rows: Rows, tree: Seq<char>) -> Entries {
    Map::new(|key: Seq<u8>| rows.contains_key((tree, key)), |key: Seq<u8>| rows[(tree, key)])
}

/// A store's contents with one tree replaced.
pub open spec fn with_tree(rows: Rows, tree: Seq<char>, entries: Entries) -> Rows {
    Map::new(
        |at: (Seq<char>, Seq<u8>)|
            if at.0 == tree {
                entries.contains_key(at.1)
            } else {
                rows.contains_key(at)
            },
        |at: (Seq<char>, Seq<u8>)|
            if at.0 == tree {
                entries[at.1]
            } else {
                rows[at]
            },
    )
}

/// A key-value pair by its contents.
pub open spec fn pair(kv: (Vec<u8>, Vec<u8>)) -> (Seq<u8>, Seq<u8>) {
    (kv.0@, kv.1@)
}

/// Key-value pairs by their contents.
pub open spec fn pairs(list: Seq<(Vec<u8>, Vec<u8>)>) -> Seq<(Seq<u8>, Seq<u8>)> {
    list.map_values(|kv: (Vec<u8>, Vec<u8>)| pair(kv))
}

/// Whether a list names each entry of a tree once, in ascending key order.
pub open spec fn lists(list: Seq<(Seq<u8>, Seq<u8>)>, entries: Entries) -> bool {
    &&& forall|i: int, j: int|
        0 <= i < j < list.len() ==> bytes_lt((#[trigger] list[i]).0, (#[trigger] list[j]).0)
    &&& forall|i: int|
        0 <= i < list.len() ==> entries.contains_key((#[trigger] list[i]).0)
            && entries[list[i].0] == list[i].1
    &&& forall|key: Seq<u8>| #[trigger]
        entries.contains_key(key) ==> exists|i: int| 0 <= i < list.len() && list[i].0 == key
}

/// The entries of a tree in ascending key order.
pub open spec fn listing(entries: Entries) -> Seq<(Seq<u8>, Seq<u8>)> {
    choose|list: Seq<(Seq<u8>, Seq<u8>)>| lists(list, entries)
}

/// Whether a tree has a listing, as every tree of finitely many entries does.
pub open spec fn is_listed(entries: Entries) -> bool {
    lists(listing(entries), entries)
}

/// A tree has one listing.
pub proof fn lemma_listing(list: Seq<(Seq<u8>, Seq<u8>)>, entries: Entries)
    requires
        lists(list, entries),
    ensures
        listing(entries) == list,
        is_listed(entries),
{
    let other = listing(entries);
    assert(lists(other, entries));
    let a = list.map_values(|e: (Seq<u8>, Seq<u8>)| e.0);
    let b = other.map_values(|e: (Seq<u8>, Seq<u8>)| e.0);
    assert(ascending(a)) by {
        assert forall|i: int, j: int| 0 <= i < j < a.len() implies bytes_lt(
            #[trigger] a[i],
            #[trigger] a[j],
        ) by {
            assert(bytes_lt(list[i].0, list[j].0));
        }
    }
    assert(ascending(b)) by {
        assert forall|i: int, j: int| 0 <= i < j < b.len() implies bytes_lt(
            #[trigger] b[i],
            #[trigger] b[j],
        ) by {
            assert(bytes_lt(other[i].0, other[j].0));
        }
    }
    assert forall|key: Seq<u8>| #[trigger] a.contains(key) <==> b.contains(key) by {
        if a.contains(key) {
            let i = choose|i: int| 0 <= i < a.len() && a[i] == key;
            assert(entries.contains_key(list[i].0));
            let j = choose|j: int| 0 <= j < other.len() && other[j].0 == key;
            assert(b[j] == key);
        }
        if b.contains(key) {
            let i = choose|i: int| 0 <= i < b.len() && b[i] == key;
            assert(entries.contains_key(other[i].0));
            let j = choose|j: int| 0 <= j < list.len() && list[j].0 == key;
            assert(a[j] == key);
        }
    }
    lemma_ascending_same(a, b);
    assert forall|i: int| 0 <= i < list.len() implies list[i] == other[i] by {
        assert(a[i] == b[i]);
        assert(entries[list[i].0] == list[i].1);
        assert(entries[other[i].0] == other[i].1);
    }
    assert(list =~= other);
}

/// The entries of a tree behind a key; all of them where there is no key.
pub open spec fn entries_after(entries: Entries, start: Option<Seq<u8>>) -> Entries {
    match start {
        Some(start) => entries.restrict(Set::new(|key: Seq<u8>| bytes_lt(start, key))),
        None => entries,
    }
}

/// The entries of a tree before a key; all of them where there is no key.
pub open spec fn entries_before(entries: Entries, start: Option<Seq<u8>>) -> Entries {
    match start {
        Some(start) => entries.restrict(Set::new(|key: Seq<u8>| bytes_lt(key, start))),
        None => entries,
    }
}

/// The later of two texts, in the order of their bytes; where only one is
/// there, that one.
pub open spec fn later(a: Option<Seq<char>>, b: Option<Seq<char>>) -> Option<Seq<char>> {
    match (a, b) {
        (Some(a), Some(b)) => Some(
            if text_lt(b, a) {
                a
            } else {
                b
            },
        ),
        (Some(a), None) => Some(a),
        (None, b) => b,
    }
}

/// Whether a listing with a prefix and a cursor takes a key.
///
/// Without a prefix the keys behind the cursor are taken. With one, a cursor
/// behind all keys that carry it leaves nothing, a cursor before it is ignored,
/// and any other leaves the keys behind the cursor.
pub open spec fn takes_key(
    key: Seq<u8>,
    prefix: Option<Seq<char>>,
    cursor: Option<Seq<char>>,
) -> bool {
    match (prefix, cursor) {
        (None, None) => true,
        (None, Some(cursor)) => bytes_lt(encode_utf8(cursor), key),
        (Some(prefix), None) => starts_with(key, encode_utf8(prefix)),
        (Some(prefix), Some(cursor)) => {
            let p = encode_utf8(prefix);
            let c = encode_utf8(cursor);
            &&& starts_with(key, p)
            &&& bytes_lt(c, p) || (starts_with(c, p) && bytes_lt(c, key))
        },
    }
}

/// What a listing shows of one entry: its key and object, where the key is
/// text, the value is an object record and the filter takes the key.
pub open spec fn shown(
    entry: (Seq<u8>, Seq<u8>),
    prefix: Option<Seq<char>>,
    cursor: Option<Seq<char>>,
) -> Option<(Seq<char>, ObjectView)> {
    if takes_key(entry.0, prefix, cursor) && valid_utf8(entry.0) && decode_object(entry.1) is Ok {
        Some((decode_utf8(entry.0), decode_object(entry.1)->Ok_0))
    } else {
        None
    }
}

/// What a listing shows of a list of entries.
pub open spec fn shown_all(
    list: Seq<(Seq<u8>, Seq<u8>)>,
    prefix: Option<Seq<char>>,
    cursor: Option<Seq<char>>,
) -> Seq<(Seq<char>, ObjectView)>
    decreases list.len(),
{
    if list.len() == 0 {
        Seq::empty()
    } else {
        let init = shown_all(list.drop_last(), prefix, cursor);
        match shown(list.last(), prefix, cursor) {
            Some(item) => init.push(item),
            None => init,
        }
    }
}

/// An optional byte string by its contents.
pub open spec fn opt_bytes(bytes: Option<Vec<u8>>) -> Option<Seq<u8>> {
    match bytes {
        Some(bytes) => Some(bytes@),
        None => None,
    }
}

/// Keys and objects by their contents.
pub open spec fn listed(list: Seq<(String, Object)>) -> Seq<(Seq<char>, ObjectView)> {
    list.map_values(|item: (String, Object)| (item.0@, item.1@))
}

/// Whether a list names each tree once.
pub open spec fn lists_names(list: Seq<String>, names: Set<Seq<char>>) -> bool {
    &&& forall|i: int| 0 <= i < list.len() ==> names.contains((#[trigger] list[i])@)
    &&& forall|name: Seq<char>| #[trigger]
        names.contains(name) ==> exists|i: int| 0 <= i < list.len() && (#[trigger] list[i])@ == name
    &&& forall|i: int, j: int|
        0 <= i < j < list.len() ==> (#[trigger] list[i])@ != (#[trigger] list[j])@
}

/// Whether every row is in one of the named trees.
pub open spec fn rows_in(rows: Rows, names: Set<Seq<char>>) -> bool {
    forall|at: (Seq<char>, Seq<u8>)| #[trigger]
        rows.contains_key(at) ==> names.contains(at.0)
}

/// The core operations of a metadata tree.
///
/// A tree is a mapping from keys to values. A database can fail at any call;
/// `healthy` says that it does not. What the contents are is for a verified
/// implementation to say; one outside of verified code says nothing of them.
pub trait BaseMetaTree: Sized {
    /// The contents of the tree.
    open spec fn entries(&self) -> Entries {
        arbitrary()
    }

    /// Whether every call on the tree succeeds.
    open spec fn healthy(&self) -> bool {
        arbitrary()
    }

    /// Inserts a key-value pair. A failed call may or may not have written it.
    fn insert(&mut self, key: &[u8], value: Vec<u8>) -> (out: Result<(), MetaError>)
        ensures
            out is Ok ==> final(self).entries() == old(self).entries().insert(key@, value@),
            out is Err ==> final(self).entries() == old(self).entries() || final(self).entries()
                == old(self).entries().insert(key@, value@),
            old(self).healthy() ==> out is Ok && final(self).healthy(),
    ;

    /// Removes a key, and says whether it was there. A failed call may or may
    /// not have removed it.
    fn remove(&mut self, key: &[u8]) -> (out: Result<bool, MetaError>)
        ensures
            out matches Ok(was_there) ==> was_there == old(self).entries().contains_key(key@)
                && final(self).entries() == old(self).entries().remove(key@),
            out is Err ==> final(self).entries() == old(self).entries() || final(self).entries()
                == old(self).entries().remove(key@),
            old(self).healthy() ==> out is Ok && final(self).healthy(),
    ;

    /// Checks if a key exists in the tree.
    fn contains_key(&self, key: &[u8]) -> (out: Result<bool, MetaError>)
        ensures
            out matches Ok(there) ==> there == self.entries().contains_key(key@),
            self.healthy() ==> out is Ok,
    ;

    /// Retrieves the value for a key.
    fn get(&self, key: &[u8]) -> (out: Result<Option<Vec<u8>>, MetaError>)
        ensures
            out matches Ok(Some(value)) ==> self.entries().contains_key(key@)
                && self.entries()[key@] == value@,
            out matches Ok(None) ==> !self.entries().contains_key(key@),
            self.healthy() ==> out is Ok,
    ;

    /// Returns the number of key-value pairs in the tree.
    fn len(&self) -> (out: Result<usize, MetaError>)
        ensures
            out matches Ok(n) ==> self.entries().dom().finite() && n == self.entries().dom().len(),
            self.healthy() ==> out is Ok,
    ;

    /// Returns true if the tree contains no key-value pairs.
    fn is_empty(&self) -> (out: Result<bool, MetaError>)
        ensures
            out matches Ok(empty) ==> self.entries().dom().finite() && empty == (
            self.entries().dom().len() == 0),
            self.healthy() ==> out is Ok,
    {
        match self.len() {
            Ok(n) => Ok(n == 0),
            Err(e) => Err(e),
        }
    }
}

/// Iteration and filtering on top of the basic tree operations.
pub trait MetaTreeExt: BaseMetaTree {
    /// All key-value pairs in ascending key order.
    fn iter_all(&self) -> (out: Result<KeyValuePairs, MetaError>)
        ensures
            out matches Ok(list) ==> lists(pairs(list@), self.entries()),
            self.healthy() ==> out is Ok,
    ;

    /// The key-value pairs strictly after a key, in ascending key order.
    fn iter_kv(&self, start_after: Option<Vec<u8>>) -> (out: Result<KeyValuePairs, MetaError>)
        ensures
            out matches Ok(list) ==> lists(
                pairs(list@),
                entries_after(self.entries(), opt_bytes(start_after)),
            ),
            self.healthy() ==> out is Ok,
    ;

    /// The key-value pairs strictly before a key, in descending key order.
    fn iter_kv_backward(&self, start_key: Option<Vec<u8>>) -> (out: Result<
        KeyValuePairs,
        MetaError,
    >)
        ensures
            out matches Ok(list) ==> lists(
                pairs(list@).reverse(),
                entries_before(self.entries(), opt_bytes(start_key)),
            ),
            self.healthy() ==> out is Ok,
    ;

    /// The objects whose keys carry a prefix and lie behind a cursor, in
    /// ascending key order. The later of `start_after` and
    /// `continuation_token` is the cursor. Keys that are not text and values
    /// that are no object records are left out.
    fn range_filter(
        &self,
        start_after: Option<String>,
        prefix: Option<String>,
        continuation_token: Option<String>,
    ) -> (out: Result<Vec<(String, Object)>, MetaError>)
        ensures
            out matches Ok(list) ==> listed(list@) == shown_all(
                listing(self.entries()),
                opt_text(prefix),
                later(opt_text(continuation_token), opt_text(start_after)),
            ) && is_listed(self.entries()),
            self.healthy() ==> out is Ok,
    ;
}

/// The operations that transactions need of a database: a working state that
/// reads and writes go to, and the committed state that it becomes.
pub trait TransactionBackend: Sized {
    /// What is committed.
    open spec fn committed(&self) -> Rows {
        arbitrary()
    }

    /// What reads of the open transaction see: the committed rows and the
    /// transaction's own writes.
    open spec fn staged(&self) -> Rows {
        arbitrary()
    }

    /// The trees that exist.
    open spec fn names(&self) -> Set<Seq<char>> {
        arbitrary()
    }

    /// Whether every call on the store succeeds.
    open spec fn healthy(&self) -> bool {
        arbitrary()
    }

    /// Opens a transaction; one that was left open is discarded.
    fn begin(&mut self)
        ensures
            final(self).committed() == old(self).committed(),
            final(self).staged() == old(self).committed(),
            final(self).names() == old(self).names(),
            old(self).healthy() ==> final(self).healthy(),
    ;

    /// Makes the writes of the open transaction permanent. A failed call may or
    /// may not have done so.
    fn commit(&mut self) -> (out: Result<(), MetaError>)
        ensures
            out is Ok ==> final(self).committed() == old(self).staged(),
            out is Err ==> final(self).committed() == old(self).committed()
                || final(self).committed() == old(self).staged(),
            old(self).names().subset_of(final(self).names()),
            old(self).healthy() ==> out is Ok && final(self).healthy(),
    ;

    /// Discards the writes of the open transaction: reads see what is committed,
    /// and nothing else.
    fn rollback(&mut self)
        ensures
            final(self).committed() == old(self).committed(),
            final(self).staged() == old(self).committed(),
            final(self).names() == old(self).names(),
            old(self).healthy() ==> final(self).healthy(),
    ;

    /// Retrieves a value from a tree, creating the tree if it doesn't exist.
    fn get(&mut self, tree_name: &str, key: &[u8]) -> (out: Result<Option<Vec<u8>>, MetaError>)
        ensures
            out matches Ok(value) ==> opt_bytes(value) == lookup(
                old(self).staged(),
                tree_name@,
                key@,
            ),
            final(self).staged() == old(self).staged(),
            final(self).committed() == old(self).committed(),
            opens(old(self).names(), final(self).names(), tree_name@, out is Ok),
            old(self).healthy() ==> out is Ok && final(self).healthy(),
    ;

    /// Inserts a value into a tree, creating the tree if it doesn't exist.
    fn insert(&mut self, tree_name: &str, key: &[u8], data: Vec<u8>) -> (out: Result<(), MetaError>)
        ensures
            out is Ok ==> final(self).staged() == old(self).staged().insert(
                (tree_name@, key@),
                data@,
            ),
            out is Err ==> final(self).staged() == old(self).staged(),
            final(self).committed() == old(self).committed(),
            opens(old(self).names(), final(self).names(), tree_name@, out is Ok),
            old(self).healthy() ==> out is Ok && final(self).healthy(),
    ;

    /// Removes a key from a tree, creating the tree if it doesn't exist. Removing
    /// an absent key is not an error.
    fn remove(&mut self, tree_name: &str, key: &[u8]) -> (out: Result<(), MetaError>)
        ensures
            out is Ok ==> final(self).staged() == old(self).staged().remove((tree_name@, key@)),
            out is Err ==> final(self).staged() == old(self).staged(),
            final(self).committed() == old(self).committed(),
            opens(old(self).names(), final(self).names(), tree_name@, out is Ok),
            old(self).healthy() ==> out is Ok && final(self).healthy(),
    ;
}

/// Whether a tree was opened in a store: it is there now, and no other tree came
/// or went. Without an answer it may be there or not.
pub open spec fn opens(
    before: Set<Seq<char>>,
    after: Set<Seq<char>>,
    tree: Seq<char>,
    answered: bool,
) -> bool {
    &&& answered ==> after == before.insert(tree)
    &&& after == before || after == before.insert(tree)
}

/// Opening a tree twice is opening it once.
pub proof fn lemma_opens_again(names: Set<Seq<char>>, tree: Seq<char>)
    ensures
        names.insert(tree).insert(tree) == names.insert(tree),
{
    assert(names.insert(tree).insert(tree) =~= names.insert(tree));
}

/// A storage backend for metadata trees.
pub trait Store: TransactionBackend {
    /// The trees of the store.
    type Tree: MetaTreeExt;

    /// Opens a tree for writing, creating it if it doesn't exist.
    fn tree_open(&mut self, name: &str) -> (out: Result<&mut Self::Tree, MetaError>)
        ensures
            match out {
                Ok(tree) => {
                    &&& tree.entries() == tree_of(old(self).committed(), name@)
                    &&& final(self).committed() == with_tree(
                        old(self).committed(),
                        name@,
                        final(tree).entries(),
                    )
                    &&& final(self).names() == old(self).names().insert(name@)
                    &&& old(self).healthy() ==> tree.healthy()
                    &&& old(self).healthy() && final(tree).healthy() ==> final(self).healthy()
                },
                Err(_) => {
                    &&& final(self).committed() == old(self).committed()
                    &&& final(self).names() == old(self).names()
                },
            },
            old(self).healthy() ==> out is Ok,
    ;

    /// Opens a tree with extended functionality, creating it if it doesn't exist.
    fn tree_ext_open(&mut self, name: &str) -> (out: Result<&Self::Tree, MetaError>)
        ensures
            match out {
                Ok(tree) => {
                    &&& tree.entries() == tree_of(old(self).committed(), name@)
                    &&& final(self).names() == old(self).names().insert(name@)
                    &&& old(self).healthy() ==> tree.healthy()
                },
                Err(_) => final(self).names() == old(self).names(),
            },
            final(self).committed() == old(self).committed(),
            old(self).healthy() ==> out is Ok && final(self).healthy(),
    ;

    /// Finds a tree that is there already; nothing where it doesn't exist. Unlike
    /// an open this creates nothing: it is what a reader uses that must not change
    /// what it reads.
    fn tree_find(&self, name: &str) -> (out: Result<Option<&Self::Tree>, MetaError>)
        ensures
            out matches Ok(Some(tree)) ==> self.names().contains(name@) && tree.entries()
                == tree_of(self.committed(), name@) && (self.healthy() ==> tree.healthy()),
            out matches Ok(None) ==> !self.names().contains(name@) && tree_of(
                self.committed(),
                name@,
            ) == Entries::empty(),
            self.healthy() ==> out is Ok,
    ;

    /// Checks if a tree exists.
    fn tree_exists(&self, name: &str) -> (out: Result<bool, MetaError>)
        ensures
            out matches Ok(there) ==> there == self.names().contains(name@),
            self.healthy() ==> out is Ok,
    ;

    /// Lists the name of every tree in the store once, in no particular order.
    /// Every row is in one of these trees.
    fn list_trees(&self) -> (out: Result<Vec<String>, MetaError>)
        ensures
            out matches Ok(list) ==> lists_names(list@, self.names()) && rows_in(
                self.committed(),
                self.names(),
            ),
            self.healthy() ==> out is Ok,
    ;

    /// Deletes a tree and its rows. A failed call may or may not have done so.
    fn tree_delete(&mut self, name: &str) -> (out: Result<(), MetaError>)
        ensures
            out is Ok ==> final(self).committed() == with_tree(
                old(self).committed(),
                name@,
                Entries::empty(),
            ) && final(self).names() == old(self).names().remove(name@),
            out is Err ==> {
                ||| final(self).committed() == old(self).committed()
                ||| final(self).committed() == with_tree(
                    old(self).committed(),
                    name@,
                    Entries::empty(),
                )
            },
            old(self).healthy() ==> out is Ok && final(self).healthy(),
    ;

    /// Returns the number of keys in a tree, creating it if it doesn't exist.
    fn num_keys(&mut self, tree_name: &str) -> (out: Result<usize, MetaError>)
        ensures
            out matches Ok(n) ==> {
                let entries = tree_of(old(self).committed(), tree_name@);
                &&& entries.dom().finite()
                &&& n == entries.dom().len()
                &&& final(self).names() == old(self).names().insert(tree_name@)
            },
            out is Err ==> final(self).names() == old(self).names() || final(self).names() == old(
                self,
            ).names().insert(tree_name@),
            final(self).committed() == old(self).committed(),
            old(self).healthy() ==> out is Ok && final(self).healthy(),
    ;

    /// Returns the disk space used by the store in bytes, as the backend
    /// measures it.
    fn disk_space(&self) -> u64;
}

/// The durability guarantees of storage operations.
#[derive(Debug, Clone, Copy, PartialEq, Eq, Structural)]
pub enum Durability {
    /// Data is buffered, and the page cache decides when it reaches the disk.
    Buffer,
    /// Everything a request acknowledges is on stable storage before the
    /// acknowledgement.
    Fsync,
}

/// What `str::to_lowercase` makes of a text.
pub uninterp spec fn lowercased(text: Seq<char>) -> Seq<char>;

/// An ASCII character with a capital letter made small.
pub open spec fn ascii_lower(c: char) -> char {
    if 'A' <= c && c <= 'Z' {
        (c as u8 + 32) as u8 as char
    } else {
        c
    }
}

/// A text of ASCII characters with its capital letters made small.
pub open spec fn ascii_lowered(text: Seq<char>) -> Seq<char> {
    text.map_values(|c: char| ascii_lower(c))
}

/// Calls `str::to_lowercase`: of a text of ASCII characters the capital letters
/// are made small; what the Unicode rules make of other texts is not stated
/// here.
#[verifier::external_body]
fn lowercase_text(text: &str) -> (out: String)
    ensures
        out@ == lowercased(text@),
        is_ascii_chars(text@) ==> out@ == ascii_lowered(text@),
{
    text.to_lowercase()
}

impl Durability {
    /// The spelling of a level.
    pub open spec fn text(self) -> Seq<char> {
        match self {
            Durability::Buffer => "buffer"@,
            Durability::Fsync => "fsync"@,
        }
    }

    /// What a lowercase spelling stands for: a level, or a complaint that
    /// quotes the spelling as it was given.
    pub open spec fn parsed(lower: Seq<char>, given: Seq<char>) -> Result<Durability, Seq<char>> {
        if lower == "buffer"@ {
            Ok(Durability::Buffer)
        } else if lower == "fsync"@ {
            Ok(Durability::Fsync)
        } else if lower == "fdatasync"@ {
            Err(
                "the fdatasync durability level was removed (ADR 0010): the sync boundary is the request ack now, which makes it indistinguishable from fsync in both speed and crash safety -- use fsync or buffer"@,
            )
        } else {
            Err("unknown durability option: "@ + given + " (expected buffer or fsync)"@)
        }
    }

    /// Reads the spelling of a level, in any case.
    pub fn from_str(s: &str) -> (out: Result<Self, String>)
        ensures
            match out {
                Ok(level) => Durability::parsed(lowercased(s@), s@) == Ok::<Durability, Seq<char>>(
                    level,
                ),
                Err(text) => Durability::parsed(lowercased(s@), s@) == Err::<Durability, Seq<char>>(
                    text@,
                ),
            },
            is_ascii_chars(s@) ==> lowercased(s@) == ascii_lowered(s@),
    {
        Durability::from_lowercase(&lowercase_text(s), s)
    }

    /// Reads the lowercase spelling of a level; a complaint quotes the spelling
    /// as it was given.
    pub fn from_lowercase(lower: &str, given: &str) -> (out: Result<Self, String>)
        ensures
            match out {
                Ok(level) => Durability::parsed(lower@, given@) == Ok::<Durability, Seq<char>>(
                    level,
                ),
                Err(text) => Durability::parsed(lower@, given@) == Err::<Durability, Seq<char>>(
                    text@,
                ),
            },
    {
        if equal_text(lower, "buffer") {
            Ok(Durability::Buffer)
        } else if equal_text(lower, "fsync") {
            Ok(Durability::Fsync)
        } else if equal_text(lower, "fdatasync") {
            Err(
                "the fdatasync durability level was removed (ADR 0010): the sync boundary is the request ack now, which makes it indistinguishable from fsync in both speed and crash safety -- use fsync or buffer".to_owned(),
            )
        } else {
            let mut text = "unknown durability option: ".to_owned();
            text.append(given);
            text.append(" (expected buffer or fsync)");
            Err(text)
        }
    }

    /// Renders the spelling that `from_str` accepts.
    pub fn to_string(&self) -> (out: String)
        ensures
            out@ == self.text(),
    {
        match self {
            Durability::Buffer => "buffer".to_owned(),
            Durability::Fsync => "fsync".to_owned(),
        }
    }
}

/// The spelling of a level is ASCII and stands for that level, also in capital
/// letters.
pub proof fn lemma_durability_round_trip(level: Durability, given: Seq<char>)
    ensures
        is_ascii_chars(level.text()),
        Durability::parsed(ascii_lowered(level.text()), given) == Ok::<Durability, Seq<char>>(level),
        Durability::parsed(ascii_lowered("BUFFER"@), given) == Ok::<Durability, Seq<char>>(
            Durability::Buffer,
        ),
        Durability::parsed(ascii_lowered("FSYNC"@), given) == Ok::<Durability, Seq<char>>(
            Durability::Fsync,
        ),
{
    reveal_strlit("buffer");
    reveal_strlit("fsync");
    reveal_strlit("BUFFER");
    reveal_strlit("FSYNC");
    assert("buffer"@.len() != "fsync"@.len());
    assert(ascii_lowered(level.text()) =~= level.text());
    assert(ascii_lowered("BUFFER"@) =~= "buffer"@);
    assert(ascii_lowered("FSYNC"@) =~= "fsync"@);
}

/// Two spellings stand for a level, each for its own; any other is complained of.
pub proof fn lemma_durability_spellings(lower: Seq<char>, given: Seq<char>)
    ensures
        Durability::parsed(lower, given) matches Ok(level) ==> lower == level.text(),
        Durability::parsed(lower, given) is Ok <==> lower == "buffer"@ || lower == "fsync"@,
        lower != "buffer"@ && lower != "fsync"@ && lower != "fdatasync"@ ==> Durability::parsed(
            lower,
            given,
        ) == Err::<Durability, Seq<char>>(
            "unknown durability option: "@ + given + " (expected buffer or fsync)"@,
        ),
{
}

} // verus!
