//! The holder walk: who references which block, counted per occurrence.
//!
//! This is the one place that refuses rather than reports: a recount over a
//! partial holder set that then repairs would free live blocks. So every
//! failure, from a tree that will not open to a single record that will not
//! decode, aborts the enumeration.
//!
//! There are two kinds of holders: object records in every object tree of the
//! namespace database, and part records in the shared block database.

use vstd::prelude::*;
use vstd::slice::slice_to_vec;
use vstd::string::*;

use super::findings::{holder_views, HolderRef, HolderView};
use super::id_map::IdMap;
use super::trees::{
    lemma_prefix, lists_sorted, object_names, object_trees, sorted, text_order, text_views,
    tree_rows,
};
use super::ScrubContext;
use crate::cas::multipart::{decode_part, MultiPart, PartView};
use crate::metastore::block::BlockId;
use crate::metastore::codec::id_views;
use crate::metastore::errors::{FsError, MetaError};
use crate::metastore::meta_store::ops::{has_reserved_prefix, is_reserved_name};
use crate::metastore::meta_store::MULTIPART_PARTS_TREE;
use crate::metastore::object::{decode_object, Object, ObjectView};
use crate::metastore::traits::{
    is_listed, listing, pairs, tree_of, KeyValuePairs, Rows, Store, TransactionBackend,
};
use crate::text::{lossy, lossy_text};

verus! {

/// How many times each block is referenced by a holder.
pub type ExpectedCounts = IdMap<u64>;

/// Why the holder enumeration refused to produce a count.
#[derive(Debug)]
#[allow(inconsistent_fields)]
pub enum HolderEnumerationError {
    /// The store would not answer.
    Store {
        /// The tree being walked, or `None` when the tree listing itself failed.
        tree: Option<String>,
        /// What the store said.
        source: MetaError,
    },
    /// A holder record would not decode.
    UndecodableRecord {
        /// Tree the record lives in.
        tree: String,
        /// Record key, rendered lossily.
        key: String,
        /// What the decoder said.
        source: MetaError,
    },
}

/// A holder record that does not decode.
#[verifier::ext_equal]
pub ghost struct Undecodable {
    /// Tree the record lives in.
    pub tree: Seq<char>,
    /// The raw record key.
    pub key: Seq<u8>,
    /// What the decoder says.
    pub damage: FsError,
}

impl HolderEnumerationError {
    /// Whether this is the refusal over a record that does not decode.
    pub open spec fn refuses(self, why: Undecodable) -> bool {
        &&& self matches HolderEnumerationError::UndecodableRecord { tree, key, source }
        &&& tree@ == why.tree
        &&& key@ == lossy(why.key)
        &&& source == MetaError::Corruption(why.damage)
    }

    /// The message.
    pub open spec fn text(self) -> Seq<char> {
        match self {
            HolderEnumerationError::Store { tree: Some(tree), source } =>
                "holder enumeration incomplete: tree "@ + tree@ + " could not be walked: "@
                    + source.text(),
            HolderEnumerationError::Store { tree: None, source } =>
                "holder enumeration incomplete: the store would not list its trees: "@
                    + source.text(),
            HolderEnumerationError::UndecodableRecord { tree, key, source } =>
                "holder enumeration incomplete: record "@ + key@ + " in tree "@ + tree@
                    + " does not decode: "@ + source.text(),
        }
    }

    /// The message.
    pub fn to_string(&self) -> (out: String)
        ensures
            out@ == self.text(),
    {
        match self {
            HolderEnumerationError::Store { tree: Some(tree), source } => {
                let mut out = "holder enumeration incomplete: tree ".to_owned();
                out.append(tree);
                out.append(" could not be walked: ");
                out.append(&source.to_string());
                out
            },
            HolderEnumerationError::Store { tree: None, source } => {
                let mut out =
                    "holder enumeration incomplete: the store would not list its trees: ".to_owned();
                out.append(&source.to_string());
                out
            },
            HolderEnumerationError::UndecodableRecord { tree, key, source } => {
                let mut out = "holder enumeration incomplete: record ".to_owned();
                out.append(key);
                out.append(" in tree ");
                out.append(tree);
                out.append(" does not decode: ");
                out.append(&source.to_string());
                out
            },
        }
    }

    /// The refusal when a tree would not be read.
    pub fn unread(tree: &str, source: MetaError) -> (out: Self)
        ensures
            out matches HolderEnumerationError::Store { tree: Some(name), source: s } && name@
                == tree@ && s == source,
    {
        HolderEnumerationError::Store { tree: Some(tree.to_owned()), source }
    }

    /// The refusal over a record that does not decode.
    pub fn undecodable(tree: &str, key: &[u8], damage: FsError) -> (out: Self)
        ensures
            out.refuses(Undecodable { tree: tree@, key: key@, damage }),
    {
        HolderEnumerationError::UndecodableRecord {
            tree: tree.to_owned(),
            key: lossy_text(key),
            source: MetaError::Corruption(damage),
        }
    }
}

/// One decoded holder record: who it is, and the blocks it references, in
/// order, with repeats.
#[derive(Debug)]
pub struct HolderRecord {
    /// The reportable identity of the holder.
    pub holder: HolderRef,
    /// The blocks it references.
    pub blocks: Vec<BlockId>,
}

/// What a holder record states.
#[verifier::ext_equal]
pub ghost struct HolderEntry {
    pub holder: HolderView,
    pub blocks: Seq<Seq<u8>>,
}

impl View for HolderRecord {
    type V = HolderEntry;

    open spec fn view(&self) -> HolderEntry {
        HolderEntry { holder: self.holder@, blocks: id_views(self.blocks@) }
    }
}

/// Holder records by what they state.
pub open spec fn entry_views(list: Seq<HolderRecord>) -> Seq<HolderEntry> {
    list.map_values(|h: HolderRecord| h@)
}

/// The holders found, or the first record in their way.
pub type Walked = Result<Seq<HolderEntry>, Undecodable>;

/// Whether a tree name is one of the store's own rather than a bucket.
pub fn is_reserved(tree: &str) -> (yes: bool)
    ensures
        yes == is_reserved_name(tree@),
{
    has_reserved_prefix(tree)
}

/// The object record of a tree as a holder.
pub open spec fn object_entry(tree: Seq<char>, key: Seq<u8>, object: ObjectView) -> HolderEntry {
    HolderEntry { holder: HolderView::Object(tree, lossy(key)), blocks: object.data.blocks() }
}

/// A part record as a holder.
pub open spec fn part_entry(part: PartView) -> HolderEntry {
    HolderEntry {
        holder: HolderView::Part(part.bucket, part.key, part.upload_id, part.part_number),
        blocks: part.blocks,
    }
}

/// The holders among the rows of an object tree, behind those found before.
pub open spec fn object_holders(
    before: Seq<HolderEntry>,
    tree: Seq<char>,
    rows: Seq<(Seq<u8>, Seq<u8>)>,
) -> Walked
    decreases rows.len(),
{
    if rows.len() == 0 {
        Ok(before)
    } else {
        match object_holders(before, tree, rows.drop_last()) {
            Err(why) => Err(why),
            Ok(found) => match decode_object(rows.last().1) {
                Err(damage) => Err(Undecodable { tree, key: rows.last().0, damage }),
                Ok(object) => Ok(found.push(object_entry(tree, rows.last().0, object))),
            },
        }
    }
}

/// The holders among part records, behind those found before.
pub open spec fn part_holders(
    before: Seq<HolderEntry>,
    rows: Seq<(Seq<u8>, Seq<u8>)>,
) -> Walked
    decreases rows.len(),
{
    if rows.len() == 0 {
        Ok(before)
    } else {
        match part_holders(before, rows.drop_last()) {
            Err(why) => Err(why),
            Ok(found) => match decode_part(rows.last().1) {
                Err(damage) => Err(
                    Undecodable { tree: MULTIPART_PARTS_TREE@, key: rows.last().0, damage },
                ),
                Ok(part) => Ok(found.push(part_entry(part))),
            },
        }
    }
}

/// The holders in the named object trees, tree by tree.
pub open spec fn tree_holders(rows: Rows, trees: Seq<Seq<char>>) -> Walked
    decreases trees.len(),
{
    if trees.len() == 0 {
        Ok(Seq::empty())
    } else {
        match tree_holders(rows, trees.drop_last()) {
            Err(why) => Err(why),
            Ok(found) => object_holders(found, trees.last(), listing(tree_of(rows, trees.last()))),
        }
    }
}

/// All holders of a store: the object records of every object tree, in tree and
/// key order, then the part records.
pub open spec fn all_holders(names: Set<Seq<char>>, namespace: Rows, shared: Rows) -> Walked {
    match tree_holders(namespace, sorted(object_names(names))) {
        Err(why) => Err(why),
        Ok(found) => part_holders(found, listing(tree_of(shared, MULTIPART_PARTS_TREE@))),
    }
}

/// A row that does not decode keeps its place in the way of all that follow.
proof fn lemma_object_holders_stop(
    before: Seq<HolderEntry>,
    tree: Seq<char>,
    rows: Seq<(Seq<u8>, Seq<u8>)>,
    n: int,
)
    requires
        0 <= n <= rows.len(),
        object_holders(before, tree, rows.subrange(0, n)) is Err,
    ensures
        object_holders(before, tree, rows) == object_holders(before, tree, rows.subrange(0, n)),
    decreases rows.len() - n,
{
    if n == rows.len() {
        assert(rows.subrange(0, n) =~= rows);
    } else {
        lemma_prefix(rows, n);
        lemma_object_holders_stop(before, tree, rows, n + 1);
    }
}

proof fn lemma_part_holders_stop(
    before: Seq<HolderEntry>,
    rows: Seq<(Seq<u8>, Seq<u8>)>,
    n: int,
)
    requires
        0 <= n <= rows.len(),
        part_holders(before, rows.subrange(0, n)) is Err,
    ensures
        part_holders(before, rows) == part_holders(before, rows.subrange(0, n)),
    decreases rows.len() - n,
{
    if n == rows.len() {
        assert(rows.subrange(0, n) =~= rows);
    } else {
        lemma_prefix(rows, n);
        lemma_part_holders_stop(before, rows, n + 1);
    }
}

proof fn lemma_tree_holders_stop(rows: Rows, trees: Seq<Seq<char>>, n: int)
    requires
        0 <= n <= trees.len(),
        tree_holders(rows, trees.subrange(0, n)) is Err,
    ensures
        tree_holders(rows, trees) == tree_holders(rows, trees.subrange(0, n)),
    decreases trees.len() - n,
{
    if n == trees.len() {
        assert(trees.subrange(0, n) =~= trees);
    } else {
        lemma_prefix(trees, n);
        lemma_tree_holders_stop(rows, trees, n + 1);
    }
}

/// Whether a walk ended as it should.
pub open spec fn ends_as(out: Result<(), HolderEnumerationError>, found: Seq<HolderEntry>, want: Walked) -> bool {
    match out {
        Ok(()) => want == Ok::<Seq<HolderEntry>, Undecodable>(found),
        Err(e) => want matches Err(why) && e.refuses(why),
    }
}

/// Collects the holders among the rows of an object tree.
fn walk_objects(tree: &str, rows: &KeyValuePairs, found: &mut Vec<HolderRecord>) -> (out: Result<
    (),
    HolderEnumerationError,
>)
    ensures
        ends_as(
            out,
            entry_views(final(found)@),
            object_holders(entry_views(old(found)@), tree@, pairs(rows@)),
        ),
{
    let ghost before = entry_views(found@);
    let ghost all = pairs(rows@);
    let mut i: usize = 0;
    proof {
        assert(all.subrange(0, 0) =~= Seq::<(Seq<u8>, Seq<u8>)>::empty());
    }
    while i < rows.len()
        invariant
            i <= rows@.len(),
            all == pairs(rows@),
            before == entry_views(old(found)@),
            object_holders(before, tree@, all.subrange(0, i as int)) == Ok::<
                Seq<HolderEntry>,
                Undecodable,
            >(entry_views(found@)),
        decreases rows@.len() - i,
    {
        proof {
            lemma_prefix(all, i as int);
            assert(all[i as int] == (rows@[i as int].0@, rows@[i as int].1@));
        }
        match Object::try_from(&rows[i].1) {
            Err(damage) => {
                proof {
                    lemma_object_holders_stop(before, tree@, all, i + 1);
                }
                return Err(HolderEnumerationError::undecodable(tree, &rows[i].0, damage));
            },
            Ok(object) => {
                let ghost so_far = found@;
                let record = HolderRecord {
                    holder: HolderRef::Object {
                        bucket: tree.to_owned(),
                        key: lossy_text(&rows[i].0),
                    },
                    blocks: slice_to_vec(object.blocks()),
                };
                proof {
                    assert(record@ =~= object_entry(tree@, all[i as int].0, object@));
                }
                found.push(record);
                proof {
                    assert(entry_views(found@) =~= entry_views(so_far).push(record@));
                }
            },
        }
        i = i + 1;
    }
    proof {
        assert(all.subrange(0, all.len() as int) =~= all);
    }
    Ok(())
}

/// Collects the holders among part records.
fn walk_parts(rows: &KeyValuePairs, found: &mut Vec<HolderRecord>) -> (out: Result<
    (),
    HolderEnumerationError,
>)
    ensures
        ends_as(
            out,
            entry_views(final(found)@),
            part_holders(entry_views(old(found)@), pairs(rows@)),
        ),
{
    let ghost before = entry_views(found@);
    let ghost all = pairs(rows@);
    let mut i: usize = 0;
    proof {
        assert(all.subrange(0, 0) =~= Seq::<(Seq<u8>, Seq<u8>)>::empty());
    }
    while i < rows.len()
        invariant
            i <= rows@.len(),
            all == pairs(rows@),
            before == entry_views(old(found)@),
            part_holders(before, all.subrange(0, i as int)) == Ok::<Seq<HolderEntry>, Undecodable>(
                entry_views(found@),
            ),
        decreases rows@.len() - i,
    {
        proof {
            lemma_prefix(all, i as int);
            assert(all[i as int] == (rows@[i as int].0@, rows@[i as int].1@));
        }
        match MultiPart::try_from(&rows[i].1) {
            Err(damage) => {
                proof {
                    lemma_part_holders_stop(before, all, i + 1);
                }
                return Err(
                    HolderEnumerationError::undecodable(MULTIPART_PARTS_TREE, &rows[i].0, damage),
                );
            },
            Ok(part) => {
                let ghost so_far = found@;
                let ghost view = part@;
                let record = HolderRecord {
                    holder: HolderRef::Part {
                        bucket: part.bucket,
                        key: part.key,
                        upload_id: part.upload_id,
                        part_number: part.part_number,
                    },
                    blocks: part.blocks,
                };
                proof {
                    assert(record@ =~= part_entry(view));
                }
                found.push(record);
                proof {
                    assert(entry_views(found@) =~= entry_views(so_far).push(record@));
                }
            },
        }
        i = i + 1;
    }
    proof {
        assert(all.subrange(0, all.len() as int) =~= all);
    }
    Ok(())
}

impl<'a, N: Store, B: Store> ScrubContext<'a, N, B> {
    /// The holders of the store, or the first record in their way.
    pub open spec fn holders(&self) -> Walked {
        all_holders(
            self.namespace.store.names(),
            self.namespace.store.committed(),
            self.shared.meta.store.committed(),
        )
    }

    /// Whether each of the trees that hold holder records has a listing.
    pub open spec fn listed(&self) -> bool {
        &&& forall|name: Seq<char>| #[trigger]
            object_names(self.namespace.store.names()).contains(name) ==> is_listed(
                tree_of(self.namespace.store.committed(), name),
            )
        &&& is_listed(tree_of(self.shared.meta.store.committed(), MULTIPART_PARTS_TREE@))
        &&& lists_sorted(
            sorted(object_names(self.namespace.store.names())),
            object_names(self.namespace.store.names()),
        )
    }

    /// Whether an enumeration was refused for a reason there is: a record that
    /// does not decode, or a store that does not answer.
    pub open spec fn refused(&self, e: HolderEnumerationError) -> bool {
        match e {
            HolderEnumerationError::Store { .. } => !self.healthy(),
            HolderEnumerationError::UndecodableRecord { .. } => self.holders() matches Err(why)
                && e.refuses(why),
        }
    }
}

/// Reads every holder record in the store exactly once, in tree and key order.
///
/// Returns on the first failure of any kind.
pub fn walk_holders<N: Store, B: Store>(ctx: &ScrubContext<'_, N, B>) -> (out: Result<
    Vec<HolderRecord>,
    HolderEnumerationError,
>)
    ensures
        match out {
            Ok(list) => ctx.holders() == Ok::<Seq<HolderEntry>, Undecodable>(entry_views(list@))
                && ctx.listed(),
            Err(e) => ctx.refused(e),
        },
{
    let trees = match object_trees(ctx.namespace()) {
        Ok(trees) => trees,
        Err(source) => {
            return Err(HolderEnumerationError::Store { tree: None, source });
        },
    };
    let ghost rows = ctx.namespace.store.committed();
    let ghost names = text_views(trees@);
    let mut found: Vec<HolderRecord> = Vec::new();
    let mut i: usize = 0;
    proof {
        assert(names.subrange(0, 0) =~= Seq::<Seq<char>>::empty());
        assert(entry_views(found@) =~= Seq::<HolderEntry>::empty());
    }
    while i < trees.len()
        invariant
            i <= trees@.len(),
            rows == ctx.namespace.store.committed(),
            names == text_views(trees@),
            names == sorted(object_names(ctx.namespace.store.names())),
            text_order(names),
            forall|name: Seq<char>| #[trigger]
                names.contains(name) <==> object_names(ctx.namespace.store.names()).contains(name),
            forall|j: int| 0 <= j < i ==> is_listed(tree_of(rows, #[trigger] names[j])),
            tree_holders(rows, names.subrange(0, i as int)) == Ok::<Seq<HolderEntry>, Undecodable>(
                entry_views(found@),
            ),
        decreases trees@.len() - i,
    {
        let tree = trees[i].as_str();
        proof {
            lemma_prefix(names, i as int);
            assert(names[i as int] == tree@);
        }
        let list = match tree_rows(ctx.namespace(), tree) {
            Ok(list) => list,
            Err(source) => {
                return Err(HolderEnumerationError::unread(tree, source));
            },
        };
        match walk_objects(tree, &list, &mut found) {
            Ok(()) => {},
            Err(e) => {
                proof {
                    lemma_tree_holders_stop(rows, names, i + 1);
                }
                return Err(e);
            },
        }
        i = i + 1;
    }
    proof {
        assert(names.subrange(0, names.len() as int) =~= names);
    }
    let parts = match tree_rows(ctx.shared().meta_store(), MULTIPART_PARTS_TREE) {
        Ok(parts) => parts,
        Err(source) => {
            return Err(HolderEnumerationError::unread(MULTIPART_PARTS_TREE, source));
        },
    };
    proof {
        assert forall|name: Seq<char>| #[trigger] object_names(
            ctx.namespace.store.names(),
        ).contains(name) implies is_listed(tree_of(rows, name)) by {
            assert(names.contains(name));
            let j = choose|j: int| 0 <= j < names.len() && names[j] == name;
            assert(is_listed(tree_of(rows, names[j])));
        }
    }
    match walk_parts(&parts, &mut found) {
        Ok(()) => Ok(found),
        Err(e) => Err(e),
    }
}

/// How often a block stands in a list.
pub open spec fn occurrences(blocks: Seq<Seq<u8>>, id: Seq<u8>) -> nat
    decreases blocks.len(),
{
    if blocks.len() == 0 {
        0
    } else {
        occurrences(blocks.drop_last(), id) + if blocks.last() == id {
            1nat
        } else {
            0nat
        }
    }
}

/// How often the holders reference a block, counted per occurrence: a block
/// listed twice in one record counts twice.
pub open spec fn references(holders: Seq<HolderEntry>, id: Seq<u8>) -> nat
    decreases holders.len(),
{
    if holders.len() == 0 {
        0
    } else {
        references(holders.drop_last(), id) + occurrences(holders.last().blocks, id)
    }
}

/// A count as a machine holds it.
pub open spec fn counted(n: nat) -> u64 {
    if n <= u64::MAX {
        n as u64
    } else {
        u64::MAX
    }
}

/// Whether a count is what the holders say: each referenced block with the
/// number of its references, and no other.
pub open spec fn counts_holders(counts: Map<Seq<u8>, u64>, holders: Seq<HolderEntry>) -> bool {
    &&& forall|id: Seq<u8>| #[trigger] counts.contains_key(id) <==> references(holders, id) > 0
    &&& forall|id: Seq<u8>| #[trigger]
        counts.contains_key(id) ==> counts[id] == counted(references(holders, id))
}

/// Adds one reference to a block's count.
fn count_one(counts: &mut ExpectedCounts, id: BlockId)
    ensures
        final(counts)@ == old(counts)@.insert(
            id@,
            if old(counts)@.contains_key(id@) {
                counted((old(counts)@[id@] + 1) as nat)
            } else {
                1
            },
        ),
{
    let n: u64 = match counts.get(&id) {
        Some(n) => if *n < u64::MAX {
            *n + 1
        } else {
            *n
        },
        None => 1,
    };
    counts.insert(id, n);
}

/// Counts every block reference that the given holders hold.
pub fn count_references(holders: &Vec<HolderRecord>) -> (counts: ExpectedCounts)
    ensures
        counts_holders(counts@, entry_views(holders@)),
{
    let ghost all = entry_views(holders@);
    let mut counts: ExpectedCounts = IdMap::new();
    let mut i: usize = 0;
    proof {
        assert(all.subrange(0, 0) =~= Seq::<HolderEntry>::empty());
    }
    while i < holders.len()
        invariant
            i <= holders@.len(),
            all == entry_views(holders@),
            counts_holders(counts@, all.subrange(0, i as int)),
        decreases holders@.len() - i,
    {
        let blocks = &holders[i].blocks;
        let ghost ids = id_views(blocks@);
        let ghost so_far = all.subrange(0, i as int);
        let mut j: usize = 0;
        proof {
            lemma_prefix(all, i as int);
            assert(all[i as int].blocks == ids);
            assert(ids.subrange(0, 0) =~= Seq::<Seq<u8>>::empty());
        }
        while j < blocks.len()
            invariant
                j <= blocks@.len(),
                ids == id_views(blocks@),
                forall|id: Seq<u8>| #[trigger]
                    counts@.contains_key(id) <==> references(so_far, id) + occurrences(
                        ids.subrange(0, j as int),
                        id,
                    ) > 0,
                forall|id: Seq<u8>| #[trigger]
                    counts@.contains_key(id) ==> counts@[id] == counted(
                        references(so_far, id) + occurrences(ids.subrange(0, j as int), id),
                    ),
            decreases blocks@.len() - j,
        {
            proof {
                lemma_prefix(ids, j as int);
                assert(ids[j as int] == blocks@[j as int]@);
            }
            count_one(&mut counts, blocks[j]);
            j = j + 1;
        }
        proof {
            assert(ids.subrange(0, ids.len() as int) =~= ids);
        }
        i = i + 1;
    }
    proof {
        assert(all.subrange(0, all.len() as int) =~= all);
    }
    counts
}

/// Counts every block reference every holder holds.
///
/// There is no partial result: the count is of all holders, or it is refused.
pub fn expected_counts<N: Store, B: Store>(ctx: &ScrubContext<'_, N, B>) -> (out: Result<
    ExpectedCounts,
    HolderEnumerationError,
>)
    ensures
        match out {
            Ok(counts) => ctx.listed() && (ctx.holders() matches Ok(holders) && counts_holders(
                counts@,
                holders,
            )),
            Err(e) => ctx.refused(e),
        },
{
    match walk_holders(ctx) {
        Ok(holders) => Ok(count_references(&holders)),
        Err(e) => Err(e),
    }
}

/// The holders that reference a block, each once, in walk order.
pub open spec fn holders_naming(holders: Seq<HolderEntry>, id: Seq<u8>) -> Seq<HolderView>
    decreases holders.len(),
{
    if holders.len() == 0 {
        Seq::empty()
    } else {
        let init = holders_naming(holders.drop_last(), id);
        if holders.last().blocks.contains(id) {
            init.push(holders.last().holder)
        } else {
            init
        }
    }
}

/// Whether a record references a block.
fn names_block(record: &HolderRecord, id: &BlockId) -> (yes: bool)
    ensures
        yes == record@.blocks.contains(id@),
{
    let mut i: usize = 0;
    while i < record.blocks.len()
        invariant
            i <= record.blocks@.len(),
            forall|j: int| 0 <= j < i ==> (#[trigger] record@.blocks[j]) != id@,
        decreases record.blocks@.len() - i,
    {
        proof {
            assert(record@.blocks[i as int] == record.blocks@[i as int]@);
        }
        if record.blocks[i].same(id) {
            return true;
        }
        i = i + 1;
    }
    false
}

/// The holders among the given ones that reference a block.
fn find_holders(holders: &Vec<HolderRecord>, id: &BlockId) -> (found: Vec<HolderRef>)
    ensures
        holder_views(found@) == holders_naming(entry_views(holders@), id@),
{
    let ghost all = entry_views(holders@);
    let mut found: Vec<HolderRef> = Vec::new();
    let mut i: usize = 0;
    proof {
        assert(all.subrange(0, 0) =~= Seq::<HolderEntry>::empty());
        assert(holder_views(found@) =~= Seq::<HolderView>::empty());
    }
    while i < holders.len()
        invariant
            i <= holders@.len(),
            all == entry_views(holders@),
            holder_views(found@) == holders_naming(all.subrange(0, i as int), id@),
        decreases holders@.len() - i,
    {
        let ghost so_far = found@;
        proof {
            lemma_prefix(all, i as int);
            assert(all[i as int] == holders@[i as int]@);
        }
        if names_block(&holders[i], id) {
            let holder = holders[i].holder.copy();
            found.push(holder);
            proof {
                assert(holder_views(found@) =~= holder_views(so_far).push(holder@));
            }
        }
        i = i + 1;
    }
    proof {
        assert(all.subrange(0, all.len() as int) =~= all);
    }
    found
}

/// Whether a mapping names the holders of the wanted blocks; blocks without a
/// holder are absent from it.
pub open spec fn names_holders(
    found: Map<Seq<u8>, Vec<HolderRef>>,
    wanted: Seq<Seq<u8>>,
    holders: Seq<HolderEntry>,
) -> bool {
    &&& forall|id: Seq<u8>| #[trigger]
        found.contains_key(id) <==> wanted.contains(id) && holders_naming(holders, id).len() > 0
    &&& forall|id: Seq<u8>| #[trigger]
        found.contains_key(id) ==> holder_views(found[id]@) == holders_naming(holders, id)
}

/// Which of the given holders reference each of the wanted blocks.
pub fn group_holders(holders: &Vec<HolderRecord>, blocks: &Vec<BlockId>) -> (found: IdMap<
    Vec<HolderRef>,
>)
    ensures
        names_holders(found@, id_views(blocks@), entry_views(holders@)),
{
    let ghost all = entry_views(holders@);
    let ghost wanted = id_views(blocks@);
    let mut found: IdMap<Vec<HolderRef>> = IdMap::new();
    let mut i: usize = 0;
    while i < blocks.len()
        invariant
            i <= blocks@.len(),
            all == entry_views(holders@),
            wanted == id_views(blocks@),
            forall|id: Seq<u8>| #[trigger]
                found@.contains_key(id) ==> wanted.contains(id) && holders_naming(all, id).len() > 0
                    && holder_views(found@[id]@) == holders_naming(all, id),
            forall|j: int|
                0 <= j < i && holders_naming(all, #[trigger] wanted[j]).len() > 0
                    ==> found@.contains_key(wanted[j]),
        decreases blocks@.len() - i,
    {
        let refs = find_holders(holders, &blocks[i]);
        proof {
            assert(wanted[i as int] == blocks@[i as int]@);
            assert(wanted.contains(wanted[i as int]));
            assert(refs@.len() == holder_views(refs@).len());
        }
        if refs.len() > 0 {
            found.insert(blocks[i], refs);
        }
        i = i + 1;
    }
    proof {
        assert forall|id: Seq<u8>|
            wanted.contains(id) && holders_naming(all, id).len() > 0 implies #[trigger]
            found@.contains_key(id) by {
            let j = choose|j: int| 0 <= j < wanted.len() && wanted[j] == id;
            assert(holders_naming(all, wanted[j]).len() > 0);
        }
    }
    found
}

/// The blast radius of `blocks`: which holders reference each of them.
///
/// Asking for nothing walks nothing.
pub fn holders_of<N: Store, B: Store>(ctx: &ScrubContext<'_, N, B>, blocks: &Vec<BlockId>) -> (out:
    Result<IdMap<Vec<HolderRef>>, HolderEnumerationError>)
    ensures
        blocks@.len() == 0 ==> (out matches Ok(found) && found@ == Map::<
            Seq<u8>,
            Vec<HolderRef>,
        >::empty()),
        blocks@.len() > 0 ==> match out {
            Ok(found) => ctx.listed() && (ctx.holders() matches Ok(holders) && names_holders(
                found@,
                id_views(blocks@),
                holders,
            )),
            Err(e) => ctx.refused(e),
        },
{
    if blocks.len() == 0 {
        return Ok(IdMap::new());
    }
    match walk_holders(ctx) {
        Ok(holders) => Ok(group_holders(&holders, blocks)),
        Err(e) => Err(e),
    }
}

} // verus!
