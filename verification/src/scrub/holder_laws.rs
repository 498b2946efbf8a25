//! What the holder walk counts, said of the records in the store.

use vstd::prelude::*;

use super::findings::HolderView;
use super::holders::{
    counts_holders, object_holders, occurrences, part_holders, references, tree_holders,
    HolderEntry, HolderEnumerationError, Undecodable,
};
use super::trees::{object_names, sorted, text_order};
use super::ScrubContext;
use crate::bytes::{
    bytes_lt, lemma_bytes_lt_irreflexive, lemma_bytes_lt_total, lemma_bytes_lt_transitive,
};
use crate::cas::multipart::{decode_part, PartView};
use crate::metastore::errors::FsError;
use crate::metastore::meta_store::MULTIPART_PARTS_TREE;
use crate::metastore::object::{decode_object, DataView, ObjectView};
use crate::metastore::traits::{
    is_listed, lemma_listing, listing, lists, tree_of, Entries, Rows, Store, TransactionBackend,
};
use crate::text::{lossy, text_lt};

verus! {

/// The block ids that the bytes of an object record list: those of its data,
/// whether it was stored in one piece or in parts. Inlined data lists none.
pub open spec fn listed_ids(raw: Seq<u8>) -> Seq<Seq<u8>> {
    match decode_object(raw) {
        Ok(ObjectView { data: DataView::SinglePart(ids), .. }) => ids,
        Ok(ObjectView { data: DataView::MultiPart(ids, _), .. }) => ids,
        _ => Seq::empty(),
    }
}

/// The block ids that the bytes of a part record list.
pub open spec fn part_ids(raw: Seq<u8>) -> Seq<Seq<u8>> {
    match decode_part(raw) {
        Ok(part) => part.blocks,
        Err(_) => Seq::empty(),
    }
}

/// How often a block stands in a list is how often a bag of the list holds it.
pub proof fn lemma_occurrences(ids: Seq<Seq<u8>>, id: Seq<u8>)
    ensures
        occurrences(ids, id) == ids.to_multiset().count(id),
    decreases ids.len(),
{
    ids.to_multiset_ensures();
    if ids.len() > 0 {
        lemma_occurrences(ids.drop_last(), id);
        ids.drop_last().to_multiset_ensures();
        assert(ids =~= ids.drop_last().push(ids.last()));
    } else {
        assert(ids =~= Seq::<Seq<u8>>::empty());
    }
}

/// Whether a holder is that of a row of an object tree.
spec fn object_row_held(e: HolderEntry, tree: Seq<char>, row: (Seq<u8>, Seq<u8>)) -> bool {
    &&& e.holder == HolderView::Object(tree, lossy(row.0))
    &&& decode_object(row.1) matches Ok(o)
    &&& o.data matches DataView::SinglePart(ids) ==> e.blocks == ids
    &&& o.data matches DataView::MultiPart(ids, _) ==> e.blocks == ids
    &&& o.data is Inline ==> e.blocks.len() == 0
}

proof fn lemma_object_rows_decode(
    before: Seq<HolderEntry>,
    tree: Seq<char>,
    rows: Seq<(Seq<u8>, Seq<u8>)>,
)
    ensures
        object_holders(before, tree, rows) is Ok <==> forall|i: int|
            0 <= i < rows.len() ==> decode_object((#[trigger] rows[i]).1) is Ok,
    decreases rows.len(),
{
    if rows.len() > 0 {
        let init = rows.drop_last();
        lemma_object_rows_decode(before, tree, init);
        assert(rows.last() == rows[rows.len() - 1]);
        if object_holders(before, tree, init) is Ok {
            assert forall|i: int| 0 <= i < rows.len() - 1 implies decode_object(
                (#[trigger] rows[i]).1,
            ) is Ok by {
                assert(init[i] == rows[i]);
            }
        } else {
            let i = choose|i: int| 0 <= i < init.len() && decode_object((#[trigger] init[i]).1) is Err;
            assert(rows[i] == init[i]);
        }
    }
}

proof fn lemma_object_rows_found(
    before: Seq<HolderEntry>,
    tree: Seq<char>,
    rows: Seq<(Seq<u8>, Seq<u8>)>,
)
    requires
        object_holders(before, tree, rows) is Ok,
    ensures
        ({
            let found = object_holders(before, tree, rows)->Ok_0;
            &&& found.len() == before.len() + rows.len()
            &&& found.subrange(0, before.len() as int) == before
            &&& forall|i: int|
                0 <= i < rows.len() ==> object_row_held(#[trigger] found[before.len() + i], tree, rows[i])
        }),
    decreases rows.len(),
{
    if rows.len() == 0 {
        assert(before.subrange(0, before.len() as int) =~= before);
    } else {
        let init = rows.drop_last();
        lemma_object_rows_found(before, tree, init);
        let found = object_holders(before, tree, init)->Ok_0;
        let all = object_holders(before, tree, rows)->Ok_0;
        assert(all.subrange(0, before.len() as int) =~= found.subrange(0, before.len() as int));
        assert forall|i: int| 0 <= i < rows.len() implies object_row_held(#[trigger] all[before.len() + i], tree, rows[i]) by {
            if i < init.len() {
                assert(object_row_held(found[before.len() + i], tree, init[i]));
                assert(all[before.len() + i] == found[before.len() + i]);
            }
        }
    }
}

proof fn lemma_object_rows_refused(
    before: Seq<HolderEntry>,
    tree: Seq<char>,
    rows: Seq<(Seq<u8>, Seq<u8>)>,
) -> (i: int)
    requires
        object_holders(before, tree, rows) is Err,
    ensures
        0 <= i < rows.len(),
        ({
            let why = object_holders(before, tree, rows)->Err_0;
            &&& why.tree == tree
            &&& why.key == rows[i].0
            &&& decode_object(rows[i].1) == Err::<ObjectView, FsError>(why.damage)
        }),
        forall|j: int| 0 <= j < i ==> decode_object((#[trigger] rows[j]).1) is Ok,
    decreases rows.len(),
{
    let init = rows.drop_last();
    lemma_object_rows_decode(before, tree, init);
    if object_holders(before, tree, init) is Err {
        let i = lemma_object_rows_refused(before, tree, init);
        assert forall|j: int| 0 <= j < i implies decode_object((#[trigger] rows[j]).1) is Ok by {
            assert(init[j] == rows[j]);
        }
        i
    } else {
        assert forall|j: int| 0 <= j < rows.len() - 1 implies decode_object(
            (#[trigger] rows[j]).1,
        ) is Ok by {
            assert(init[j] == rows[j]);
        }
        rows.len() - 1
    }
}

/// Each row of an object tree is one holder, in the order of the rows and behind
/// those found before: under the tree's name and the row's key, with the block
/// ids that the record lists, stored in one piece or in parts. The walk ends so
/// exactly where every row decodes, and is otherwise refused over the first that
/// does not.
pub proof fn lemma_object_rows_hold(
    before: Seq<HolderEntry>,
    tree: Seq<char>,
    rows: Seq<(Seq<u8>, Seq<u8>)>,
)
    ensures
        object_holders(before, tree, rows) is Ok <==> forall|i: int|
            0 <= i < rows.len() ==> decode_object((#[trigger] rows[i]).1) is Ok,
        object_holders(before, tree, rows) matches Ok(found) ==> {
            &&& found.len() == before.len() + rows.len()
            &&& found.subrange(0, before.len() as int) == before
            &&& forall|i: int|
                0 <= i < rows.len() ==> {
                    let e = #[trigger] found[before.len() + i];
                    &&& e.holder == HolderView::Object(tree, lossy(rows[i].0))
                    &&& decode_object(rows[i].1) matches Ok(o)
                    &&& o.data matches DataView::SinglePart(ids) ==> e.blocks == ids
                    &&& o.data matches DataView::MultiPart(ids, _) ==> e.blocks == ids
                    &&& o.data is Inline ==> e.blocks.len() == 0
                }
        },
        object_holders(before, tree, rows) matches Err(why) ==> exists|i: int|
            {
                &&& 0 <= i < rows.len()
                &&& why.tree == tree
                &&& why.key == (#[trigger] rows[i]).0
                &&& decode_object(rows[i].1) == Err::<ObjectView, FsError>(why.damage)
                &&& forall|j: int| 0 <= j < i ==> decode_object((#[trigger] rows[j]).1) is Ok
            },
{
    lemma_object_rows_decode(before, tree, rows);
    match object_holders(before, tree, rows) {
        Ok(found) => {
            lemma_object_rows_found(before, tree, rows);
            assert forall|i: int| 0 <= i < rows.len() implies ({
                let e = #[trigger] found[before.len() + i];
                    &&& e.holder == HolderView::Object(tree, lossy(rows[i].0))
                    &&& decode_object(rows[i].1) matches Ok(o)
                    &&& o.data matches DataView::SinglePart(ids) ==> e.blocks == ids
                    &&& o.data matches DataView::MultiPart(ids, _) ==> e.blocks == ids
                    &&& o.data is Inline ==> e.blocks.len() == 0
            }) by {
                assert(object_row_held(found[before.len() + i], tree, rows[i]));
            }
        },
        Err(why) => {
            let i = lemma_object_rows_refused(before, tree, rows);
            assert(why.key == rows[i].0);
        },
    }
}

/// Whether a holder is that of a row of the part records.
spec fn part_row_held(e: HolderEntry, row: (Seq<u8>, Seq<u8>)) -> bool {
    &&& decode_part(row.1) matches Ok(p)
    &&& e.holder == HolderView::Part(p.bucket, p.key, p.upload_id, p.part_number)
    &&& e.blocks == p.blocks
}

proof fn lemma_part_rows_decode(
    before: Seq<HolderEntry>,
    rows: Seq<(Seq<u8>, Seq<u8>)>,
)
    ensures
        part_holders(before, rows) is Ok <==> forall|i: int|
            0 <= i < rows.len() ==> decode_part((#[trigger] rows[i]).1) is Ok,
    decreases rows.len(),
{
    if rows.len() > 0 {
        let init = rows.drop_last();
        lemma_part_rows_decode(before, init);
        assert(rows.last() == rows[rows.len() - 1]);
        if part_holders(before, init) is Ok {
            assert forall|i: int| 0 <= i < rows.len() - 1 implies decode_part(
                (#[trigger] rows[i]).1,
            ) is Ok by {
                assert(init[i] == rows[i]);
            }
        } else {
            let i = choose|i: int| 0 <= i < init.len() && decode_part((#[trigger] init[i]).1) is Err;
            assert(rows[i] == init[i]);
        }
    }
}

proof fn lemma_part_rows_found(
    before: Seq<HolderEntry>,
    rows: Seq<(Seq<u8>, Seq<u8>)>,
)
    requires
        part_holders(before, rows) is Ok,
    ensures
        ({
            let found = part_holders(before, rows)->Ok_0;
            &&& found.len() == before.len() + rows.len()
            &&& found.subrange(0, before.len() as int) == before
            &&& forall|i: int|
                0 <= i < rows.len() ==> part_row_held(#[trigger] found[before.len() + i], rows[i])
        }),
    decreases rows.len(),
{
    if rows.len() == 0 {
        assert(before.subrange(0, before.len() as int) =~= before);
    } else {
        let init = rows.drop_last();
        lemma_part_rows_found(before, init);
        let found = part_holders(before, init)->Ok_0;
        let all = part_holders(before, rows)->Ok_0;
        assert(all.subrange(0, before.len() as int) =~= found.subrange(0, before.len() as int));
        assert forall|i: int| 0 <= i < rows.len() implies part_row_held(#[trigger] all[before.len() + i], rows[i]) by {
            if i < init.len() {
                assert(part_row_held(found[before.len() + i], init[i]));
                assert(all[before.len() + i] == found[before.len() + i]);
            }
        }
    }
}

proof fn lemma_part_rows_refused(
    before: Seq<HolderEntry>,
    rows: Seq<(Seq<u8>, Seq<u8>)>,
) -> (i: int)
    requires
        part_holders(before, rows) is Err,
    ensures
        0 <= i < rows.len(),
        ({
            let why = part_holders(before, rows)->Err_0;
            &&& why.tree == "_MULTIPART_PARTS"@
            &&& why.key == rows[i].0
            &&& decode_part(rows[i].1) == Err::<PartView, FsError>(why.damage)
        }),
        forall|j: int| 0 <= j < i ==> decode_part((#[trigger] rows[j]).1) is Ok,
    decreases rows.len(),
{
    let init = rows.drop_last();
    lemma_part_rows_decode(before, init);
    if part_holders(before, init) is Err {
        let i = lemma_part_rows_refused(before, init);
        assert forall|j: int| 0 <= j < i implies decode_part((#[trigger] rows[j]).1) is Ok by {
            assert(init[j] == rows[j]);
        }
        i
    } else {
        assert forall|j: int| 0 <= j < rows.len() - 1 implies decode_part(
            (#[trigger] rows[j]).1,
        ) is Ok by {
            assert(init[j] == rows[j]);
        }
        rows.len() - 1
    }
}

/// Each part record is one holder, in the order of the rows and behind those found
/// before: under what the record names, with the block ids that it lists. The walk
/// ends so exactly where every row decodes, and is otherwise refused over the
/// first that does not.
pub proof fn lemma_part_rows_hold(
    before: Seq<HolderEntry>,
    rows: Seq<(Seq<u8>, Seq<u8>)>,
)
    ensures
        part_holders(before, rows) is Ok <==> forall|i: int|
            0 <= i < rows.len() ==> decode_part((#[trigger] rows[i]).1) is Ok,
        part_holders(before, rows) matches Ok(found) ==> {
            &&& found.len() == before.len() + rows.len()
            &&& found.subrange(0, before.len() as int) == before
            &&& forall|i: int|
                0 <= i < rows.len() ==> {
                    let e = #[trigger] found[before.len() + i];
                    &&& decode_part(rows[i].1) matches Ok(p)
                    &&& e.holder == HolderView::Part(p.bucket, p.key, p.upload_id, p.part_number)
                    &&& e.blocks == p.blocks
                }
        },
        part_holders(before, rows) matches Err(why) ==> exists|i: int|
            {
                &&& 0 <= i < rows.len()
                &&& why.tree == "_MULTIPART_PARTS"@
                &&& why.key == (#[trigger] rows[i]).0
                &&& decode_part(rows[i].1) == Err::<PartView, FsError>(why.damage)
                &&& forall|j: int| 0 <= j < i ==> decode_part((#[trigger] rows[j]).1) is Ok
            },
{
    lemma_part_rows_decode(before, rows);
    match part_holders(before, rows) {
        Ok(found) => {
            lemma_part_rows_found(before, rows);
            assert forall|i: int| 0 <= i < rows.len() implies ({
                let e = #[trigger] found[before.len() + i];
                    &&& decode_part(rows[i].1) matches Ok(p)
                    &&& e.holder == HolderView::Part(p.bucket, p.key, p.upload_id, p.part_number)
                    &&& e.blocks == p.blocks
            }) by {
                assert(part_row_held(found[before.len() + i], rows[i]));
            }
        },
        Err(why) => {
            let i = lemma_part_rows_refused(before, rows);
            assert(why.key == rows[i].0);
        },
    }
}

/// How often the rows of an object tree reference a block.
spec fn rows_refs(rows: Seq<(Seq<u8>, Seq<u8>)>, id: Seq<u8>) -> nat
    decreases rows.len(),
{
    if rows.len() == 0 {
        0
    } else {
        rows_refs(rows.drop_last(), id) + listed_ids(rows.last().1).to_multiset().count(id)
    }
}

/// How often part records reference a block.
spec fn parts_refs(rows: Seq<(Seq<u8>, Seq<u8>)>, id: Seq<u8>) -> nat
    decreases rows.len(),
{
    if rows.len() == 0 {
        0
    } else {
        parts_refs(rows.drop_last(), id) + part_ids(rows.last().1).to_multiset().count(id)
    }
}

/// How often the object trees of the given names reference a block.
spec fn trees_refs(rows: Rows, trees: Seq<Seq<char>>, id: Seq<u8>) -> nat
    decreases trees.len(),
{
    if trees.len() == 0 {
        0
    } else {
        trees_refs(rows, trees.drop_last(), id) + rows_refs(
            listing(tree_of(rows, trees.last())),
            id,
        )
    }
}

proof fn lemma_rows_refs(
    before: Seq<HolderEntry>,
    tree: Seq<char>,
    rows: Seq<(Seq<u8>, Seq<u8>)>,
    id: Seq<u8>,
)
    requires
        object_holders(before, tree, rows) is Ok,
    ensures
        references(object_holders(before, tree, rows)->Ok_0, id) == references(before, id)
            + rows_refs(rows, id),
    decreases rows.len(),
{
    if rows.len() > 0 {
        lemma_rows_refs(before, tree, rows.drop_last(), id);
        let found = object_holders(before, tree, rows.drop_last())->Ok_0;
        let all = object_holders(before, tree, rows)->Ok_0;
        assert(all.drop_last() =~= found);
        lemma_occurrences(all.last().blocks, id);
    }
}

proof fn lemma_parts_refs(before: Seq<HolderEntry>, rows: Seq<(Seq<u8>, Seq<u8>)>, id: Seq<u8>)
    requires
        part_holders(before, rows) is Ok,
    ensures
        references(part_holders(before, rows)->Ok_0, id) == references(before, id) + parts_refs(
            rows,
            id,
        ),
    decreases rows.len(),
{
    if rows.len() > 0 {
        lemma_parts_refs(before, rows.drop_last(), id);
        let found = part_holders(before, rows.drop_last())->Ok_0;
        let all = part_holders(before, rows)->Ok_0;
        assert(all.drop_last() =~= found);
        lemma_occurrences(all.last().blocks, id);
    }
}

proof fn lemma_trees_refs(rows: Rows, trees: Seq<Seq<char>>, id: Seq<u8>)
    requires
        tree_holders(rows, trees) is Ok,
    ensures
        references(tree_holders(rows, trees)->Ok_0, id) == trees_refs(rows, trees, id),
    decreases trees.len(),
{
    if trees.len() > 0 {
        lemma_trees_refs(rows, trees.drop_last(), id);
        lemma_rows_refs(
            tree_holders(rows, trees.drop_last())->Ok_0,
            trees.last(),
            listing(tree_of(rows, trees.last())),
            id,
        );
    }
}

/// Where a new key goes in an ascending list.
proof fn lemma_insert_place(list: Seq<(Seq<u8>, Seq<u8>)>, key: Seq<u8>) -> (p: int)
    requires
        forall|i: int, j: int|
            0 <= i < j < list.len() ==> bytes_lt((#[trigger] list[i]).0, (#[trigger] list[j]).0),
        forall|i: int| 0 <= i < list.len() ==> (#[trigger] list[i]).0 != key,
    ensures
        0 <= p <= list.len(),
        forall|i: int| 0 <= i < p ==> bytes_lt((#[trigger] list[i]).0, key),
        forall|i: int| p <= i < list.len() ==> bytes_lt(key, (#[trigger] list[i]).0),
    decreases list.len(),
{
    if list.len() == 0 {
        0
    } else {
        let init = list.drop_last();
        let last = list[list.len() - 1];
        lemma_bytes_lt_total(last.0, key);
        if bytes_lt(last.0, key) {
            assert forall|i: int| 0 <= i < list.len() implies bytes_lt(
                (#[trigger] list[i]).0,
                key,
            ) by {
                if i < list.len() - 1 {
                    assert(bytes_lt(list[i].0, list[list.len() - 1].0));
                    lemma_bytes_lt_transitive(list[i].0, last.0, key);
                }
            }
            list.len() as int
        } else {
            assert forall|i: int, j: int| 0 <= i < j < init.len() implies bytes_lt(
                (#[trigger] init[i]).0,
                (#[trigger] init[j]).0,
            ) by {
                assert(init[i] == list[i] && init[j] == list[j]);
            }
            assert forall|i: int| 0 <= i < init.len() implies (#[trigger] init[i]).0 != key by {
                assert(init[i] == list[i]);
            }
            let p = lemma_insert_place(init, key);
            assert forall|i: int| 0 <= i < p implies bytes_lt((#[trigger] list[i]).0, key) by {
                assert(init[i] == list[i]);
            }
            assert forall|i: int| p <= i < list.len() implies bytes_lt(
                key,
                (#[trigger] list[i]).0,
            ) by {
                if i < init.len() {
                    assert(init[i] == list[i]);
                }
            }
            p
        }
    }
}

/// A new entry takes its place in the listing of a tree, and the rest stays in
/// order.
pub proof fn lemma_listing_insert(entries: Entries, key: Seq<u8>, raw: Seq<u8>) -> (p: int)
    requires
        is_listed(entries),
        !entries.contains_key(key),
    ensures
        0 <= p <= listing(entries).len(),
        is_listed(entries.insert(key, raw)),
        listing(entries.insert(key, raw)) == listing(entries).insert(p, (key, raw)),
{
    let list = listing(entries);
    assert forall|i: int| 0 <= i < list.len() implies (#[trigger] list[i]).0 != key by {
        assert(entries.contains_key(list[i].0));
    }
    let p = lemma_insert_place(list, key);
    let more = list.insert(p, (key, raw));
    let now = entries.insert(key, raw);
    assert forall|i: int|
        0 <= i < more.len() implies #[trigger] more[i] == if i < p {
        list[i]
    } else if i == p {
        (key, raw)
    } else {
        list[i - 1]
    } by {}
    assert forall|i: int, j: int| 0 <= i < j < more.len() implies bytes_lt(
        (#[trigger] more[i]).0,
        (#[trigger] more[j]).0,
    ) by {
        if i != p && j != p {
            let x = if i < p { i } else { i - 1 };
            let y = if j < p { j } else { j - 1 };
            assert(bytes_lt(list[x].0, list[y].0));
        } else if i == p {
            assert(bytes_lt(key, list[j - 1].0));
        } else {
            assert(bytes_lt(list[i].0, key));
        }
    }
    assert forall|i: int| 0 <= i < more.len() implies now.contains_key((#[trigger] more[i]).0)
        && now[more[i].0] == more[i].1 by {
        if i != p {
            let x = if i < p { i } else { i - 1 };
            assert(entries.contains_key(list[x].0) && entries[list[x].0] == list[x].1);
        }
    }
    assert forall|k: Seq<u8>| #[trigger] now.contains_key(k) implies exists|i: int|
        0 <= i < more.len() && more[i].0 == k by {
        if k == key {
            assert(more[p].0 == k);
        } else {
            assert(entries.contains_key(k));
            let x = choose|x: int| 0 <= x < list.len() && list[x].0 == k;
            if x < p {
                assert(more[x].0 == k);
            } else {
                assert(more[x + 1].0 == k);
            }
        }
    }
    lemma_listing(more, now);
    p
}

proof fn lemma_rows_refs_insert(
    rows: Seq<(Seq<u8>, Seq<u8>)>,
    p: int,
    row: (Seq<u8>, Seq<u8>),
    id: Seq<u8>,
)
    requires
        0 <= p <= rows.len(),
    ensures
        rows_refs(rows.insert(p, row), id) == rows_refs(rows, id) + listed_ids(
            row.1,
        ).to_multiset().count(id),
        parts_refs(rows.insert(p, row), id) == parts_refs(rows, id) + part_ids(
            row.1,
        ).to_multiset().count(id),
    decreases rows.len(),
{
    let more = rows.insert(p, row);
    if p == rows.len() {
        assert(more.drop_last() =~= rows);
        assert(more.last() == row);
    } else {
        assert(more.drop_last() =~= rows.drop_last().insert(p, row));
        assert(more.last() == rows.last());
        lemma_rows_refs_insert(rows.drop_last(), p, row, id);
    }
}

/// Whether every row of a list decodes.
spec fn rows_decode(list: Seq<(Seq<u8>, Seq<u8>)>) -> bool {
    forall|i: int| 0 <= i < list.len() ==> decode_object((#[trigger] list[i]).1) is Ok
}

/// Whether every row of the named trees decodes.
spec fn trees_decode(rows: Rows, trees: Seq<Seq<char>>) -> bool {
    forall|t: int|
        0 <= t < trees.len() ==> rows_decode(listing(tree_of(rows, #[trigger] trees[t])))
}

proof fn lemma_trees_decode(rows: Rows, trees: Seq<Seq<char>>)
    ensures
        tree_holders(rows, trees) is Ok <==> trees_decode(rows, trees),
    decreases trees.len(),
{
    if trees.len() > 0 {
        let init = trees.drop_last();
        let last = trees.len() - 1;
        let list = listing(tree_of(rows, trees[last]));
        lemma_trees_decode(rows, init);
        if let Ok(found) = tree_holders(rows, init) {
            lemma_object_rows_decode(found, trees.last(), list);
            assert(object_holders(found, trees.last(), list) is Ok <==> rows_decode(list));
        }
        if trees_decode(rows, init) && rows_decode(list) {
            assert forall|t: int| 0 <= t < trees.len() implies rows_decode(
                listing(tree_of(rows, #[trigger] trees[t])),
            ) by {
                if t < last {
                    assert(init[t] == trees[t]);
                }
            }
        }
        if trees_decode(rows, trees) {
            assert forall|t: int| 0 <= t < init.len() implies rows_decode(
                listing(tree_of(rows, #[trigger] init[t])),
            ) by {
                assert(init[t] == trees[t]);
            }
            assert(rows_decode(listing(tree_of(rows, trees[last]))));
        }
    }
}

proof fn lemma_trees_refs_insert(
    rows: Rows,
    now: Rows,
    trees: Seq<Seq<char>>,
    tree: Seq<char>,
    key: Seq<u8>,
    raw: Seq<u8>,
    id: Seq<u8>,
)
    requires
        now == rows.insert((tree, key), raw),
        !rows.contains_key((tree, key)),
        is_listed(tree_of(rows, tree)),
        text_order(trees),
    ensures
        trees_refs(now, trees, id) == trees_refs(rows, trees, id) + if trees.contains(tree) {
            listed_ids(raw).to_multiset().count(id)
        } else {
            0
        },
    decreases trees.len(),
{
    if trees.len() > 0 {
        let init = trees.drop_last();
        let last = trees[trees.len() - 1];
        assert(text_order(init)) by {
            assert forall|i: int, j: int| 0 <= i < j < init.len() implies text_lt(
                #[trigger] init[i],
                #[trigger] init[j],
            ) by {
                assert(init[i] == trees[i] && init[j] == trees[j]);
            }
        }
        lemma_trees_refs_insert(rows, now, init, tree, key, raw, id);
        if last == tree {
            assert(!init.contains(tree)) by {
                if init.contains(tree) {
                    let i = choose|i: int| 0 <= i < init.len() && init[i] == tree;
                    assert(text_lt(trees[i], trees[trees.len() - 1]));
                    lemma_bytes_lt_irreflexive(vstd::utf8::encode_utf8(tree));
                }
            }
            assert(trees.contains(tree));
            assert(tree_of(now, tree) =~= tree_of(rows, tree).insert(key, raw));
            let p = lemma_listing_insert(tree_of(rows, tree), key, raw);
            lemma_rows_refs_insert(listing(tree_of(rows, tree)), p, (key, raw), id);
        } else {
            assert(tree_of(now, last) =~= tree_of(rows, last));
            if trees.contains(tree) {
                let i = choose|i: int| 0 <= i < trees.len() && trees[i] == tree;
                assert(init[i] == tree);
            }
            if init.contains(tree) {
                let i = choose|i: int| 0 <= i < init.len() && init[i] == tree;
                assert(trees[i] == tree);
            }
        }
    }
}

proof fn lemma_trees_decode_insert(
    rows: Rows,
    now: Rows,
    trees: Seq<Seq<char>>,
    tree: Seq<char>,
    key: Seq<u8>,
    raw: Seq<u8>,
)
    requires
        now == rows.insert((tree, key), raw),
        !rows.contains_key((tree, key)),
        is_listed(tree_of(rows, tree)),
        decode_object(raw) is Ok,
        trees_decode(rows, trees),
    ensures
        trees_decode(now, trees),
{
    assert forall|t: int| 0 <= t < trees.len() implies rows_decode(
        listing(tree_of(now, #[trigger] trees[t])),
    ) by {
        let list = listing(tree_of(rows, trees[t]));
        assert(rows_decode(list));
        if trees[t] == tree {
            assert(tree_of(now, tree) =~= tree_of(rows, tree).insert(key, raw));
            let p = lemma_listing_insert(tree_of(rows, tree), key, raw);
            let more = list.insert(p, (key, raw));
            assert forall|i: int| 0 <= i < more.len() implies decode_object(
                (#[trigger] more[i]).1,
            ) is Ok by {
                if i < p {
                    assert(more[i] == list[i]);
                } else if i > p {
                    assert(more[i] == list[i - 1]);
                }
            }
        } else {
            assert(tree_of(now, trees[t]) =~= tree_of(rows, trees[t]));
        }
    }
}

/// One more object record adds exactly its own references to the count of a whole
/// store, each occurrence of a block once, whether the object is stored in one
/// piece or in parts, whichever object tree it is in and whatever else there is. An
/// inlined object adds none.
pub proof fn lemma_object_adds_references<N: Store, B: Store>(
    ctx: ScrubContext<'_, N, B>,
    now: ScrubContext<'_, N, B>,
    tree: Seq<char>,
    key: Seq<u8>,
    object: ObjectView,
    raw: Seq<u8>,
    id: Seq<u8>,
)
    requires
        ctx.listed(),
        ctx.holders() is Ok,
        decode_object(raw) == Ok::<ObjectView, FsError>(object),
        ctx.namespace.store.names().contains(tree),
        !(tree.len() > 0 && tree[0] == '_'),
        !ctx.namespace.store.committed().contains_key((tree, key)),
        now.namespace.store.names() == ctx.namespace.store.names(),
        now.namespace.store.committed() == ctx.namespace.store.committed().insert(
            (tree, key),
            raw,
        ),
        now.shared.meta.store.committed() == ctx.shared.meta.store.committed(),
    ensures
        now.holders() matches Ok(more) && references(more, id) == references(
            ctx.holders()->Ok_0,
            id,
        ) + match object.data {
            DataView::Inline(_) => 0,
            DataView::SinglePart(ids) => ids.to_multiset().count(id),
            DataView::MultiPart(ids, _) => ids.to_multiset().count(id),
        },
{
    let names = ctx.namespace.store.names();
    let rows = ctx.namespace.store.committed();
    let after = now.namespace.store.committed();
    let trees = sorted(object_names(names));
    let parts = listing(tree_of(ctx.shared.meta.store.committed(), MULTIPART_PARTS_TREE@));
    assert(object_names(names).contains(tree));
    assert(trees.contains(tree));
    lemma_trees_decode(rows, trees);
    lemma_trees_decode_insert(rows, after, trees, tree, key, raw);
    lemma_trees_decode(after, trees);
    let a = tree_holders(rows, trees)->Ok_0;
    let b = tree_holders(after, trees)->Ok_0;
    lemma_part_rows_hold(a, parts);
    lemma_part_rows_hold(b, parts);
    lemma_trees_refs(rows, trees, id);
    lemma_trees_refs(after, trees, id);
    lemma_trees_refs_insert(rows, after, trees, tree, key, raw, id);
    lemma_parts_refs(a, parts, id);
    lemma_parts_refs(b, parts, id);
    Seq::<Seq<u8>>::empty().to_multiset_ensures();
}

/// One more part record adds exactly its own references to the count of a whole
/// store, each occurrence of a block once.
pub proof fn lemma_part_adds_references<N: Store, B: Store>(
    ctx: ScrubContext<'_, N, B>,
    now: ScrubContext<'_, N, B>,
    key: Seq<u8>,
    part: PartView,
    raw: Seq<u8>,
    id: Seq<u8>,
)
    requires
        ctx.listed(),
        ctx.holders() is Ok,
        decode_part(raw) == Ok::<PartView, FsError>(part),
        !ctx.shared.meta.store.committed().contains_key(("_MULTIPART_PARTS"@, key)),
        now.namespace.store.names() == ctx.namespace.store.names(),
        now.namespace.store.committed() == ctx.namespace.store.committed(),
        now.shared.meta.store.committed() == ctx.shared.meta.store.committed().insert(
            ("_MULTIPART_PARTS"@, key),
            raw,
        ),
    ensures
        now.holders() matches Ok(more) && references(more, id) == references(
            ctx.holders()->Ok_0,
            id,
        ) + part.blocks.to_multiset().count(id),
{
    let trees = sorted(object_names(ctx.namespace.store.names()));
    let found = tree_holders(ctx.namespace.store.committed(), trees)->Ok_0;
    let rows = ctx.shared.meta.store.committed();
    let after = now.shared.meta.store.committed();
    let entries = tree_of(rows, MULTIPART_PARTS_TREE@);
    let list = listing(entries);
    assert(tree_of(after, MULTIPART_PARTS_TREE@) =~= entries.insert(key, raw));
    let p = lemma_listing_insert(entries, key, raw);
    let more = list.insert(p, (key, raw));
    lemma_part_rows_hold(found, list);
    lemma_part_rows_hold(found, more);
    assert forall|i: int| 0 <= i < more.len() implies decode_part(
        (#[trigger] more[i]).1,
    ) is Ok by {
        if i < p {
            assert(more[i] == list[i]);
        } else if i > p {
            assert(more[i] == list[i - 1]);
        }
    }
    lemma_parts_refs(found, list, id);
    lemma_parts_refs(found, more, id);
    lemma_rows_refs_insert(list, p, (key, raw), id);
}

/// Rows that hold no reference change no count: where two stores agree on the
/// object trees and on the part records, their holders are the same. A store
/// without such rows has no holders.
pub proof fn lemma_holders_of_rows<N: Store, B: Store>(
    ctx: ScrubContext<'_, N, B>,
    now: ScrubContext<'_, N, B>,
)
    requires
        forall|name: Seq<char>|
            !(name.len() > 0 && name[0] == '_') ==> (#[trigger] now.namespace.store.names().contains(
                name,
            ) <==> ctx.namespace.store.names().contains(name)),
        forall|name: Seq<char>, key: Seq<u8>|
            !(name.len() > 0 && name[0] == '_') ==> (
            #[trigger] now.namespace.store.committed().contains_key((name, key))
                <==> ctx.namespace.store.committed().contains_key((name, key)))
                && now.namespace.store.committed()[(name, key)]
                == ctx.namespace.store.committed()[(name, key)],
        forall|key: Seq<u8>|
            (#[trigger] now.shared.meta.store.committed().contains_key(("_MULTIPART_PARTS"@, key))
                <==> ctx.shared.meta.store.committed().contains_key(("_MULTIPART_PARTS"@, key)))
                && now.shared.meta.store.committed()[("_MULTIPART_PARTS"@, key)]
                == ctx.shared.meta.store.committed()[("_MULTIPART_PARTS"@, key)],
        ctx.listed(),
    ensures
        now.holders() == ctx.holders(),
        (forall|name: Seq<char>, key: Seq<u8>|
            !(name.len() > 0 && name[0] == '_')
                ==> !#[trigger] ctx.namespace.store.committed().contains_key((name, key))) && (
        forall|key: Seq<u8>|
            !#[trigger] ctx.shared.meta.store.committed().contains_key(("_MULTIPART_PARTS"@, key)))
            ==> ctx.holders() == Ok::<Seq<HolderEntry>, Undecodable>(Seq::empty()),
{
    let (a, b) = (ctx.namespace.store.committed(), now.namespace.store.committed());
    let names = object_names(ctx.namespace.store.names());
    assert(object_names(now.namespace.store.names()) =~= names);
    let trees = sorted(names);
    assert forall|i: int| 0 <= i < trees.len() implies tree_of(b, #[trigger] trees[i]) == tree_of(
        a,
        trees[i],
    ) by {
        assert(trees.contains(trees[i]));
        assert(tree_of(b, trees[i]) =~= tree_of(a, trees[i]));
    }
    lemma_same_trees(a, b, trees);
    let (x, y) = (ctx.shared.meta.store.committed(), now.shared.meta.store.committed());
    assert(tree_of(x, MULTIPART_PARTS_TREE@) =~= tree_of(y, MULTIPART_PARTS_TREE@));
    if (forall|name: Seq<char>, key: Seq<u8>|
        !(name.len() > 0 && name[0] == '_') ==> !#[trigger] a.contains_key((name, key))) && (forall|
        key: Seq<u8>,
    |
        !#[trigger] x.contains_key(("_MULTIPART_PARTS"@, key))) {
        assert forall|i: int| 0 <= i < trees.len() implies listing(
            tree_of(a, #[trigger] trees[i]),
        ).len() == 0 by {
            assert(trees.contains(trees[i]));
            let list = listing(tree_of(a, trees[i]));
            assert(is_listed(tree_of(a, trees[i])));
            if list.len() > 0 {
                assert(tree_of(a, trees[i]).contains_key(list[0].0));
                assert(a.contains_key((trees[i], list[0].0)));
            }
        }
        lemma_no_rows(a, trees);
        let list = listing(tree_of(x, MULTIPART_PARTS_TREE@));
        if list.len() > 0 {
            assert(tree_of(x, MULTIPART_PARTS_TREE@).contains_key(list[0].0));
            assert(x.contains_key(("_MULTIPART_PARTS"@, list[0].0)));
        }
    }
}

proof fn lemma_same_trees(a: Rows, b: Rows, trees: Seq<Seq<char>>)
    requires
        forall|i: int|
            0 <= i < trees.len() ==> tree_of(b, #[trigger] trees[i]) == tree_of(a, trees[i]),
    ensures
        tree_holders(a, trees) == tree_holders(b, trees),
    decreases trees.len(),
{
    if trees.len() > 0 {
        let init = trees.drop_last();
        assert forall|i: int| 0 <= i < init.len() implies tree_of(b, #[trigger] init[i])
            == tree_of(a, init[i]) by {
            assert(init[i] == trees[i]);
        }
        lemma_same_trees(a, b, init);
        assert(tree_of(b, trees[trees.len() - 1]) == tree_of(a, trees[trees.len() - 1]));
    }
}

proof fn lemma_no_rows(rows: Rows, trees: Seq<Seq<char>>)
    requires
        forall|i: int|
            0 <= i < trees.len() ==> listing(tree_of(rows, #[trigger] trees[i])).len() == 0,
    ensures
        tree_holders(rows, trees) == Ok::<Seq<HolderEntry>, Undecodable>(Seq::empty()),
    decreases trees.len(),
{
    if trees.len() > 0 {
        let init = trees.drop_last();
        assert forall|i: int| 0 <= i < init.len() implies listing(
            tree_of(rows, #[trigger] init[i]),
        ).len() == 0 by {
            assert(init[i] == trees[i]);
        }
        lemma_no_rows(rows, init);
        assert(listing(tree_of(rows, trees[trees.len() - 1])).len() == 0);
    }
}

/// A count of the holders holds a block exactly where some record lists it, and
/// then the number of times that records list it, as far as a machine counts.
pub proof fn lemma_counts_exact(
    counts: Map<Seq<u8>, u64>,
    holders: Seq<HolderEntry>,
    id: Seq<u8>,
)
    requires
        counts_holders(counts, holders),
    ensures
        counts.contains_key(id) <==> exists|i: int|
            0 <= i < holders.len() && (#[trigger] holders[i]).blocks.contains(id),
        counts.contains_key(id) && references(holders, id) <= u64::MAX ==> counts[id]
            == references(holders, id),
        counts.contains_key(id) && references(holders, id) > u64::MAX ==> counts[id] == u64::MAX,
        references(holders, id) == holders.map_values(
            |e: HolderEntry| e.blocks,
        ).flatten().to_multiset().count(id),
{
    lemma_references_flat(holders, id);
    lemma_referenced(holders, id);
}

proof fn lemma_referenced(holders: Seq<HolderEntry>, id: Seq<u8>)
    ensures
        references(holders, id) > 0 <==> exists|i: int|
            0 <= i < holders.len() && (#[trigger] holders[i]).blocks.contains(id),
    decreases holders.len(),
{
    if holders.len() > 0 {
        let init = holders.drop_last();
        let last = holders[holders.len() - 1];
        lemma_referenced(init, id);
        lemma_occurrences(last.blocks, id);
        last.blocks.to_multiset_ensures();
        if references(init, id) > 0 {
            let i = choose|i: int|
                0 <= i < init.len() && (#[trigger] init[i]).blocks.contains(id);
            assert(holders[i] == init[i]);
        }
        if exists|i: int| 0 <= i < holders.len() && (#[trigger] holders[i]).blocks.contains(id) {
            let i = choose|i: int|
                0 <= i < holders.len() && (#[trigger] holders[i]).blocks.contains(id);
            if i < init.len() {
                assert(init[i] == holders[i]);
            }
        }
        if last.blocks.contains(id) {
            assert(holders[holders.len() - 1].blocks.contains(id));
        }
    }
}

proof fn lemma_references_flat(holders: Seq<HolderEntry>, id: Seq<u8>)
    ensures
        references(holders, id) == holders.map_values(
            |e: HolderEntry| e.blocks,
        ).flatten().to_multiset().count(id),
    decreases holders.len(),
{
    let lists = holders.map_values(|e: HolderEntry| e.blocks);
    if holders.len() == 0 {
        assert(lists.flatten() =~= Seq::<Seq<u8>>::empty());
        Seq::<Seq<u8>>::empty().to_multiset_ensures();
    } else {
        let init = holders.drop_last();
        let before = init.map_values(|e: HolderEntry| e.blocks);
        lemma_references_flat(init, id);
        assert(lists =~= before.push(holders.last().blocks));
        before.lemma_flatten_push(holders.last().blocks);
        vstd::seq_lib::lemma_multiset_commutative(before.flatten(), holders.last().blocks);
        lemma_occurrences(holders.last().blocks, id);
    }
}

impl HolderEnumerationError {
    /// Whether this names a record of a tree, by its key as text.
    pub open spec fn names(self, tree: Seq<char>, key: Seq<u8>) -> bool {
        self matches HolderEnumerationError::UndecodableRecord { tree: t, key: k, .. } && t@ == tree
            && k@ == lossy(key)
    }
}

/// A refusal on a store that answers is over a record that is there and does not
/// decode, an object record in a tree that is not one of the store's own or a part
/// record; and it names that record's tree, and its key as text.
pub proof fn lemma_refusal_has_cause<N: Store, B: Store>(
    ctx: ScrubContext<'_, N, B>,
    e: HolderEnumerationError,
)
    requires
        ctx.healthy(),
        ctx.listed(),
        ctx.refused(e),
    ensures
        exists|tree: Seq<char>, key: Seq<u8>|
            {
                let (a, b) = (
                    ctx.namespace.store.committed(),
                    ctx.shared.meta.store.committed(),
                );
                &&& #[trigger] e.names(tree, key)
                &&& {
                    ||| a.contains_key((tree, key)) && ctx.namespace.store.names().contains(tree)
                        && !(tree.len() > 0 && tree[0] == '_') && decode_object(
                        a[(tree, key)],
                    ) is Err
                    ||| tree == "_MULTIPART_PARTS"@ && b.contains_key((tree, key)) && decode_part(
                        b[(tree, key)],
                    ) is Err
                }
            },
{
    let names = ctx.namespace.store.names();
    let rows = ctx.namespace.store.committed();
    let trees = sorted(object_names(names));
    match tree_holders(rows, trees) {
        Err(_) => {
            let (t, i) = lemma_tree_refused(rows, trees);
            let list = listing(tree_of(rows, trees[t]));
            assert(trees.contains(trees[t]));
            assert(tree_of(rows, trees[t]).contains_key(list[i].0));
            assert(e.names(trees[t], list[i].0));
        },
        Ok(found) => {
            let list = listing(tree_of(ctx.shared.meta.store.committed(), MULTIPART_PARTS_TREE@));
            lemma_part_rows_hold(found, list);
            let i = lemma_part_rows_refused(found, list);
            assert(tree_of(
                ctx.shared.meta.store.committed(),
                MULTIPART_PARTS_TREE@,
            ).contains_key(list[i].0));
            assert(e.names("_MULTIPART_PARTS"@, list[i].0));
        },
    }
}

proof fn lemma_tree_refused(rows: Rows, trees: Seq<Seq<char>>) -> (at: (int, int))
    requires
        tree_holders(rows, trees) is Err,
    ensures
        0 <= at.0 < trees.len(),
        0 <= at.1 < listing(tree_of(rows, trees[at.0])).len(),
        tree_holders(rows, trees)->Err_0.tree == trees[at.0],
        tree_holders(rows, trees)->Err_0.key == listing(tree_of(rows, trees[at.0]))[at.1].0,
        decode_object(listing(tree_of(rows, trees[at.0]))[at.1].1) is Err,
    decreases trees.len(),
{
    let init = trees.drop_last();
    match tree_holders(rows, init) {
        Err(_) => {
            let at = lemma_tree_refused(rows, init);
            assert(trees[at.0] == init[at.0]);
            at
        },
        Ok(found) => {
            let list = listing(tree_of(rows, trees.last()));
            let i = lemma_object_rows_refused(found, trees.last(), list);
            (trees.len() - 1, i)
        },
    }
}

/// There is no partial count: one object record in an object tree that does not
/// decode, or one part record that does not, and there are no holders.
pub proof fn lemma_damage_refuses<N: Store, B: Store>(
    ctx: ScrubContext<'_, N, B>,
    tree: Seq<char>,
    key: Seq<u8>,
)
    requires
        ctx.listed(),
    ensures
        ({
            let a = ctx.namespace.store.committed();
            a.contains_key((tree, key)) && ctx.namespace.store.names().contains(tree) && !(
            tree.len() > 0 && tree[0] == '_') && decode_object(a[(tree, key)]) is Err
        }) ==> ctx.holders() is Err,
        ({
            let b = ctx.shared.meta.store.committed();
            b.contains_key(("_MULTIPART_PARTS"@, key)) && decode_part(
                b[("_MULTIPART_PARTS"@, key)],
            ) is Err
        }) ==> ctx.holders() is Err,
{
    let names = ctx.namespace.store.names();
    let a = ctx.namespace.store.committed();
    let b = ctx.shared.meta.store.committed();
    let trees = sorted(object_names(names));
    lemma_trees_decode(a, trees);
    if a.contains_key((tree, key)) && names.contains(tree) && !(tree.len() > 0 && tree[0] == '_')
        && decode_object(a[(tree, key)]) is Err {
        assert(object_names(names).contains(tree));
        assert(trees.contains(tree));
        let t = choose|t: int| 0 <= t < trees.len() && trees[t] == tree;
        let list = listing(tree_of(a, trees[t]));
        assert(tree_of(a, tree).contains_key(key));
        let i = choose|i: int| 0 <= i < list.len() && list[i].0 == key;
        assert(tree_of(a, tree)[list[i].0] == list[i].1);
        assert(decode_object(list[i].1) is Err);
        assert(!rows_decode(listing(tree_of(a, trees[t]))));
    }
    if b.contains_key(("_MULTIPART_PARTS"@, key)) && decode_part(
        b[("_MULTIPART_PARTS"@, key)],
    ) is Err {
        let entries = tree_of(b, MULTIPART_PARTS_TREE@);
        let list = listing(entries);
        assert(entries.contains_key(key));
        let i = choose|i: int| 0 <= i < list.len() && list[i].0 == key;
        assert(entries[list[i].0] == list[i].1);
        if let Ok(found) = tree_holders(a, trees) {
            lemma_part_rows_decode(found, list);
            assert(decode_part(list[i].1) is Err);
        }
    }
}

} // verus!
