//! The record walk: every block record, decoded.
//!
//! A block record that will not decode hides only itself: the block it names is
//! already unusable, and every holder of it is still counted by the holder
//! walk. So it is a CRITICAL finding, and the walk goes on.

use vstd::prelude::*;
use vstd::string::*;

use super::findings::{add_finding, finding_views, Finding, FindingClass, FindingView};
use super::id_map::IdMap;
use super::ScrubContext;
use crate::metastore::block::{clamp_width, decode_block, is_id_width, Block, BlockId};
use crate::metastore::errors::{FsError, MetaError};
use crate::metastore::meta_store::DEFAULT_BLOCK_TREE;
use crate::metastore::traits::{
    is_listed, lemma_listing, listing, lists, pairs, tree_of, Entries, Store, TransactionBackend,
};
use crate::text::{hex, hex_text};

verus! {

/// What the record walk found: the records it could decode, and a finding for
/// each one it could not.
#[derive(Debug)]
pub struct RecordWalk {
    /// Every decodable record, by block id.
    pub records: IdMap<Block>,
    /// One CRITICAL finding per undecodable record.
    pub findings: Vec<Finding>,
}

/// The records of a tree that are block records filed under an address.
pub open spec fn good_records(entries: Entries) -> Map<Seq<u8>, Block> {
    Map::new(
        |key: Seq<u8>|
            entries.contains_key(key) && is_id_width(key.len()) && decode_block(
                entries[key],
            ) is Ok,
        |key: Seq<u8>| decode_block(entries[key])->Ok_0,
    )
}

/// What is wrong with one entry of the block tree, if anything is.
pub open spec fn bad_record(entry: (Seq<u8>, Seq<u8>)) -> Option<FindingView> {
    if !is_id_width(entry.0.len()) {
        Some(
            FindingView::new(
                FindingClass::UndecodableBlockRecord,
                "block key "@ + hex(entry.0) + " is not an address of this store: "@
                    + FsError::InvalidIdWidth(clamp_width(entry.0.len())).text(),
            ),
        )
    } else {
        match decode_block(entry.1) {
            Ok(_) => None,
            Err(e) => Some(
                FindingView::new(
                    FindingClass::UndecodableBlockRecord,
                    "block record does not decode: "@ + e.text(),
                ).with_block(entry.0),
            ),
        }
    }
}

/// What is wrong with the entries of the block tree, in key order.
pub open spec fn bad_records(list: Seq<(Seq<u8>, Seq<u8>)>) -> Seq<FindingView>
    decreases list.len(),
{
    if list.len() == 0 {
        Seq::empty()
    } else {
        let init = bad_records(list.drop_last());
        match bad_record(list.last()) {
            Some(finding) => init.push(finding),
            None => init,
        }
    }
}

/// Walks the block records end to end.
///
/// A backend that cannot be read is not a finding: there is no trustworthy
/// record set to report on.
pub fn walk_records<N: Store, B: Store>(ctx: &ScrubContext<'_, N, B>) -> (out: Result<
    RecordWalk,
    MetaError,
>)
    ensures
        out matches Ok(walk) ==> {
            let entries = tree_of(ctx.shared.meta.store.committed(), DEFAULT_BLOCK_TREE@);
            &&& is_listed(entries)
            &&& walk.records@ == good_records(entries)
            &&& finding_views(walk.findings@) == bad_records(listing(entries))
        },
        ctx.shared.meta.store.healthy() ==> out is Ok,
{
    let tree = match ctx.shared().meta_store().find_block_tree() {
        Ok(tree) => tree,
        Err(e) => {
            return Err(e);
        },
    };
    let rows = match tree.iter_raw() {
        Ok(rows) => rows,
        Err(e) => {
            return Err(e);
        },
    };
    let ghost entries = tree_of(ctx.shared.meta.store.committed(), DEFAULT_BLOCK_TREE@);
    let ghost all = pairs(rows@);
    let mut walk = RecordWalk { records: IdMap::new(), findings: Vec::new() };
    let mut i: usize = 0;
    proof {
        lemma_listing(all, entries);
        assert(all.subrange(0, 0) =~= Seq::<(Seq<u8>, Seq<u8>)>::empty());
        assert(finding_views(walk.findings@) =~= Seq::<FindingView>::empty());
    }
    while i < rows.len()
        invariant
            i <= rows@.len(),
            all == pairs(rows@),
            lists(all, entries),
            finding_views(walk.findings@) == bad_records(all.subrange(0, i as int)),
            forall|key: Seq<u8>| #[trigger]
                walk.records@.contains_key(key) ==> good_records(entries).contains_key(key)
                    && walk.records@[key] == good_records(entries)[key],
            forall|j: int|
                0 <= j < i && good_records(entries).contains_key((#[trigger] all[j]).0)
                    ==> walk.records@.contains_key(all[j].0),
        decreases rows@.len() - i,
    {
        proof {
            let longer = all.subrange(0, i + 1);
            assert(longer.drop_last() =~= all.subrange(0, i as int));
            assert(longer.last() == all[i as int]);
            assert(all[i as int].0 == rows@[i as int].0@);
            assert(all[i as int].1 == rows@[i as int].1@);
            assert(entries[all[i as int].0] == all[i as int].1);
        }
        match BlockId::from_slice(&rows[i].0) {
            Err(e) => {
                let mut text = "block key ".to_owned();
                text.append(&hex_text(&rows[i].0));
                text.append(" is not an address of this store: ");
                text.append(&e.to_string());
                add_finding(
                    &mut walk.findings,
                    Finding::new(FindingClass::UndecodableBlockRecord, text),
                );
            },
            Ok(id) => match Block::try_from(&rows[i].1) {
                Ok(block) => {
                    walk.records.insert(id, block);
                },
                Err(e) => {
                    let mut text = "block record does not decode: ".to_owned();
                    text.append(&e.to_string());
                    add_finding(
                        &mut walk.findings,
                        Finding::new(FindingClass::UndecodableBlockRecord, text).with_block(&id),
                    );
                },
            },
        }
        i = i + 1;
    }
    proof {
        assert(all.subrange(0, all.len() as int) =~= all);
        assert forall|key: Seq<u8>| good_records(entries).contains_key(key) implies #[trigger]
            walk.records@.contains_key(key) by {
            assert(entries.contains_key(key));
            let j = choose|j: int| 0 <= j < all.len() && all[j].0 == key;
            assert(all[j].0 == key);
        }
        assert(walk.records@ =~= good_records(entries));
    }
    Ok(walk)
}

} // verus!
