//! Read access to block records.

use vstd::prelude::*;
use vstd::string::*;

use crate::metastore::block::{clamp_width, decode_block, is_id_width, Block, BlockId};
use crate::metastore::errors::{FsError, MetaError};
use crate::metastore::traits::{
    is_listed, lemma_listing, listing, lists, pair, pairs, BaseMetaTree, Entries, KeyValuePairs,
    MetaTreeExt,
};

verus! {

/// The block records of a store.
pub struct BlockTree<'a, T: MetaTreeExt> {
    /// The tree of block records, where the store has one.
    pub tree: Option<&'a T>,
}

/// Whether a block record read under its key is reported as `out`.
pub open spec fn reads_block(
    entry: (Seq<u8>, Seq<u8>),
    out: Result<(BlockId, Block), MetaError>,
) -> bool {
    if !is_id_width(entry.0.len()) {
        &&& out matches Err(MetaError::OtherDBError(text))
        &&& text@ == "Malformed block key: "@ + FsError::InvalidIdWidth(
            clamp_width(entry.0.len()),
        ).text()
    } else {
        match decode_block(entry.1) {
            Ok(block) => out matches Ok((id, b)) && id@ == entry.0 && b == block,
            Err(damage) => out == Err::<(BlockId, Block), MetaError>(MetaError::Corruption(damage)),
        }
    }
}

impl<'a, T: MetaTreeExt> BlockTree<'a, T> {
    /// The raw records.
    pub open spec fn entries(self) -> Entries {
        match self.tree {
            Some(tree) => tree.entries(),
            None => Entries::empty(),
        }
    }

    /// Whether every call on the tree succeeds.
    pub open spec fn healthy(self) -> bool {
        self.tree matches Some(tree) ==> tree.healthy()
    }

    /// Retrieves the record of a block.
    pub fn get_block(&self, key: &[u8]) -> (out: Result<Option<Block>, MetaError>)
        ensures
            match out {
                Ok(None) => !self.entries().contains_key(key@),
                Ok(Some(b)) => self.entries().contains_key(key@) && decode_block(
                    self.entries()[key@],
                ) == Ok::<Block, FsError>(b),
                Err(e) => self.healthy() ==> self.entries().contains_key(key@) && (decode_block(
                    self.entries()[key@],
                ) matches Err(damage) && e == MetaError::Corruption(damage)),
            },
    {
        match self.tree {
            None => Ok(None),
            Some(tree) => match tree.get(key) {
                Err(e) => Err(e),
                Ok(None) => Ok(None),
                Ok(Some(raw)) => match Block::try_from(&raw) {
                    Ok(block) => Ok(Some(block)),
                    Err(e) => Err(MetaError::Corruption(e)),
                },
            },
        }
    }

    /// Returns the number of block records.
    pub fn len(&self) -> (out: Result<usize, MetaError>)
        ensures
            out matches Ok(n) ==> self.entries().dom().finite() && n == self.entries().dom().len(),
            self.healthy() ==> out is Ok,
    {
        match self.tree {
            None => Ok(0),
            Some(tree) => tree.len(),
        }
    }

    /// Whether there are no block records.
    pub fn is_empty(&self) -> (out: Result<bool, MetaError>)
        ensures
            out matches Ok(empty) ==> self.entries().dom().finite() && empty == (
            self.entries().dom().len() == 0),
            self.healthy() ==> out is Ok,
    {
        match self.len() {
            Ok(n) => Ok(n == 0),
            Err(e) => Err(e),
        }
    }

    /// The raw, undecoded records in ascending key order.
    pub fn iter_raw(&self) -> (out: Result<KeyValuePairs, MetaError>)
        ensures
            out matches Ok(list) ==> lists(pairs(list@), self.entries()),
            self.healthy() ==> out is Ok,
    {
        match self.tree {
            None => {
                let none: KeyValuePairs = Vec::new();
                Ok(none)
            },
            Some(tree) => tree.iter_all(),
        }
    }

    /// All block records in ascending key order, each decoded or with the
    /// reason why it is not.
    pub fn iter_all(&self) -> (out: Result<Vec<Result<(BlockId, Block), MetaError>>, MetaError>)
        ensures
            out matches Ok(list) ==> {
                let all = listing(self.entries());
                &&& is_listed(self.entries())
                &&& list@.len() == all.len()
                &&& forall|i: int| 0 <= i < all.len() ==> reads_block(#[trigger] all[i], list@[i])
            },
            self.healthy() ==> out is Ok,
    {
        let raw = match self.iter_raw() {
            Ok(raw) => raw,
            Err(e) => {
                return Err(e);
            },
        };
        let ghost all = pairs(raw@);
        let mut out: Vec<Result<(BlockId, Block), MetaError>> = Vec::new();
        let mut i: usize = 0;
        while i < raw.len()
            invariant
                i <= raw@.len(),
                all == pairs(raw@),
                out@.len() == i,
                forall|j: int| 0 <= j < i ==> reads_block(#[trigger] all[j], out@[j]),
            decreases raw@.len() - i,
        {
            let ghost before = out@;
            let item = read_block(&raw[i].0, &raw[i].1);
            out.push(item);
            proof {
                assert(all[i as int] == pair(raw@[i as int]));
                assert forall|j: int| 0 <= j < i + 1 implies reads_block(
                    #[trigger] all[j],
                    out@[j],
                ) by {
                    if j < i {
                        assert(out@[j] == before[j]);
                    }
                }
            }
            i = i + 1;
        }
        proof {
            lemma_listing(all, self.entries());
        }
        Ok(out)
    }
}

/// Decodes a block record read under its key. The key is the block address, at
/// whatever width the store wrote it.
fn read_block(key: &[u8], value: &[u8]) -> (out: Result<(BlockId, Block), MetaError>)
    ensures
        reads_block((key@, value@), out),
{
    match BlockId::from_slice(key) {
        Err(e) => {
            let mut text = "Malformed block key: ".to_owned();
            text.append(&e.to_string());
            Err(MetaError::OtherDBError(text))
        },
        Ok(id) => match Block::try_from(value) {
            Ok(block) => Ok((id, block)),
            Err(e) => Err(MetaError::Corruption(e)),
        },
    }
}

} // verus!
