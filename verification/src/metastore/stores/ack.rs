//! Which persist follows an acknowledged write.

use vstd::prelude::*;

use crate::metastore::meta_store::{MULTIPART_PARTS_TREE, UPLOADS_TREE};
use crate::text::equal_text;

verus! {

/// Which persist follows a bare acknowledged write on a tree.
#[derive(Clone, Copy, Debug, Eq, PartialEq, Structural)]
pub enum AckPersist {
    /// Loss after the acknowledgement would be silent or terminal: persist at
    /// the store's configured durability before returning.
    Contract,
    /// Loss after the acknowledgement is caught loudly by a mandatory later
    /// step of the same protocol, and the client recovers by retrying.
    Recoverable,
}

/// The contract table: the trees of multipart state are recoverable, and no
/// others.
pub open spec fn ack_class(name: Seq<char>) -> AckPersist {
    if name == MULTIPART_PARTS_TREE@ || name == UPLOADS_TREE@ {
        AckPersist::Recoverable
    } else {
        AckPersist::Contract
    }
}

/// The persist class of a tree.
pub fn ack_persist_for(name: &str) -> (class: AckPersist)
    ensures
        class == ack_class(name@),
{
    if equal_text(name, MULTIPART_PARTS_TREE) || equal_text(name, UPLOADS_TREE) {
        AckPersist::Recoverable
    } else {
        AckPersist::Contract
    }
}

} // verus!
