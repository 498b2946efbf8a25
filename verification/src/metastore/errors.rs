//! What can go wrong when records are decoded or a store is opened.

use vstd::prelude::*;
use vstd::std_specs::convert::FromSpecImpl;
use vstd::string::*;

use super::store_header::{StoreHeaderError, StoreId};
use crate::text::{dec, hex, put_dec, put_len_dec};

verus! {

/// Errors produced when decoding on-disk records.
///
/// Every variant carries enough detail to tell an operator what was malformed,
/// so a corrupted or foreign-format store surfaces as a described error.
#[derive(Debug, Clone, Copy, PartialEq, Eq)]
pub enum FsError {
    /// The record is shorter than the format requires.
    Truncated { record: &'static str, needed: usize, got: usize },
    /// The record contains bytes past its self-described end.
    TrailingBytes { record: &'static str, extra: usize },
    /// A string field did not contain valid UTF-8.
    InvalidUtf8 { record: &'static str, field: &'static str },
    /// The object type discriminant is not a known variant.
    UnknownObjectType(u8),
    /// A block-id width byte is not one of the supported widths.
    InvalidIdWidth(u8),
    /// A length or count field does not fit the platform's usize.
    LengthOverflow { record: &'static str, field: &'static str },
}

impl FsError {
    /// The message an operator reads.
    pub open spec fn text(self) -> Seq<char> {
        match self {
            FsError::Truncated { record, needed, got } => "Cas FS error: truncated "@ + record@
                + " record: need at least "@ + dec(needed as nat) + " bytes, got "@ + dec(
                got as nat,
            ),
            FsError::TrailingBytes { record, extra } => "Cas FS error: "@ + record@
                + " record has "@ + dec(extra as nat) + " trailing bytes"@,
            FsError::InvalidUtf8 { record, field } => "Cas FS error: "@ + record@
                + " record field "@ + field@ + " is not valid UTF-8"@,
            FsError::UnknownObjectType(t) => "Cas FS error: unknown object type "@ + dec(t as nat),
            FsError::InvalidIdWidth(w) => "Cas FS error: invalid block id width "@ + dec(w as nat),
            FsError::LengthOverflow { record, field } => "Cas FS error: "@ + record@
                + " record field "@ + field@ + " does not fit in usize"@,
        }
    }

    /// Renders the message.
    pub fn to_string(&self) -> (out: String)
        ensures
            out@ == self.text(),
    {
        match self {
            FsError::Truncated { record, needed, got } => {
                let mut out = "Cas FS error: truncated ".to_owned();
                out.append(record);
                out.append(" record: need at least ");
                put_len_dec(&mut out, *needed);
                out.append(" bytes, got ");
                put_len_dec(&mut out, *got);
                out
            },
            FsError::TrailingBytes { record, extra } => {
                let mut out = "Cas FS error: ".to_owned();
                out.append(record);
                out.append(" record has ");
                put_len_dec(&mut out, *extra);
                out.append(" trailing bytes");
                out
            },
            FsError::InvalidUtf8 { record, field } => {
                let mut out = "Cas FS error: ".to_owned();
                out.append(record);
                out.append(" record field ");
                out.append(field);
                out.append(" is not valid UTF-8");
                out
            },
            FsError::UnknownObjectType(t) => {
                let mut out = "Cas FS error: unknown object type ".to_owned();
                put_dec(&mut out, *t as u64);
                out
            },
            FsError::InvalidIdWidth(w) => {
                let mut out = "Cas FS error: invalid block id width ".to_owned();
                put_dec(&mut out, *w as u64);
                out
            },
            FsError::LengthOverflow { record, field } => {
                let mut out = "Cas FS error: ".to_owned();
                out.append(record);
                out.append(" record field ");
                out.append(field);
                out.append(" does not fit in usize");
                out
            },
        }
    }
}

/// The two halves of a store naming different stores.
///
/// Carries both paths and both ids: the operator's next move is to fix one of
/// the two paths, and nothing here can tell which one is wrong.
#[derive(Debug, PartialEq, Eq)]
pub struct StorePairingMismatch {
    /// The blocks database, under the meta root.
    pub db_path: String,
    /// The store its header says it is.
    pub header_id: StoreId,
    /// The blocks root, under the fs root.
    pub blocks_root: String,
    /// The store its marker says it belongs to.
    pub marker_id: StoreId,
}

impl StorePairingMismatch {
    /// The message an operator reads.
    pub open spec fn text(self) -> Seq<char> {
        "store pairing mismatch: the blocks database at "@ + self.db_path@ + " belongs to store "@
            + hex(self.header_id@) + ", but the blocks root at "@ + self.blocks_root@
            + " is marked as store "@ + hex(self.marker_id@)
            + " -- refusing to open a mispaired store. Check --meta-root and --fs-root; if this pairing really is the right one, make it official with qss-storage-fsck --re-pair --meta-root <meta> --fs-root <fs>"@
    }

    /// Renders the message.
    pub fn to_string(&self) -> (out: String)
        ensures
            out@ == self.text(),
    {
        let mut out = "store pairing mismatch: the blocks database at ".to_owned();
        out.append(&self.db_path);
        out.append(" belongs to store ");
        out.append(&self.header_id.to_hex());
        out.append(", but the blocks root at ");
        out.append(&self.blocks_root);
        out.append(" is marked as store ");
        out.append(&self.marker_id.to_hex());
        out.append(
            " -- refusing to open a mispaired store. Check --meta-root and --fs-root; if this pairing really is the right one, make it official with qss-storage-fsck --re-pair --meta-root <meta> --fs-root <fs>",
        );
        out
    }
}

/// Errors of the metadata layer.
#[derive(Debug)]
pub enum MetaError {
    KeyNotFound,
    KeyAlreadyExists,
    CollectionNotFound,
    BucketNotFound,
    InsertError(String),
    RemoveError(String),
    NotMetaTree(String),
    TransactionError(String),
    PersistError(String),
    BlockNotFound,
    OtherDBError(String),
    /// A stored record failed to decode; carries the decode error.
    Corruption(FsError),
    /// The store at `path` may not be opened; carries the reason.
    Header { path: String, source: StoreHeaderError },
    /// The blocks database and the blocks root belong to different stores.
    StorePairing(Box<StorePairingMismatch>),
    /// A bucket name that the store reserves for itself was requested.
    ReservedBucketName(String),
    /// Another process already holds the store's lock.
    StoreLocked(String),
}

impl MetaError {
    /// Builds the refusal for a store whose header will not let it be opened.
    pub(crate) fn header(path: &str, source: StoreHeaderError) -> (out: Self)
        ensures
            out matches MetaError::Header { path: p, source: s } && p@ == path@ && s == source,
    {
        MetaError::Header { path: path.to_owned(), source }
    }

    /// The message an operator reads.
    pub open spec fn text(self) -> Seq<char> {
        match self {
            MetaError::KeyNotFound => "Key not found"@,
            MetaError::KeyAlreadyExists => "Key already exists"@,
            MetaError::CollectionNotFound => "Collection not found"@,
            MetaError::BucketNotFound => "Bucket not found"@,
            MetaError::InsertError(s) => "Insert error: "@ + s@,
            MetaError::RemoveError(s) => "Remove error: "@ + s@,
            MetaError::NotMetaTree(s) => "Not a meta tree: "@ + s@,
            MetaError::TransactionError(s) => "Transaction error: "@ + s@,
            MetaError::PersistError(s) => "Persist error: "@ + s@,
            MetaError::BlockNotFound => "Block not found"@,
            MetaError::OtherDBError(s) => "Other DB error: "@ + s@,
            MetaError::Corruption(e) => "Corrupt record: "@ + e.text(),
            MetaError::Header { path, source } => "cannot open metadata store at "@ + path@ + ": "@
                + source.text(),
            MetaError::StorePairing(mismatch) => mismatch.text(),
            MetaError::ReservedBucketName(name) => "bucket name \""@ + name@
                + "\" is reserved: names starting with '_' belong to the store's internal trees"@,
            MetaError::StoreLocked(path) => "store at "@ + path@
                + " is locked by another process (is the daemon running?)"@,
        }
    }

    /// Renders the message.
    pub fn to_string(&self) -> (out: String)
        ensures
            out@ == self.text(),
    {
        match self {
            MetaError::KeyNotFound => "Key not found".to_owned(),
            MetaError::KeyAlreadyExists => "Key already exists".to_owned(),
            MetaError::CollectionNotFound => "Collection not found".to_owned(),
            MetaError::BucketNotFound => "Bucket not found".to_owned(),
            MetaError::InsertError(s) => labelled("Insert error: ", s),
            MetaError::RemoveError(s) => labelled("Remove error: ", s),
            MetaError::NotMetaTree(s) => labelled("Not a meta tree: ", s),
            MetaError::TransactionError(s) => labelled("Transaction error: ", s),
            MetaError::PersistError(s) => labelled("Persist error: ", s),
            MetaError::BlockNotFound => "Block not found".to_owned(),
            MetaError::OtherDBError(s) => labelled("Other DB error: ", s),
            MetaError::Corruption(e) => labelled("Corrupt record: ", &e.to_string()),
            MetaError::Header { path, source } => {
                let mut out = labelled("cannot open metadata store at ", path);
                out.append(": ");
                out.append(&source.to_string());
                out
            },
            MetaError::StorePairing(mismatch) => mismatch.to_string(),
            MetaError::ReservedBucketName(name) => {
                let mut out = labelled("bucket name \"", name);
                out.append(
                    "\" is reserved: names starting with '_' belong to the store's internal trees",
                );
                out
            },
            MetaError::StoreLocked(path) => {
                let mut out = labelled("store at ", path);
                out.append(" is locked by another process (is the daemon running?)");
                out
            },
        }
    }
}

/// A label and the text that it introduces.
fn labelled(label: &str, text: &str) -> (out: String)
    ensures
        out@ == label@ + text@,
{
    let mut out = label.to_owned();
    out.append(text);
    out
}

impl From<FsError> for MetaError {
    fn from(e: FsError) -> (out: Self) {
        MetaError::Corruption(e)
    }
}

impl FromSpecImpl<FsError> for MetaError {
    open spec fn obeys_from_spec() -> bool {
        true
    }

    open spec fn from_spec(e: FsError) -> Self {
        MetaError::Corruption(e)
    }
}

} // verus!
