//! Reading and writing the header record of a store.

use vstd::array::array_as_slice;
use vstd::prelude::*;
use vstd::slice::slice_to_vec;

use super::{
    decodes_header, encode_header, header_key, is_supported, lemma_header_bytes_canonical,
    lemma_header_round_trip, store_header_key, supports_version, StoreHeader, StoreHeaderError, StoreId, STORE_HEADER_TREE,
};
use crate::metastore::errors::MetaError;
use crate::metastore::traits::{
    lookup, tree_of, with_tree, BaseMetaTree, Rows, Store, TransactionBackend,
};

verus! {

/// Whether a database directory is to be created or opened.
///
/// This has to be known before the database touches the path, because opening
/// it creates the directory.
#[derive(Debug, Clone, Copy, PartialEq, Eq, Structural)]
pub enum StoreInit {
    /// Nothing is there yet: write a fresh header.
    Create,
    /// Something is there: read its header and validate it.
    Open,
}

/// What a directory listing says about a store: `None` stands for a path that
/// does not exist, otherwise whether the directory holds anything.
pub fn classify_entries(has_entries: Option<bool>) -> (init: StoreInit)
    ensures
        init == (if has_entries == Some(true) {
            StoreInit::Open
        } else {
            StoreInit::Create
        }),
{
    match has_entries {
        Some(true) => StoreInit::Open,
        _ => StoreInit::Create,
    }
}

/// The bytes of a store's header record, where it has one.
pub open spec fn header_at(rows: Rows) -> Option<Seq<u8>> {
    lookup(rows, STORE_HEADER_TREE@, header_key())
}

/// A store's rows with a header written.
pub open spec fn with_header(rows: Rows, header: StoreHeader) -> Rows {
    rows.insert((STORE_HEADER_TREE@, header_key()), encode_header(header))
}

/// Whether an error is the refusal of a header, for a store named by its path.
pub open spec fn refuses(e: MetaError, path: Seq<char>, source: StoreHeaderError) -> bool {
    e matches MetaError::Header { path: p, source: s } && p@ == path && s == source
}

/// Whether an error is the refusal of the header record of a store.
pub open spec fn refuses_bytes(e: MetaError, path: Seq<char>, raw: Seq<u8>) -> bool {
    &&& e matches MetaError::Header { path: p, source }
    &&& p@ == path
    &&& decodes_header(raw, Err::<StoreHeader, StoreHeaderError>(source))
}

/// Whether `out` is what is read of a store's header record.
pub open spec fn reads_header(
    rows: Rows,
    healthy: bool,
    db_path: Seq<char>,
    out: Result<Option<StoreHeader>, MetaError>,
) -> bool {
    match out {
        Ok(None) => header_at(rows) is None,
        Ok(Some(header)) => header_at(rows) is Some && decodes_header(
            header_at(rows).unwrap(),
            Ok::<StoreHeader, StoreHeaderError>(header),
        ),
        Err(e) => healthy ==> header_at(rows) is Some && refuses_bytes(
            e,
            db_path,
            header_at(rows).unwrap(),
        ),
    }
}

/// Decodes the header record that was read of a store, if it has one.
fn parse_header(raw: Option<Vec<u8>>, db_path: &str) -> (out: Result<
    Option<StoreHeader>,
    MetaError,
>)
    ensures
        match out {
            Ok(None) => raw is None,
            Ok(Some(header)) => raw matches Some(raw) && decodes_header(
                raw@,
                Ok::<StoreHeader, StoreHeaderError>(header),
            ),
            Err(e) => raw matches Some(raw) && refuses_bytes(e, db_path@, raw@),
        },
{
    match raw {
        None => Ok(None),
        Some(raw) => match StoreHeader::from_bytes(&raw) {
            Ok(header) => Ok(Some(header)),
            Err(e) => Err(MetaError::header(db_path, e)),
        },
    }
}

/// Reads the header record, if the store has one. The tree that holds it is
/// created where the store doesn't have it.
///
/// `db_path` is only used to name the store in an error message.
pub fn read_header<S: Store>(store: &mut S, db_path: &str) -> (out: Result<
    Option<StoreHeader>,
    MetaError,
>)
    ensures
        reads_header(old(store).committed(), old(store).healthy(), db_path@, out),
        final(store).committed() == old(store).committed(),
        out is Ok || old(store).healthy() ==> final(store).names() == old(store).names().insert(
            STORE_HEADER_TREE@,
        ),
        final(store).names() == old(store).names() || final(store).names() == old(
            store,
        ).names().insert(STORE_HEADER_TREE@),
        old(store).healthy() ==> final(store).healthy(),
{
    proof {
        let entries = tree_of(store.committed(), STORE_HEADER_TREE@);
        assert(entries.contains_key(header_key()) <==> header_at(store.committed()) is Some);
    }
    match store.tree_ext_open(STORE_HEADER_TREE) {
        Err(e) => Err(e),
        Ok(tree) => match tree.get(&store_header_key()) {
            Err(e) => Err(e),
            Ok(raw) => parse_header(raw, db_path),
        },
    }
}

/// Reads the header record, if the store has one, and changes nothing.
///
/// `db_path` is only used to name the store in an error message.
pub fn find_header<S: Store>(store: &S, db_path: &str) -> (out: Result<
    Option<StoreHeader>,
    MetaError,
>)
    ensures
        reads_header(store.committed(), store.healthy(), db_path@, out),
{
    proof {
        let entries = tree_of(store.committed(), STORE_HEADER_TREE@);
        assert(entries.contains_key(header_key()) <==> header_at(store.committed()) is Some);
    }
    match store.tree_find(STORE_HEADER_TREE) {
        Err(e) => Err(e),
        Ok(None) => Ok(None),
        Ok(Some(tree)) => match tree.get(&store_header_key()) {
            Err(e) => Err(e),
            Ok(raw) => parse_header(raw, db_path),
        },
    }
}

/// Writes the header record of a store. A failed call may or may not have
/// written it.
pub fn write_header<S: Store>(store: &mut S, header: &StoreHeader) -> (out: Result<(), MetaError>)
    ensures
        out is Ok ==> final(store).committed() == with_header(old(store).committed(), *header)
            && final(store).names() == old(store).names().insert(STORE_HEADER_TREE@),
        out is Err ==> final(store).committed() == old(store).committed()
            || final(store).committed() == with_header(old(store).committed(), *header),
        old(store).names().subset_of(final(store).names()),
        old(store).healthy() ==> out is Ok && final(store).healthy(),
{
    let bytes = header.to_bytes();
    let raw = slice_to_vec(array_as_slice(&bytes));
    let ghost rows = store.committed();
    proof {
        let entries = tree_of(rows, STORE_HEADER_TREE@);
        assert(with_tree(
            rows,
            STORE_HEADER_TREE@,
            entries.insert(header_key(), encode_header(*header)),
        ) =~= with_header(rows, *header));
        assert(with_tree(rows, STORE_HEADER_TREE@, entries) =~= rows);
    }
    match store.tree_open(STORE_HEADER_TREE) {
        Err(e) => Err(e),
        Ok(tree) => tree.insert(&store_header_key(), raw),
    }
}

/// Whether a header is another one with an identity recorded.
pub open spec fn identifies(adopted: StoreHeader, header: StoreHeader, id: Seq<u8>) -> bool {
    &&& adopted == (StoreHeader { store_id: adopted.store_id, ..header })
    &&& adopted.store_id@ == id
}

/// Records an identity in an existing store's header, and returns the header
/// as it now reads. The copy for manual recovery is to be rewritten after it.
pub fn adopt_store_id<S: Store>(store: &mut S, header: StoreHeader, id: StoreId) -> (out: Result<
    StoreHeader,
    MetaError,
>)
    ensures
        out matches Ok(adopted) ==> {
            &&& identifies(adopted, header, id@)
            &&& final(store).committed() == with_header(old(store).committed(), adopted)
        },
        out is Err ==> final(store).committed() == old(store).committed() || exists|
            adopted: StoreHeader,
        | #[trigger]
            identifies(adopted, header, id@) && final(store).committed() == with_header(
                old(store).committed(),
                adopted,
            ),
        old(store).names().subset_of(final(store).names()),
        old(store).healthy() ==> out is Ok && final(store).healthy(),
{
    let adopted = header.with_store_id(id);
    proof {
        assert(identifies(adopted, header, id@));
    }
    match write_header(store, &adopted) {
        Ok(()) => Ok(adopted),
        Err(e) => Err(e),
    }
}

/// Whether rows are others with the version in their header raised.
pub open spec fn raised(rows: Rows, after: Rows, version: u16) -> bool {
    &&& header_at(rows) is Some
    &&& exists|before: StoreHeader|
        {
            &&& #[trigger] decodes_header(
                header_at(rows).unwrap(),
                Ok::<StoreHeader, StoreHeaderError>(before),
            )
            &&& before.version < version
            &&& after == with_header(rows, StoreHeader { version, ..before })
        }
}

/// Raises an existing store's format version, and returns the header as it now
/// reads and whether it was written; where it was, the copy for manual recovery
/// is to be rewritten after it.
///
/// The version goes in one direction only: a store already at or above
/// `version` is left alone.
pub fn raise_version<S: Store>(store: &mut S, db_path: &str, version: u16) -> (out: Result<
    (StoreHeader, bool),
    MetaError,
>)
    ensures
        match out {
            Ok((header, written)) => {
                &&& is_supported(version)
                &&& header_at(old(store).committed()) is Some
                &&& written ==> exists|before: StoreHeader| #[trigger]
                    decodes_header(
                        header_at(old(store).committed()).unwrap(),
                        Ok::<StoreHeader, StoreHeaderError>(before),
                    ) && before.version < version && header == (StoreHeader { version, ..before })
                        && final(store).committed() == with_header(old(store).committed(), header)
                &&& !written ==> header.version >= version && decodes_header(
                    header_at(old(store).committed()).unwrap(),
                    Ok::<StoreHeader, StoreHeaderError>(header),
                ) && final(store).committed() == old(store).committed()
                &&& final(store).names() == old(store).names().insert(STORE_HEADER_TREE@)
            },
            Err(e) => {
                &&& !is_supported(version) ==> refuses(
                    e,
                    db_path@,
                    StoreHeaderError::UnsupportedVersion(version),
                )
                &&& old(store).healthy() || !is_supported(version) ==> final(store).committed()
                    == old(store).committed()
                &&& final(store).committed() == old(store).committed() || raised(
                    old(store).committed(),
                    final(store).committed(),
                    version,
                )
                &&& old(store).healthy() && is_supported(version) ==> match header_at(
                    old(store).committed(),
                ) {
                    None => refuses(e, db_path@, StoreHeaderError::Missing),
                    Some(raw) => refuses_bytes(e, db_path@, raw),
                }
            },
        },
        old(store).names().subset_of(final(store).names()),
        old(store).healthy() ==> final(store).healthy(),
{
    if !supports_version(version) {
        return Err(MetaError::header(db_path, StoreHeaderError::UnsupportedVersion(version)));
    }
    let before: StoreHeader = match read_header(store, db_path) {
        Err(e) => {
            return Err(e);
        },
        Ok(None) => {
            return Err(MetaError::header(db_path, StoreHeaderError::Missing));
        },
        Ok(Some(header)) => header,
    };
    if before.version >= version {
        return Ok((before, false));
    }
    let next = StoreHeader {
        version,
        hasher: before.hasher,
        created_at: before.created_at,
        store_id: before.store_id,
    };
    match write_header(store, &next) {
        Ok(()) => Ok((next, true)),
        Err(e) => Err(e),
    }
}

/// A written header is what is read back, and a store at or above a version
/// stays as it is when it is raised to it.
pub proof fn lemma_raised_header_stays(rows: Rows, header: StoreHeader)
    requires
        is_supported(header.version),
    ensures
        header_at(with_header(rows, header)) == Some(encode_header(header)),
        forall|out: Result<StoreHeader, StoreHeaderError>| #[trigger]
            decodes_header(encode_header(header), out) <==> out == Ok::<
                StoreHeader,
                StoreHeaderError,
            >(header),
        with_header(with_header(rows, header), header) == with_header(rows, header),
{
    lemma_header_round_trip(header);
    assert(with_header(with_header(rows, header), header) =~= with_header(rows, header));
}

/// On a store that answers, the header that is read is the one that was written; there
/// is none exactly where no record is filed under the key, which is "header"; and a
/// refusal names the store.
pub proof fn lemma_header_read(
    rows: Rows,
    path: Seq<char>,
    h: StoreHeader,
    out: Result<Option<StoreHeader>, MetaError>,
)
    requires
        reads_header(rows, true, path, out),
    ensures
        header_at(rows) == lookup(
            rows,
            "_STORE_HEADER"@,
            seq![0x68u8, 0x65u8, 0x61u8, 0x64u8, 0x65u8, 0x72u8],
        ),
        out matches Ok(None) <==> header_at(rows) is None,
        header_at(rows) == Some(encode_header(h)) && (h.version == 3 || h.version == 4) ==> out
            == Ok::<Option<StoreHeader>, MetaError>(Some(h)),
        out matches Ok(Some(found)) ==> header_at(rows) == Some(encode_header(found)),
        out matches Err(e) ==> (e matches MetaError::Header { path: p, source } && p@ == path),
{
    if h.version == 3 || h.version == 4 {
        lemma_header_round_trip(h);
    }
    if let Ok(Some(found)) = out {
        lemma_header_bytes_canonical(header_at(rows)->Some_0, found);
    }
}

/// Recording an identity and raising the version each change that field of the header
/// and nothing else: the other fields are as they were, and so is every other row. A
/// version is raised, never lowered.
pub proof fn lemma_header_changed(
    rows: Rows,
    after: Rows,
    h: StoreHeader,
    adopted: StoreHeader,
    id: Seq<u8>,
    version: u16,
    tree: Seq<char>,
    key: Seq<u8>,
)
    requires
        header_at(rows) == Some(encode_header(h)),
        h.version == 3 || h.version == 4,
    ensures
        identifies(adopted, h, id) ==> adopted.store_id@ == id && adopted.version == h.version
            && adopted.hasher == h.hasher && adopted.created_at == h.created_at,
        raised(rows, after, version) ==> h.version < version && header_at(after) == Some(
            encode_header(
                StoreHeader {
                    version,
                    hasher: h.hasher,
                    created_at: h.created_at,
                    store_id: h.store_id,
                },
            ),
        ) && (lookup(after, tree, key) == lookup(rows, tree, key) || (tree == "_STORE_HEADER"@ && key
            == header_key())),
{
    lemma_header_round_trip(h);
}

} // verus!
