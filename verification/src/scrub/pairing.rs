//! The pairing identity: what the two halves of a store say about each other.
//!
//! Re-pairing is the one repair. It rewrites the blocks root's marker to match
//! the database's header, and never does the reverse: the database is the half
//! that knows which records it holds.

use vstd::array::array_as_slice;
use vstd::prelude::*;
use vstd::string::*;

use crate::bytes::equal_bytes;
use crate::cas::BLOCKS_DB_DIR_NAME;
use crate::metastore::block::{join_path, path_join};
use crate::metastore::errors::{MetaError, StorePairingMismatch};
use crate::metastore::store_header::ops::{header_at, refuses_bytes};
use crate::metastore::store_header::{
    decodes_header, find_header, names_store, parsed_id, states_id, trimmed, StoreHeader,
    StoreHeaderError, StoreId, StoreInit,
};
use crate::metastore::traits::{Rows, Store, TransactionBackend};
use crate::text::{hex, opt_text};

verus! {

/// Where the shared blocks database is, under a metadata root.
pub open spec fn blocks_db_at(meta_root: Seq<char>) -> Seq<char> {
    path_join(path_join(meta_root, "blocks"@), BLOCKS_DB_DIR_NAME@)
}

/// The shared blocks database under a metadata root.
pub fn blocks_db_path(meta_root: &str) -> (path: String)
    ensures
        path@ == blocks_db_at(meta_root@),
{
    join_path(&join_path(meta_root, "blocks"), BLOCKS_DB_DIR_NAME)
}

/// The block file root under a data root.
pub fn blocks_root_path(fs_root: &str) -> (path: String)
    ensures
        path@ == path_join(fs_root@, "blocks"@),
{
    join_path(fs_root, "blocks")
}

/// What a blocks root's marker says.
#[derive(Debug, Clone, Copy, PartialEq, Eq)]
pub enum StoreIdMarker {
    /// It names a store.
    Present(StoreId),
    /// There is none.
    Absent,
    /// There is one, but it names no store.
    Unreadable,
}

impl StoreIdMarker {
    /// The store that a marker names.
    pub open spec fn names(self) -> Option<Seq<u8>> {
        match self {
            StoreIdMarker::Present(id) => Some(id@),
            _ => None,
        }
    }

    /// Whether this is what the text of a marker file says, where there is one.
    /// A text that was written for a store names that store.
    pub open spec fn read_of(self, text: Option<Seq<char>>) -> bool {
        &&& match text {
            None => self is Absent,
            Some(text) => match parsed_id(trimmed(text)) {
                Some(id) => self.names() == Some(id),
                None => self is Unreadable,
            },
        }
        &&& forall|id: Seq<u8>|
            text is Some && #[trigger] states_id(text->Some_0, id) ==> self.names() == Some(id)
    }

    /// Reads the text of a marker file, where there is one.
    pub fn read(text: &Option<String>) -> (marker: Self)
        ensures
            marker.read_of(opt_text(*text)),
    {
        match text {
            None => StoreIdMarker::Absent,
            Some(text) => match StoreId::parse_hex(text) {
                Some(id) => StoreIdMarker::Present(id),
                None => StoreIdMarker::Unreadable,
            },
        }
    }
}

/// The text of a marker that names a store: its id, and a newline.
pub open spec fn marker_text(id: Seq<u8>) -> Seq<char> {
    hex(id).push('\n')
}

/// The text of a marker that names a store.
pub fn marker_for(id: &StoreId) -> (text: String)
    ensures
        text@ == marker_text(id@),
        states_id(text@, id@),
{
    let mut text = id.to_hex();
    text.append("\n");
    proof {
        reveal_strlit("\n");
        assert(text@ =~= marker_text(id@));
    }
    text
}

/// An optional store id by its bytes.
pub open spec fn opt_id(id: Option<StoreId>) -> Option<Seq<u8>> {
    match id {
        Some(id) => Some(id@),
        None => None,
    }
}

/// The store that a header names, if it names one.
pub open spec fn header_names(header: StoreHeader) -> Option<Seq<u8>> {
    if names_store(header.store_id@) {
        Some(header.store_id@)
    } else {
        None
    }
}

/// Whether two optional store ids are the same.
fn same_opt(a: &Option<StoreId>, b: &Option<StoreId>) -> (same: bool)
    ensures
        same == (opt_id(*a) == opt_id(*b)),
{
    match (a, b) {
        (None, None) => true,
        (Some(a), Some(b)) => equal_bytes(
            array_as_slice(a.as_bytes()),
            array_as_slice(b.as_bytes()),
        ),
        _ => false,
    }
}

/// What each half of a store claims, and where the claim was read.
#[derive(Debug, PartialEq, Eq)]
pub struct Pairing {
    /// The blocks database.
    pub db_path: String,
    /// The id its header carries, if it carries one.
    pub header_id: Option<StoreId>,
    /// The blocks root.
    pub blocks_root: String,
    /// The id its marker carries, if it carries one that parses.
    pub marker_id: Option<StoreId>,
}

/// What a pairing states.
#[verifier::ext_equal]
pub ghost struct PairingView {
    pub db_path: Seq<char>,
    pub header_id: Option<Seq<u8>>,
    pub blocks_root: Seq<char>,
    pub marker_id: Option<Seq<u8>>,
}

impl View for Pairing {
    type V = PairingView;

    open spec fn view(&self) -> PairingView {
        PairingView {
            db_path: self.db_path@,
            header_id: opt_id(self.header_id),
            blocks_root: self.blocks_root@,
            marker_id: opt_id(self.marker_id),
        }
    }
}

impl PairingView {
    /// Whether both halves name the same store.
    pub open spec fn paired(self) -> bool {
        self.header_id is Some && self.marker_id == self.header_id
    }

    /// Whether the two halves name different stores.
    pub open spec fn mispaired(self) -> bool {
        self.header_id is Some && self.marker_id is Some && self.marker_id != self.header_id
    }
}

impl Pairing {
    /// Whether both halves name the same store. A half that claims nothing is
    /// not a match.
    pub fn is_paired(&self) -> (yes: bool)
        ensures
            yes == self@.paired(),
    {
        self.header_id.is_some() && same_opt(&self.header_id, &self.marker_id)
    }

    /// Whether the two halves name different stores: the refusal case.
    pub fn is_mispaired(&self) -> (yes: bool)
        ensures
            yes == self@.mispaired(),
    {
        self.header_id.is_some() && self.marker_id.is_some() && !same_opt(
            &self.header_id,
            &self.marker_id,
        )
    }

    /// Why this pairing must not be opened, if it must not.
    pub fn refusal(&self) -> (out: Option<StorePairingMismatch>)
        ensures
            out is Some == self@.mispaired(),
            out matches Some(e) ==> e.db_path@ == self@.db_path && Some(e.header_id@)
                == self@.header_id && e.blocks_root@ == self@.blocks_root && Some(e.marker_id@)
                == self@.marker_id,
    {
        if !self.is_mispaired() {
            return None;
        }
        match (self.header_id, self.marker_id) {
            (Some(header_id), Some(marker_id)) => Some(
                StorePairingMismatch {
                    db_path: self.db_path.as_str().to_owned(),
                    header_id,
                    blocks_root: self.blocks_root.as_str().to_owned(),
                    marker_id,
                },
            ),
            _ => None,
        }
    }
}

/// What an open does about a pairing.
#[derive(Debug)]
pub enum OnOpen {
    /// Nothing: both halves name this store.
    Proceed,
    /// It mints an id for a store that has none, in the header first and then in
    /// the marker.
    Mint,
    /// It writes the marker that a crash kept from being written.
    Mark(StoreId),
    /// It is refused: the halves are those of two stores.
    Refuse(StorePairingMismatch),
}

impl Pairing {
    /// What an open does about this pairing. The header side is the authoritative
    /// one: a blocks root that claims nothing takes its id, one that claims
    /// another store is never guessed about.
    pub fn on_open(&self) -> (out: OnOpen)
        ensures
            match out {
                OnOpen::Proceed => self@.paired(),
                OnOpen::Mint => self@.header_id is None,
                OnOpen::Mark(id) => self@.header_id == Some(id@) && self@.marker_id is None,
                OnOpen::Refuse(e) => {
                    &&& self@.mispaired()
                    &&& e.db_path@ == self@.db_path
                    &&& Some(e.header_id@) == self@.header_id
                    &&& e.blocks_root@ == self@.blocks_root
                    &&& Some(e.marker_id@) == self@.marker_id
                },
            },
    {
        match self.refusal() {
            Some(e) => {
                return OnOpen::Refuse(e);
            },
            None => {},
        }
        match (self.header_id, self.marker_id) {
            (None, _) => OnOpen::Mint,
            (Some(id), None) => OnOpen::Mark(id),
            (Some(_), Some(_)) => OnOpen::Proceed,
        }
    }
}

/// Why a pairing could not be read or repaired. None of these is a verdict about
/// the store's contents.
#[derive(Debug)]
pub enum PairingError {
    /// No blocks database at that meta root. Never created here.
    NoStore(String),
    /// No blocks root at that fs root.
    NoBlocksRoot(String),
    /// The database would not open.
    Open(MetaError),
    /// The blocks root's marker could not be read or written, for this reason.
    Marker(String, String),
    /// The database carries no store id to copy.
    NoStoreId(String),
}

impl PairingError {
    /// The message.
    pub open spec fn text(self) -> Seq<char> {
        match self {
            PairingError::NoStore(path) => "no store at "@ + path@,
            PairingError::NoBlocksRoot(path) => "no blocks root at "@ + path@,
            PairingError::Open(e) => e.text(),
            PairingError::Marker(path, e) => "the store id marker in "@ + path@
                + " could not be read or written: "@ + e@,
            PairingError::NoStoreId(path) => "the store at "@ + path@
                + " has no store id yet, so there is nothing to pair to: open it once (the first open of a store that predates ADR 0012 mints one) and re-pair after that"@,
        }
    }

    /// The message.
    pub fn to_string(&self) -> (out: String)
        ensures
            out@ == self.text(),
    {
        match self {
            PairingError::NoStore(path) => {
                let mut out = "no store at ".to_owned();
                out.append(path);
                out
            },
            PairingError::NoBlocksRoot(path) => {
                let mut out = "no blocks root at ".to_owned();
                out.append(path);
                out
            },
            PairingError::Open(e) => e.to_string(),
            PairingError::Marker(path, e) => {
                let mut out = "the store id marker in ".to_owned();
                out.append(path);
                out.append(" could not be read or written: ");
                out.append(e);
                out
            },
            PairingError::NoStoreId(path) => {
                let mut out = "the store at ".to_owned();
                out.append(path);
                out.append(
                    " has no store id yet, so there is nothing to pair to: open it once (the first open of a store that predates ADR 0012 mints one) and re-pair after that",
                );
                out
            },
        }
    }
}

/// Finds the two halves of a store: the paths of its blocks database and of its
/// blocks root. `init` says whether there is a database at the one, `is_dir`
/// whether the other is a directory. Neither is ever created.
pub fn find_halves(meta_root: &str, fs_root: &str, init: StoreInit, is_dir: bool) -> (out: Result<
    (String, String),
    PairingError,
>)
    ensures
        ({
            let db = blocks_db_at(meta_root@);
            let root = path_join(fs_root@, "blocks"@);
            match out {
                Ok((db_path, blocks_root)) => init is Open && is_dir && db_path@ == db
                    && blocks_root@ == root,
                Err(PairingError::NoStore(path)) => init is Create && path@ == db,
                Err(PairingError::NoBlocksRoot(path)) => init is Open && !is_dir && path@ == root,
                Err(_) => false,
            }
        }),
{
    let db_path = blocks_db_path(meta_root);
    let blocks_root = blocks_root_path(fs_root);
    match init {
        StoreInit::Create => {
            return Err(PairingError::NoStore(db_path));
        },
        StoreInit::Open => {},
    }
    if !is_dir {
        return Err(PairingError::NoBlocksRoot(blocks_root));
    }
    Ok((db_path, blocks_root))
}

/// Whether `out` is what is read of a store's pairing identity, given the rows of
/// its blocks database, the paths of its halves, and what was read of its blocks
/// root's marker.
pub open spec fn reads_pairing(
    rows: Rows,
    healthy: bool,
    paths: (Seq<char>, Seq<char>),
    marker: Result<StoreIdMarker, String>,
    out: Result<Pairing, PairingError>,
) -> bool {
    match out {
        Ok(pairing) => {
            &&& header_at(rows) matches Some(raw)
            &&& marker matches Ok(marker)
            &&& exists|header: StoreHeader|
                {
                    &&& #[trigger] decodes_header(raw, Ok::<StoreHeader, StoreHeaderError>(header))
                    &&& pairing@ == (PairingView {
                        db_path: paths.0,
                        header_id: header_names(header),
                        blocks_root: paths.1,
                        marker_id: marker.names(),
                    })
                }
        },
        Err(PairingError::NoStore(path)) => path@ == paths.0 && header_at(rows) is None,
        Err(PairingError::Open(e)) => healthy ==> (header_at(rows) matches Some(raw)
            && refuses_bytes(e, paths.0, raw)),
        Err(PairingError::Marker(path, text)) => path@ == paths.1 && (marker matches Err(e) && text
            == e) && header_at(rows) is Some,
        Err(_) => false,
    }
}

/// Reads both halves of a store's pairing identity: the header of its blocks
/// database, and what was read of its blocks root's marker. Nothing is written,
/// and a marker that names no store counts as none.
pub fn read_pairing<S: Store>(
    db_path: &str,
    blocks_root: &str,
    store: &S,
    marker: Result<StoreIdMarker, String>,
) -> (out: Result<Pairing, PairingError>)
    ensures
        reads_pairing(
            store.committed(),
            store.healthy(),
            (db_path@, blocks_root@),
            marker,
            out,
        ),
{
    let header = match find_header(store, db_path) {
        Err(e) => {
            return Err(PairingError::Open(e));
        },
        Ok(None) => {
            return Err(PairingError::NoStore(db_path.to_owned()));
        },
        Ok(Some(header)) => header,
    };
    let marker_id = match marker {
        Err(e) => {
            return Err(PairingError::Marker(blocks_root.to_owned(), e));
        },
        Ok(StoreIdMarker::Present(id)) => Some(id),
        Ok(StoreIdMarker::Absent) | Ok(StoreIdMarker::Unreadable) => None,
    };
    Ok(
        Pairing {
            db_path: db_path.to_owned(),
            header_id: header.store_id(),
            blocks_root: blocks_root.to_owned(),
            marker_id,
        },
    )
}

/// What a re-pair did.
#[derive(Debug, PartialEq, Eq)]
pub struct RePair {
    /// The identity both halves now agree on.
    pub store_id: StoreId,
    /// What the marker said before, if it said anything readable.
    pub was: Option<StoreId>,
    /// The database the id came from.
    pub db_path: String,
    /// The blocks root whose marker was, or was not, rewritten.
    pub blocks_root: String,
    /// False when the marker already matched.
    pub rewritten: bool,
}

/// Whether `out` is the re-pair of a pairing: the header's id, and whether the
/// marker does not say it yet; refused where the header has none.
pub open spec fn re_pairs(pairing: PairingView, out: Result<RePair, PairingError>) -> bool {
    match out {
        Ok(done) => {
            &&& pairing.header_id == Some(done.store_id@)
            &&& opt_id(done.was) == pairing.marker_id
            &&& done.db_path@ == pairing.db_path
            &&& done.blocks_root@ == pairing.blocks_root
            &&& done.rewritten == !pairing.paired()
        },
        Err(PairingError::NoStoreId(path)) => pairing.header_id is None && path@
            == pairing.db_path,
        Err(_) => false,
    }
}

/// What a marker file holds after a re-pair: it is rewritten where it has to be,
/// and is otherwise left as it was.
pub open spec fn marker_after(
    before: Option<Seq<char>>,
    out: Result<RePair, PairingError>,
) -> Option<Seq<char>> {
    match out {
        Ok(done) if done.rewritten => Some(marker_text(done.store_id@)),
        _ => before,
    }
}

/// Decides on a re-pair: what the marker of a blocks root is to say, and whether
/// it says that already.
///
/// One direction only. A store whose header carries no id is refused rather than
/// minted into.
pub fn re_pair(pairing: &Pairing) -> (out: Result<RePair, PairingError>)
    ensures
        re_pairs(pairing@, out),
{
    match pairing.header_id {
        None => Err(PairingError::NoStoreId(pairing.db_path.as_str().to_owned())),
        Some(store_id) => Ok(
            RePair {
                store_id,
                was: pairing.marker_id,
                db_path: pairing.db_path.as_str().to_owned(),
                blocks_root: pairing.blocks_root.as_str().to_owned(),
                rewritten: !pairing.is_paired(),
            },
        ),
    }
}

impl RePair {
    /// The text that the marker file is to be rewritten to, where it is to be.
    pub fn marker(&self) -> (text: Option<String>)
        ensures
            opt_text(text) == (if self.rewritten {
                Some(marker_text(self.store_id@))
            } else {
                None
            }),
    {
        if self.rewritten {
            Some(marker_for(&self.store_id))
        } else {
            None
        }
    }

    /// The operator-facing account of what happened.
    pub open spec fn text(self) -> Seq<char> {
        (if self.rewritten {
            "re-paired "@ + self.blocks_root@ + " with the store at "@ + self.db_path@ + "\n"@
        } else {
            "already paired: "@ + self.blocks_root@ + " and "@ + self.db_path@
                + " both name one store\n"@
        }) + "  store id:     "@ + hex(self.store_id@) + "\n  marker was:   "@ + (match self.was {
            Some(id) => hex(id@),
            None => "absent or unreadable"@,
        }) + "\n  marker now:   "@ + hex(self.store_id@) + "\n"@
    }

    /// The operator-facing account of what happened.
    pub fn render_text(&self) -> (out: String)
        ensures
            out@ == self.text(),
    {
        let mut out = String::new();
        if self.rewritten {
            out.append("re-paired ");
            out.append(&self.blocks_root);
            out.append(" with the store at ");
            out.append(&self.db_path);
            out.append("\n");
        } else {
            out.append("already paired: ");
            out.append(&self.blocks_root);
            out.append(" and ");
            out.append(&self.db_path);
            out.append(" both name one store\n");
        }
        out.append("  store id:     ");
        out.append(&self.store_id.to_string());
        out.append("\n  marker was:   ");
        match &self.was {
            Some(id) => {
                out.append(&id.to_hex());
            },
            None => {
                out.append("absent or unreadable");
            },
        }
        out.append("\n  marker now:   ");
        out.append(&self.store_id.to_string());
        out.append("\n");
        proof {
            assert(out@ =~= self.text());
        }
        out
    }
}

/// A pairing is not both one store and two.
pub proof fn lemma_paired_or_not(p: PairingView)
    ensures
        !(p.paired() && p.mispaired()),
{
}

/// A re-pair makes a store of two halves, and is idempotent. A database whose
/// header has no id is refused, and the marker is left as it was. One with an id
/// gets a marker that names that id, and what it named before is told; the marker
/// is rewritten exactly where it named another id or none. Read again, over an
/// unchanged database that answers, the halves are paired, and a second re-pair
/// has nothing to rewrite.
pub proof fn lemma_re_pair_again(
    rows: Rows,
    healthy: bool,
    paths: (Seq<char>, Seq<char>),
    text: Option<Seq<char>>,
    marker: StoreIdMarker,
    pairing: Pairing,
    out: Result<RePair, PairingError>,
    marker_again: StoreIdMarker,
    again: Result<Pairing, PairingError>,
)
    requires
        marker.read_of(text),
        reads_pairing(
            rows,
            healthy,
            paths,
            Ok::<StoreIdMarker, String>(marker),
            Ok::<Pairing, PairingError>(pairing),
        ),
        re_pairs(pairing@, out),
        marker_again.read_of(marker_after(text, out)),
        healthy,
        reads_pairing(rows, healthy, paths, Ok::<StoreIdMarker, String>(marker_again), again),
    ensures
        out is Err <==> pairing@.header_id is None,
        out is Err ==> out->Err_0 is NoStoreId && marker_after(text, out) == text,
        out matches Ok(done) ==> {
            &&& pairing@.header_id == Some(done.store_id@)
            &&& opt_id(done.was) == marker.names()
            &&& done.rewritten <==> marker.names() != Some(done.store_id@)
            &&& marker_again.names() == Some(done.store_id@)
            &&& again matches Ok(p) && p@.paired() && p@.header_id == pairing@.header_id
            &&& forall|twice: Result<RePair, PairingError>| #[trigger]
                re_pairs(again->Ok_0@, twice) ==> (twice matches Ok(r) && !r.rewritten
                    && r.store_id@ == done.store_id@ && marker_after(
                    marker_after(text, out),
                    twice,
                ) == marker_after(text, out))
        },
{
    let raw = header_at(rows).unwrap();
    let header = choose|header: StoreHeader|
        {
            &&& #[trigger] decodes_header(raw, Ok::<StoreHeader, StoreHeaderError>(header))
            &&& pairing@ == (PairingView {
                db_path: paths.0,
                header_id: header_names(header),
                blocks_root: paths.1,
                marker_id: marker.names(),
            })
        };
    if let Ok(done) = out {
        let id = done.store_id@;
        if done.rewritten {
            assert(states_id(marker_text(id), id));
        } else {
            lemma_read_alike(text, marker, marker_again);
        }
        assert(decodes_header(raw, Ok::<StoreHeader, StoreHeaderError>(header)));
    }
}

/// Two readings of one marker name the same store.
proof fn lemma_read_alike(text: Option<Seq<char>>, a: StoreIdMarker, b: StoreIdMarker)
    requires
        a.read_of(text),
        b.read_of(text),
    ensures
        a.names() == b.names(),
{
}

/// Two halves are one store where both name one and it is the same, and two stores
/// where both name one and they differ; a half that names none is neither.
pub proof fn lemma_pairing_verdicts(p: PairingView)
    ensures
        p.paired() <==> (p.header_id matches Some(h) && (p.marker_id matches Some(m) && h == m)),
        p.mispaired() <==> (p.header_id matches Some(h) && (p.marker_id matches Some(m) && h
            != m)),
{
}

/// A pairing is read as the header and the marker say: the header names the store of
/// its 16 id bytes unless all of them are zero, and the marker what was read of it. A
/// database without a header is no store.
pub proof fn lemma_pairing_read(
    rows: Rows,
    paths: (Seq<char>, Seq<char>),
    marker: Result<StoreIdMarker, String>,
    out: Result<Pairing, PairingError>,
)
    requires
        reads_pairing(rows, true, paths, marker, out),
    ensures
        out matches Ok(pairing) ==> {
            &&& header_at(rows) matches Some(raw)
            &&& raw.len() == 32
            &&& (exists|i: int| 16 <= i < 32 && #[trigger] raw[i] != 0) ==> pairing@.header_id
                == Some(raw.subrange(16, 32))
            &&& !(exists|i: int| 16 <= i < 32 && #[trigger] raw[i] != 0) ==> pairing@.header_id
                is None
            &&& marker matches Ok(m)
            &&& m matches StoreIdMarker::Present(id) ==> pairing@.marker_id == Some(id@)
            &&& !(m is Present) ==> pairing@.marker_id is None
            &&& pairing@.db_path == paths.0
            &&& pairing@.blocks_root == paths.1
        },
        out matches Err(e) && e is NoStore <==> header_at(rows) is None,
        out matches Err(e) && e is Marker ==> header_at(rows) is Some && marker is Err,
{
    if let Ok(pairing) = out {
        let raw = header_at(rows)->Some_0;
        let header = choose|header: StoreHeader|
            {
                &&& #[trigger] decodes_header(raw, Ok::<StoreHeader, StoreHeaderError>(header))
                &&& pairing@.header_id == header_names(header)
            };
        let id = raw.subrange(16, 32);
        assert(header.store_id@ == id);
        if exists|i: int| 16 <= i < 32 && #[trigger] raw[i] != 0 {
            let i = choose|i: int| 16 <= i < 32 && #[trigger] raw[i] != 0;
            assert(id[i - 16] != 0);
        }
        if names_store(id) {
            let i = choose|i: int| 0 <= i < id.len() && id[i] != 0;
            assert(raw[i + 16] != 0);
        }
    }
}

/// A marker is absent exactly where there is no file; one that holds the lowercase hex
/// of a store's id, with or without a newline behind it, names that store; and one
/// whose text names no store is unreadable, not absent.
pub proof fn lemma_marker_read(marker: StoreIdMarker, text: Option<Seq<char>>, id: Seq<u8>)
    requires
        marker.read_of(text),
        id.len() == 16,
        exists|i: int| 0 <= i < id.len() && id[i] != 0,
    ensures
        marker is Absent <==> text is None,
        text == Some(hex(id)) || text == Some(hex(id).push('\n')) ==> (marker
            matches StoreIdMarker::Present(found) && found@ == id),
        text matches Some(t) ==> (parsed_id(trimmed(t)) is None <==> marker is Unreadable),
{
    if text is Some {
        assert(states_id(text->Some_0, id) ==> marker.names() == Some(id));
    }
}

} // verus!
