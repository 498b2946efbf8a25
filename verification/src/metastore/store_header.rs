//! The store header: the record that says "this directory is a store of this
//! format, addressed by this hash function".
//!
//! Layout, little-endian, exactly `STORE_HEADER_SIZE` bytes:
//!
//! ```text
//! magic [4] = "QSST" | version u16 | hash_algo u8 | hash_width u8 |
//! created_at u64 (unix seconds) | store_id [16]
//! ```
//!
//! The last 16 bytes tell a blocks root which database it belongs to; all-zero
//! means that the store has no such identity yet.
//!
//! A store whose header is missing, foreign, from a future version, or written
//! by a hash this build does not have is refused. There is no fallback: the
//! blocks of a store are addressed by the hash named in its header.

use vstd::array::array_as_slice;
use vstd::prelude::*;
use vstd::std_specs::cmp::PartialEqSpecImpl;
use vstd::std_specs::convert::FromSpecImpl;
use vstd::string::*;
use vstd::utf8::*;

use super::codec::{put_bytes, Reader};
use super::errors::FsError;
use crate::bytes::{
    equal_bytes, le_bytes, le_value, lemma_byte_ranges, lemma_le_bytes_len,
    lemma_le_bytes_of_le_value, lemma_le_value_of_le_bytes, put_le,
};
use crate::clock::seconds_since_epoch;
use crate::hasher::{header_hasher, Hasher, HasherError};
use crate::text::{
    all_hex, dec, hex, hex_decode, hex_string, lemma_hex_round_trip, put_dec, unhex_bytes,
    utf8_text,
};

pub mod ops;

pub use ops::{
    adopt_store_id, classify_entries, find_header, raise_version, read_header, write_header,
    StoreInit,
};

verus! {

/// The tree that holds the header record.
pub const STORE_HEADER_TREE: &'static str = "_STORE_HEADER";

/// Size of the header record in bytes.
pub const STORE_HEADER_SIZE: usize = 32;

/// The bytes every header starts with: "QSST".
pub const STORE_HEADER_MAGIC: [u8; 4] = [0x51, 0x53, 0x53, 0x54];

/// The format version a store is created at.
pub const STORE_HEADER_VERSION: u16 = 3;

/// The format version of a store that has grown a block-backed namespace.
pub const STORE_HEADER_VERSION_CAS_NAMESPACE: u16 = 4;

/// The file that holds a copy of the header, for manual recovery.
pub const STORE_HEADER_SIDECAR: &'static str = "store_header.bin";

/// Size of a store id in bytes.
pub const STORE_ID_SIZE: usize = 16;

/// The key of the header record in its tree: "header".
pub open spec fn header_key() -> Seq<u8> {
    seq![0x68u8, 0x65, 0x61, 0x64, 0x65, 0x72]
}

/// The key of the header record in its tree: "header".
pub fn store_header_key() -> (key: Vec<u8>)
    ensures
        key@ == header_key(),
{
    vec![0x68u8, 0x65, 0x61, 0x64, 0x65, 0x72]
}

/// Whether this build opens stores of a format version.
pub open spec fn is_supported(version: u16) -> bool {
    version == STORE_HEADER_VERSION || version == STORE_HEADER_VERSION_CAS_NAMESPACE
}

/// Whether this build opens stores of a format version.
pub fn supports_version(version: u16) -> (yes: bool)
    ensures
        yes == is_supported(version),
{
    version == STORE_HEADER_VERSION || version == STORE_HEADER_VERSION_CAS_NAMESPACE
}

/// Whether 16 bytes name a store: the all-zero pattern means that none is
/// named.
pub open spec fn names_store(bytes: Seq<u8>) -> bool {
    exists|i: int| 0 <= i < bytes.len() && bytes[i] != 0
}

/// The identity that pairs a blocks root with its database.
#[derive(Debug, Clone, Copy, Eq, Hash)]
pub struct StoreId([u8; 16]);

impl View for StoreId {
    type V = Seq<u8>;

    closed spec fn view(&self) -> Seq<u8> {
        self.0@
    }
}

/// Calls `uuid::Uuid::new_v4`: sixteen bytes that are random but for the
/// version nibble, which is 4, and the two variant bits, which are 10.
#[verifier::external_body]
fn random_uuid() -> (bytes: [u8; 16])
    ensures
        bytes@[6] / 16 == 4,
        bytes@[8] / 64 == 2,
{
    uuid::Uuid::new_v4().into_bytes()
}

/// Whether 16 bytes carry the marks of a minted identity: the version nibble and
/// the variant bits of a random UUID.
pub open spec fn is_minted(bytes: Seq<u8>) -> bool {
    &&& bytes[6] / 16 == 4
    &&& bytes[8] / 64 == 2
}

/// What `str::trim` leaves of a text.
pub uninterp spec fn trimmed(text: Seq<char>) -> Seq<char>;

/// Calls `str::trim`: the text without leading and trailing whitespace, which
/// includes newlines. A text that starts and ends with an ASCII letter or digit is
/// left as it is, and loses a newline that is added to it; which other characters
/// are whitespace is not stated here.
#[verifier::external_body]
fn trim_text(text: &str) -> (out: &str)
    ensures
        out@ == trimmed(text@),
        text@.len() > 0 && is_ascii_word(text@[0]) && is_ascii_word(text@.last()) ==> out@ == text@,
        text@.len() > 1 && is_ascii_word(text@[0]) && is_ascii_word(text@[text@.len() - 2])
            && text@.last() == '\n' ==> out@ == text@.drop_last(),
{
    text.trim()
}

/// Whether a character is an ASCII letter or digit.
pub open spec fn is_ascii_word(c: char) -> bool {
    ('0' <= c && c <= '9') || ('a' <= c && c <= 'z') || ('A' <= c && c <= 'Z')
}

/// The store id that a text without surrounding whitespace stands for.
pub open spec fn parsed_id(text: Seq<char>) -> Option<Seq<u8>> {
    let raw = encode_utf8(text);
    if raw.len() == 32 && all_hex(raw) && names_store(unhex_bytes(raw)) {
        Some(unhex_bytes(raw))
    } else {
        None
    }
}

/// Whether a text states a store's identity as it is written: lowercase hex, with
/// or without a newline behind it.
pub open spec fn states_id(text: Seq<char>, id: Seq<u8>) -> bool {
    &&& id.len() == 16
    &&& names_store(id)
    &&& text == hex(id) || text == hex(id).push('\n')
}

impl StoreId {
    #[verifier::type_invariant]
    spec fn wf(self) -> bool {
        names_store(self.0@)
    }

    /// Mints a fresh identity: one that names a store.
    pub fn generate() -> (id: Self)
        ensures
            id@.len() == 16,
            names_store(id@),
            is_minted(id@),
    {
        let bytes = random_uuid();
        proof {
            assert(bytes@[6] != 0);
        }
        StoreId(bytes)
    }

    /// The identity that 16 bytes name; the all-zero pattern names none.
    pub fn from_bytes(bytes: [u8; 16]) -> (out: Option<Self>)
        ensures
            out is Some == names_store(bytes@),
            out matches Some(id) ==> id@ == bytes@,
    {
        let mut i: usize = 0;
        while i < 16
            invariant
                i <= 16,
                forall|j: int| 0 <= j < i ==> bytes@[j] == 0,
            decreases 16 - i,
        {
            if bytes[i] != 0 {
                return Some(StoreId(bytes));
            }
            i = i + 1;
        }
        None
    }

    /// The bytes of the identity.
    pub fn as_bytes(&self) -> (bytes: &[u8; 16])
        ensures
            bytes@ == self@,
            names_store(bytes@),
    {
        proof {
            use_type_invariant(self);
        }
        &self.0
    }

    /// The identity as lowercase hex.
    pub fn to_hex(&self) -> (text: String)
        ensures
            text@ == hex(self@),
            states_id(text@, self@),
    {
        proof {
            use_type_invariant(self);
        }
        hex_string(array_as_slice(&self.0))
    }

    /// The identity as it is shown: lowercase hex.
    pub fn to_string(&self) -> (text: String)
        ensures
            text@ == hex(self@),
    {
        self.to_hex()
    }

    /// The identity that a text states, whitespace around it aside. An identity
    /// is read back from what is written of it.
    pub fn parse_hex(text: &str) -> (out: Option<Self>)
        ensures
            match out {
                Some(id) => parsed_id(trimmed(text@)) == Some(id@),
                None => parsed_id(trimmed(text@)) is None,
            },
            forall|b: Seq<u8>| #[trigger]
                states_id(text@, b) ==> (out matches Some(id) && id@ == b),
    {
        let core = trim_text(text);
        proof {
            assert forall|b: Seq<u8>| #[trigger] states_id(text@, b) implies parsed_id(core@)
                == Some(b) by {
                lemma_store_id_hex_round_trip(b);
                assert(hex(b).push('\n').drop_last() =~= hex(b));
            }
        }
        StoreId::parse_trimmed(core)
    }

    /// The identity that a text without whitespace around it states.
    pub fn parse_trimmed(text: &str) -> (out: Option<Self>)
        ensures
            match out {
                Some(id) => parsed_id(text@) == Some(id@),
                None => parsed_id(text@) is None,
            },
    {
        let raw = text.as_bytes();
        if raw.len() != 32 {
            return None;
        }
        let mut bytes = [0u8;16];
        if !hex_decode(raw, &mut bytes) {
            return None;
        }
        StoreId::from_bytes(bytes)
    }
}

impl PartialEq for StoreId {
    fn eq(&self, other: &Self) -> (yes: bool) {
        equal_bytes(array_as_slice(&self.0), array_as_slice(&other.0))
    }
}

impl PartialEqSpecImpl for StoreId {
    open spec fn obeys_eq_spec() -> bool {
        true
    }

    open spec fn eq_spec(&self, other: &Self) -> bool {
        self@ == other@
    }
}

/// A store id's hex text is read back as the same id.
pub proof fn lemma_store_id_hex_round_trip(id: Seq<u8>)
    requires
        id.len() == 16,
        names_store(id),
    ensures
        parsed_id(hex(id)) == Some(id),
        hex(id).len() == 32,
        is_ascii_word(hex(id)[0]),
        is_ascii_word(hex(id).last()),
{
    lemma_hex_round_trip(id);
}

/// The hash a store is to be created with, as its header states it.
#[derive(Debug, Clone, Copy, PartialEq, Eq, Structural)]
pub struct HeaderSpec {
    pub hash_algo: u8,
    pub hash_width: u8,
}

impl Default for HeaderSpec {
    fn default() -> (spec: Self)
        ensures
            spec == (HeaderSpec { hash_algo: 1, hash_width: 32 }),
    {
        HeaderSpec { hash_algo: Hasher::Blake3W32.algo_id(), hash_width: Hasher::Blake3W32.width() }
    }
}

impl From<Hasher> for HeaderSpec {
    fn from(hasher: Hasher) -> (spec: Self) {
        HeaderSpec { hash_algo: hasher.algo_id(), hash_width: hasher.width() }
    }
}

impl FromSpecImpl<Hasher> for HeaderSpec {
    open spec fn obeys_from_spec() -> bool {
        true
    }

    open spec fn from_spec(hasher: Hasher) -> Self {
        HeaderSpec { hash_algo: hasher.algo(), hash_width: hasher.bytes() }
    }
}

/// A decoded store header.
#[derive(Debug, Clone, Copy, PartialEq, Eq)]
pub struct StoreHeader {
    /// The format version.
    pub version: u16,
    /// The hash that addresses the store's blocks.
    pub hasher: Hasher,
    /// When the store was created, in Unix seconds.
    pub created_at: u64,
    /// The store id bytes, all zero where the store has none.
    pub store_id: [u8; 16],
}

/// Why a store may not be opened.
#[derive(Debug, Clone, Copy, PartialEq, Eq)]
pub enum StoreHeaderError {
    /// There is no header record.
    Missing,
    /// The record starts with other bytes than a header.
    BadMagic([u8; 4]),
    /// The format version is not one this build opens.
    UnsupportedVersion(u16),
    /// The record is too short or too long.
    Malformed(FsError),
    /// The hash fields name a hash this build does not have.
    Hash(HasherError),
}

/// A byte as an operator reads it: itself where it is printable ASCII, a dot
/// otherwise.
pub open spec fn printable(byte: u8) -> char {
    if 0x20 <= byte <= 0x7e {
        byte as char
    } else {
        '.'
    }
}

/// Renders bytes with a dot for each one that is not printable ASCII.
fn printable_text(bytes: &[u8]) -> (text: String)
    ensures
        text@ == bytes@.map_values(|b: u8| printable(b)),
{
    let ghost chars = bytes@.map_values(|b: u8| printable(b));
    let mut raw: Vec<u8> = Vec::new();
    let mut i: usize = 0;
    while i < bytes.len()
        invariant
            i <= bytes@.len(),
            raw@.len() == i,
            forall|j: int| 0 <= j < i ==> raw@[j] == printable(bytes@[j]) as u8,
        decreases bytes@.len() - i,
    {
        if bytes[i] >= 0x20 && bytes[i] <= 0x7e {
            raw.push(bytes[i]);
        } else {
            raw.push(0x2e);
        }
        i = i + 1;
    }
    proof {
        assert(is_ascii_chars(chars));
        is_ascii_chars_encode_utf8(chars);
        assert(raw@ =~= encode_utf8(chars));
        encode_utf8_valid_utf8(chars);
        encode_utf8_decode_utf8(chars);
    }
    match utf8_text(raw) {
        Ok(text) => text,
        Err(_) => String::new(),
    }
}

impl StoreHeaderError {
    /// The message an operator reads.
    pub open spec fn text(self) -> Seq<char> {
        match self {
            StoreHeaderError::Missing => "store predates the QSST format; no migration exists (expected a "@
                + "_STORE_HEADER"@ + " record)"@,
            StoreHeaderError::BadMagic(found) => "not a QSST store: header magic is 0x"@ + hex(
                found@,
            ) + " (\""@ + found@.map_values(|b: u8| printable(b)) + "\"), expected \"QSST\""@,
            StoreHeaderError::UnsupportedVersion(version) => "unsupported QSST store format version "@
                + dec(version as nat) + "; this build supports "@ + dec(
                STORE_HEADER_VERSION as nat,
            ) + ", "@ + dec(STORE_HEADER_VERSION_CAS_NAMESPACE as nat),
            StoreHeaderError::Malformed(e) => "malformed QSST store header: "@ + e.text(),
            StoreHeaderError::Hash(e) => "store header names a hash this build cannot use: "@
                + e.text(),
        }
    }

    /// Renders the message.
    pub fn to_string(&self) -> (out: String)
        ensures
            out@ == self.text(),
    {
        match self {
            StoreHeaderError::Missing => {
                let mut out =
                    "store predates the QSST format; no migration exists (expected a ".to_owned();
                out.append(STORE_HEADER_TREE);
                out.append(" record)");
                out
            },
            StoreHeaderError::BadMagic(found) => {
                let mut out = "not a QSST store: header magic is 0x".to_owned();
                out.append(&hex_string(array_as_slice(found)));
                out.append(" (\"");
                out.append(&printable_text(array_as_slice(found)));
                out.append("\"), expected \"QSST\"");
                out
            },
            StoreHeaderError::UnsupportedVersion(version) => {
                let mut out = "unsupported QSST store format version ".to_owned();
                put_dec(&mut out, *version as u64);
                out.append("; this build supports ");
                put_dec(&mut out, STORE_HEADER_VERSION as u64);
                out.append(", ");
                put_dec(&mut out, STORE_HEADER_VERSION_CAS_NAMESPACE as u64);
                out
            },
            StoreHeaderError::Malformed(e) => {
                let mut out = "malformed QSST store header: ".to_owned();
                out.append(&e.to_string());
                out
            },
            StoreHeaderError::Hash(e) => {
                let mut out = "store header names a hash this build cannot use: ".to_owned();
                out.append(&e.to_string());
                out
            },
        }
    }
}

/// A header as it is written.
pub open spec fn encode_header(h: StoreHeader) -> Seq<u8> {
    STORE_HEADER_MAGIC@ + le_bytes(h.version as nat, 2) + le_bytes(h.hasher.algo() as nat, 1)
        + le_bytes(h.hasher.bytes() as nat, 1) + le_bytes(h.created_at as nat, 8) + h.store_id@
}

/// Where the field ends that a record of `len` bytes is too short for.
pub open spec fn header_cut(len: nat) -> usize {
    if len < 4 {
        4
    } else if len < 6 {
        6
    } else if len < 7 {
        7
    } else if len < 8 {
        8
    } else if len < 16 {
        16
    } else {
        32
    }
}

/// Whether `out` is what the bytes of a header record stand for. Each answer
/// means something only where the one before it held: the length, the magic,
/// the version, the hash.
pub open spec fn decodes_header(
    buf: Seq<u8>,
    out: Result<StoreHeader, StoreHeaderError>,
) -> bool {
    let record = "store header";
    let version = le_value(buf.subrange(4, 6)) as u16;
    if buf.len() < STORE_HEADER_SIZE {
        out == Err::<StoreHeader, StoreHeaderError>(
            StoreHeaderError::Malformed(
                FsError::Truncated {
                    record,
                    needed: header_cut(buf.len()),
                    got: buf.len() as usize,
                },
            ),
        )
    } else if buf.len() > STORE_HEADER_SIZE {
        out == Err::<StoreHeader, StoreHeaderError>(
            StoreHeaderError::Malformed(
                FsError::TrailingBytes { record, extra: (buf.len() - STORE_HEADER_SIZE) as usize },
            ),
        )
    } else if buf.subrange(0, 4) != STORE_HEADER_MAGIC@ {
        out matches Err(StoreHeaderError::BadMagic(found)) && found@ == buf.subrange(0, 4)
    } else if !is_supported(version) {
        out == Err::<StoreHeader, StoreHeaderError>(StoreHeaderError::UnsupportedVersion(version))
    } else {
        match header_hasher(buf[6], buf[7]) {
            Err(e) => out == Err::<StoreHeader, StoreHeaderError>(StoreHeaderError::Hash(e)),
            Ok(hasher) => {
                &&& out matches Ok(h)
                &&& h.version == version
                &&& h.hasher == hasher
                &&& h.created_at == le_value(buf.subrange(8, 16))
                &&& h.store_id@ == buf.subrange(16, 32)
            },
        }
    }
}

/// The id bytes that a header holds for an optional store id.
pub open spec fn id_bytes(id: Option<StoreId>) -> Seq<u8> {
    match id {
        Some(id) => id@,
        None => Seq::new(16, |i: int| 0u8),
    }
}

impl StoreHeader {
    /// The header of a store created now, with a fresh identity.
    pub fn create(spec: HeaderSpec) -> (out: Result<Self, StoreHeaderError>)
        ensures
            match header_hasher(spec.hash_algo, spec.hash_width) {
                Ok(hasher) => out matches Ok(h) && h.version == STORE_HEADER_VERSION && h.hasher
                    == hasher && names_store(h.store_id@) && is_minted(h.store_id@),
                Err(e) => out == Err::<Self, StoreHeaderError>(StoreHeaderError::Hash(e)),
            },
    {
        let created_at: u64 = match seconds_since_epoch() {
            Some(seconds) => seconds,
            None => 0,
        };
        StoreHeader::create_at(spec, created_at)
    }

    /// The header of a store created at a given time, with a fresh identity.
    pub fn create_at(spec: HeaderSpec, created_at: u64) -> (out: Result<Self, StoreHeaderError>)
        ensures
            match header_hasher(spec.hash_algo, spec.hash_width) {
                Ok(hasher) => out matches Ok(h) && h.version == STORE_HEADER_VERSION && h.hasher
                    == hasher && h.created_at == created_at && names_store(h.store_id@)
                    && is_minted(h.store_id@),
                Err(e) => out == Err::<Self, StoreHeaderError>(StoreHeaderError::Hash(e)),
            },
    {
        StoreHeader::create_with(spec, created_at, Some(StoreId::generate()))
    }

    /// The header of a store with a given creation time and identity.
    pub fn create_with(spec: HeaderSpec, created_at: u64, store_id: Option<StoreId>) -> (out:
        Result<Self, StoreHeaderError>)
        ensures
            match header_hasher(spec.hash_algo, spec.hash_width) {
                Ok(hasher) => out matches Ok(h) && h.version == STORE_HEADER_VERSION && h.hasher
                    == hasher && h.created_at == created_at && h.store_id@ == id_bytes(store_id),
                Err(e) => out == Err::<Self, StoreHeaderError>(StoreHeaderError::Hash(e)),
            },
    {
        match Hasher::from_header(spec.hash_algo, spec.hash_width) {
            Err(e) => Err(StoreHeaderError::Hash(e)),
            Ok(hasher) => {
                let id: [u8; 16] = match store_id {
                    Some(id) => *id.as_bytes(),
                    None => {
                        let none = [0u8;16];
                        proof {
                            assert(none@ =~= Seq::new(16, |i: int| 0u8));
                        }
                        none
                    },
                };
                Ok(StoreHeader { version: STORE_HEADER_VERSION, hasher, created_at, store_id: id })
            },
        }
    }

    pub fn version(&self) -> (version: u16)
        ensures
            version == self.version,
    {
        self.version
    }

    pub fn hash_algo(&self) -> (algo: u8)
        ensures
            algo == self.hasher.algo(),
    {
        self.hasher.algo_id()
    }

    pub fn hash_width(&self) -> (width: u8)
        ensures
            width == self.hasher.bytes(),
    {
        self.hasher.width()
    }

    pub fn created_at(&self) -> (created_at: u64)
        ensures
            created_at == self.created_at,
    {
        self.created_at
    }

    pub fn hasher(&self) -> (hasher: Hasher)
        ensures
            hasher == self.hasher,
    {
        self.hasher
    }

    /// The store's identity, where it has one.
    pub fn store_id(&self) -> (id: Option<StoreId>)
        ensures
            id is Some == names_store(self.store_id@),
            id matches Some(id) ==> id@ == self.store_id@,
    {
        StoreId::from_bytes(self.store_id)
    }

    /// The same header with an identity.
    pub fn with_store_id(self, id: StoreId) -> (header: Self)
        ensures
            header == (StoreHeader { store_id: header.store_id, ..self }),
            header.store_id@ == id@,
            names_store(header.store_id@),
    {
        StoreHeader {
            version: self.version,
            hasher: self.hasher,
            created_at: self.created_at,
            store_id: *id.as_bytes(),
        }
    }

    /// Serializes the header.
    pub fn to_bytes(&self) -> (bytes: [u8; 32])
        ensures
            bytes@ == encode_header(*self),
    {
        let magic = STORE_HEADER_MAGIC;
        let mut out: Vec<u8> = Vec::new();
        put_bytes(&mut out, array_as_slice(&magic));
        put_le(&mut out, self.version as u64, 2);
        put_le(&mut out, self.hash_algo() as u64, 1);
        put_le(&mut out, self.hash_width() as u64, 1);
        put_le(&mut out, self.created_at, 8);
        put_bytes(&mut out, array_as_slice(&self.store_id));
        proof {
            lemma_le_bytes_len(self.version as nat, 2);
            lemma_le_bytes_len(self.hasher.algo() as nat, 1);
            lemma_le_bytes_len(self.hasher.bytes() as nat, 1);
            lemma_le_bytes_len(self.created_at as nat, 8);
            assert(out@ =~= encode_header(*self));
        }
        let mut bytes = [0u8;32];
        let mut i: usize = 0;
        while i < 32
            invariant
                i <= 32,
                out@.len() == 32,
                forall|j: int| 0 <= j < i ==> bytes@[j] == out@[j],
            decreases 32 - i,
        {
            bytes[i] = out[i];
            i = i + 1;
        }
        proof {
            assert(bytes@ =~= out@);
        }
        bytes
    }

    /// Deserializes a header. The length is checked first, and exactly; then the
    /// magic, the version and the hash.
    pub fn from_bytes(buf: &[u8]) -> (out: Result<Self, StoreHeaderError>)
        ensures
            decodes_header(buf@, out),
    {
        let mut r = Reader::new("store header", buf);
        let magic: [u8; 4] = match r.array::<4>("magic") {
            Ok(v) => v,
            Err(e) => {
                return Err(StoreHeaderError::Malformed(e));
            },
        };
        let version: u16 = match r.u16("version") {
            Ok(v) => v,
            Err(e) => {
                return Err(StoreHeaderError::Malformed(e));
            },
        };
        let hash_algo: u8 = match r.u8("hash_algo") {
            Ok(v) => v,
            Err(e) => {
                return Err(StoreHeaderError::Malformed(e));
            },
        };
        let hash_width: u8 = match r.u8("hash_width") {
            Ok(v) => v,
            Err(e) => {
                return Err(StoreHeaderError::Malformed(e));
            },
        };
        let created_at: u64 = match r.u64("created_at") {
            Ok(v) => v,
            Err(e) => {
                return Err(StoreHeaderError::Malformed(e));
            },
        };
        let store_id: [u8; 16] = match r.array::<16>("store_id") {
            Ok(v) => v,
            Err(e) => {
                return Err(StoreHeaderError::Malformed(e));
            },
        };
        match r.finish() {
            Ok(()) => {},
            Err(e) => {
                return Err(StoreHeaderError::Malformed(e));
            },
        }
        proof {
            lemma_one_byte(buf@, 6);
            lemma_one_byte(buf@, 7);
        }
        let expected = STORE_HEADER_MAGIC;
        if !equal_bytes(array_as_slice(&magic), array_as_slice(&expected)) {
            return Err(StoreHeaderError::BadMagic(magic));
        }
        if !supports_version(version) {
            return Err(StoreHeaderError::UnsupportedVersion(version));
        }
        match Hasher::from_header(hash_algo, hash_width) {
            Err(e) => Err(StoreHeaderError::Hash(e)),
            Ok(hasher) => Ok(StoreHeader { version, hasher, created_at, store_id }),
        }
    }
}

/// One byte of a record as a number.
proof fn lemma_one_byte(buf: Seq<u8>, i: int)
    requires
        0 <= i < buf.len(),
    ensures
        le_value(buf.subrange(i, i + 1)) == buf[i],
{
    reveal_with_fuel(le_value, 2);
}

/// A header of a supported version survives being written and read back, and
/// its bytes stand for nothing else.
pub proof fn lemma_header_round_trip(h: StoreHeader)
    requires
        is_supported(h.version),
    ensures
        encode_header(h).len() == STORE_HEADER_SIZE,
        decodes_header(encode_header(h), Ok::<StoreHeader, StoreHeaderError>(h)),
        forall|out: Result<StoreHeader, StoreHeaderError>| #[trigger]
            decodes_header(encode_header(h), out) ==> out == Ok::<StoreHeader, StoreHeaderError>(h),
{
    let buf = encode_header(h);
    let version = le_bytes(h.version as nat, 2);
    let algo = le_bytes(h.hasher.algo() as nat, 1);
    let width = le_bytes(h.hasher.bytes() as nat, 1);
    let created = le_bytes(h.created_at as nat, 8);
    lemma_le_bytes_len(h.version as nat, 2);
    lemma_le_bytes_len(h.hasher.algo() as nat, 1);
    lemma_le_bytes_len(h.hasher.bytes() as nat, 1);
    lemma_le_bytes_len(h.created_at as nat, 8);
    lemma_byte_ranges();
    lemma_le_value_of_le_bytes(h.version as nat, 2);
    lemma_le_value_of_le_bytes(h.hasher.algo() as nat, 1);
    lemma_le_value_of_le_bytes(h.hasher.bytes() as nat, 1);
    lemma_le_value_of_le_bytes(h.created_at as nat, 8);
    assert(buf.subrange(0, 4) =~= STORE_HEADER_MAGIC@);
    assert(buf.subrange(4, 6) =~= version);
    assert(buf.subrange(6, 7) =~= algo);
    assert(buf.subrange(7, 8) =~= width);
    assert(buf.subrange(8, 16) =~= created);
    assert(buf.subrange(16, 32) =~= h.store_id@);
    lemma_one_byte(buf, 6);
    lemma_one_byte(buf, 7);
    assert forall|out: Result<StoreHeader, StoreHeaderError>| #[trigger]
        decodes_header(buf, out) implies out == Ok::<StoreHeader, StoreHeaderError>(h) by {
        assert(out->Ok_0.store_id =~= h.store_id);
    }
}

/// The bytes of a header that decodes are the bytes it is written as, whatever
/// the id bytes hold.
pub proof fn lemma_header_bytes_canonical(buf: Seq<u8>, h: StoreHeader)
    requires
        decodes_header(buf, Ok::<StoreHeader, StoreHeaderError>(h)),
    ensures
        buf == encode_header(h),
        is_supported(h.version),
{
    lemma_le_bytes_of_le_value(buf.subrange(4, 6));
    lemma_le_bytes_of_le_value(buf.subrange(6, 7));
    lemma_le_bytes_of_le_value(buf.subrange(7, 8));
    lemma_le_bytes_of_le_value(buf.subrange(8, 16));
    lemma_one_byte(buf, 6);
    lemma_one_byte(buf, 7);
    lemma_byte_ranges();
    assert(buf =~= buf.subrange(0, 4) + buf.subrange(4, 6) + buf.subrange(6, 7) + buf.subrange(7, 8)
        + buf.subrange(8, 16) + buf.subrange(16, 32));
}

} // verus!
