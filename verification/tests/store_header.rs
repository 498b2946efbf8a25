use cas_storage::hasher::{Hasher, HasherError};
use cas_storage::metastore::meta_store::MetaStore;
use cas_storage::metastore::store_header::{
    adopt_store_id, classify_entries, raise_version, read_header, store_header_key, HeaderSpec,
    StoreHeader, StoreHeaderError, StoreId, StoreInit, STORE_HEADER_SIZE, STORE_HEADER_TREE,
    STORE_HEADER_VERSION, STORE_HEADER_VERSION_CAS_NAMESPACE, STORE_ID_SIZE,
};
use cas_storage::metastore::stores::memory::MemStore;
use cas_storage::metastore::traits::{BaseMetaTree, Store};
use cas_storage::metastore::{FsError, MetaError};

/// A header created with the default spec at a pinned timestamp and no store
/// id, byte for byte. Changing this vector changes the on-disk format.
const GOLDEN: [u8; STORE_HEADER_SIZE] = [
    0x51, 0x53, 0x53, 0x54, // "QSST"
    0x03, 0x00, // version 3
    0x01, // algo: blake3
    0x20, // width: 32
    0x01, 0x00, 0x00, 0x68, 0x00, 0x00, 0x00, 0x00, // created_at
    0, 0, 0, 0, 0, 0, 0, 0, 0, 0, 0, 0, 0, 0, 0, 0, // store id: absent
];

const GOLDEN_CREATED_AT: u64 = 0x0000_0000_6800_0001;

#[test]
fn golden_vector() {
    let header = StoreHeader::create_with(HeaderSpec::default(), GOLDEN_CREATED_AT, None).unwrap();
    assert_eq!(header.to_bytes(), GOLDEN);

    let decoded = StoreHeader::from_bytes(&GOLDEN).unwrap();
    assert_eq!(decoded.version(), STORE_HEADER_VERSION);
    assert_eq!(decoded.hash_algo(), 1);
    assert_eq!(decoded.hash_width(), 32);
    assert_eq!(decoded.created_at(), GOLDEN_CREATED_AT);
    assert_eq!(decoded.hasher(), Hasher::Blake3W32);
    assert_eq!(decoded.store_id(), None, "an all-zero id is no id");
    assert_eq!(decoded, header);
}

#[test]
fn golden_vector_with_a_store_id() {
    let id = StoreId::from_bytes([
        0x0f, 0x1e, 0x2d, 0x3c, 0x4b, 0x5a, 0x69, 0x78, 0x87, 0x96, 0xa5, 0xb4, 0xc3, 0xd2, 0xe1,
        0xf0,
    ])
    .unwrap();
    let header =
        StoreHeader::create_with(HeaderSpec::default(), GOLDEN_CREATED_AT, Some(id)).unwrap();

    let mut expected = GOLDEN;
    expected[16..].copy_from_slice(id.as_bytes());
    assert_eq!(header.to_bytes(), expected);
    assert_eq!(header.store_id(), Some(id));
    assert_eq!(id.to_hex(), "0f1e2d3c4b5a69788796a5b4c3d2e1f0");
    assert_eq!(StoreId::parse_hex(&format!("{}\n", id.to_string())), Some(id));
    assert_eq!(StoreHeader::from_bytes(&expected).unwrap(), header);
}

#[test]
fn store_ids_reject_the_absent_pattern_and_junk() {
    assert_eq!(StoreId::from_bytes([0u8; STORE_ID_SIZE]), None);
    assert_eq!(StoreId::parse_hex(&"0".repeat(32)), None);
    assert_eq!(StoreId::parse_hex(""), None);
    assert_eq!(StoreId::parse_hex("deadbeef"), None);
    assert_eq!(StoreId::parse_hex(&"z".repeat(32)), None);
    assert_ne!(StoreId::generate(), StoreId::generate());
    let id = StoreId::generate();
    assert_eq!(StoreId::parse_hex(&id.to_hex()), Some(id));
}

#[test]
fn created_headers_carry_a_fresh_id() {
    let first = StoreHeader::create(HeaderSpec::default()).unwrap();
    let second = StoreHeader::create(HeaderSpec::default()).unwrap();
    assert!(first.store_id().is_some());
    assert_ne!(first.store_id(), second.store_id());
}

#[test]
fn round_trips_both_widths() {
    for hasher in [Hasher::Blake3W16, Hasher::Blake3W32] {
        let header = StoreHeader::create_at(hasher.into(), 42).unwrap();
        let bytes = header.to_bytes();
        assert_eq!(bytes.len(), STORE_HEADER_SIZE);
        assert_eq!(StoreHeader::from_bytes(&bytes).unwrap(), header);
        assert_eq!(header.hasher(), hasher);
    }
}

#[test]
fn store_id_bytes_round_trip_untouched() {
    let mut raw = GOLDEN;
    raw[16..].copy_from_slice(&[0xabu8; STORE_ID_SIZE]);

    let header = StoreHeader::from_bytes(&raw).expect("any id pattern must be accepted");
    assert_eq!(header.to_bytes(), raw);
    assert_eq!(header.store_id().unwrap().as_bytes(), &[0xabu8; 16]);
}

#[test]
fn with_store_id_touches_only_the_id() {
    let before = StoreHeader::from_bytes(&GOLDEN).unwrap();
    let id = StoreId::generate();
    let after = before.with_store_id(id);

    assert_eq!(after.store_id(), Some(id));
    assert_eq!(after.version(), before.version());
    assert_eq!(after.hasher(), before.hasher());
    assert_eq!(after.created_at(), before.created_at());
    assert_eq!(&after.to_bytes()[..16], &before.to_bytes()[..16]);
}

#[test]
fn rejects_bad_magic() {
    let mut raw = GOLDEN;
    raw[..4].copy_from_slice(b"JUNK");
    let err = StoreHeader::from_bytes(&raw).unwrap_err();
    assert_eq!(err, StoreHeaderError::BadMagic(*b"JUNK"));
    let msg = err.to_string();
    assert!(msg.contains("0x4a554e4b"), "{msg}");
    assert!(msg.contains("\"JUNK\""), "{msg}");
    assert!(msg.contains("expected \"QSST\""), "{msg}");
}

#[test]
fn unprintable_magic_is_still_named() {
    let mut raw = GOLDEN;
    raw[..4].copy_from_slice(&[0x00, 0xff, 0x41, 0x0a]);
    let msg = StoreHeader::from_bytes(&raw).unwrap_err().to_string();
    assert!(msg.contains("0x00ff410a"), "{msg}");
    assert!(msg.contains("\"..A.\""), "{msg}");
}

#[test]
fn rejects_unsupported_version() {
    let mut raw = GOLDEN;
    raw[4..6].copy_from_slice(&5u16.to_le_bytes());
    let err = StoreHeader::from_bytes(&raw).unwrap_err();
    assert_eq!(err, StoreHeaderError::UnsupportedVersion(5));
    assert!(
        err.to_string().contains("unsupported QSST store format version 5"),
        "{}",
        err.to_string()
    );
}

#[test]
fn the_cas_namespace_version_is_opened_and_changes_nothing_else() {
    let mut raw = GOLDEN;
    raw[4..6].copy_from_slice(&STORE_HEADER_VERSION_CAS_NAMESPACE.to_le_bytes());

    let header = StoreHeader::from_bytes(&raw).expect("v4 is a version this build opens");
    assert_eq!(header.version(), STORE_HEADER_VERSION_CAS_NAMESPACE);
    assert_eq!(header.hasher(), Hasher::Blake3W32);
    assert_eq!(header.created_at(), GOLDEN_CREATED_AT);
    assert_eq!(header.to_bytes(), raw, "the raise costs no other byte");
}

#[test]
fn raising_the_version_is_one_way_and_idempotent() {
    let (mut meta, created) = create(HeaderSpec::default());
    assert_eq!(created.version(), STORE_HEADER_VERSION);

    let (raised, written) = raise_version(
        meta.get_underlying_store(),
        "/meta/db",
        STORE_HEADER_VERSION_CAS_NAMESPACE,
    )
    .unwrap();
    assert!(written);
    assert_eq!(raised.version(), STORE_HEADER_VERSION_CAS_NAMESPACE);
    assert_eq!(raised.store_id(), created.store_id(), "identity is kept");

    let on_disk = read_header(&mut meta.store, "/meta/db").unwrap().unwrap();
    assert_eq!(on_disk, raised);

    // Idempotent, and never a downgrade.
    let (again, written) = raise_version(
        meta.get_underlying_store(),
        "/meta/db",
        STORE_HEADER_VERSION_CAS_NAMESPACE,
    )
    .unwrap();
    assert_eq!(again, raised);
    assert!(!written);
    let (down, _) =
        raise_version(meta.get_underlying_store(), "/meta/db", STORE_HEADER_VERSION).unwrap();
    assert_eq!(down, raised, "a lower version leaves the header alone");

    // A version this build cannot open is not one it may write.
    let err = raise_version(meta.get_underlying_store(), "/meta/db", 99).unwrap_err();
    assert!(err.to_string().contains("99"), "{}", err.to_string());
}

#[test]
fn rejects_the_previous_version() {
    let mut raw = GOLDEN;
    raw[4..6].copy_from_slice(&2u16.to_le_bytes());
    let err = StoreHeader::from_bytes(&raw).unwrap_err();
    assert_eq!(err, StoreHeaderError::UnsupportedVersion(2));
}

#[test]
fn rejects_unknown_algo_and_width() {
    let mut raw = GOLDEN;
    raw[6] = 9;
    let err = StoreHeader::from_bytes(&raw).unwrap_err();
    assert_eq!(err, StoreHeaderError::Hash(HasherError::UnknownAlgo(9)));
    assert!(
        err.to_string().contains("unknown block hash algorithm id 9"),
        "{}",
        err.to_string()
    );

    let mut raw = GOLDEN;
    raw[7] = 17;
    let err = StoreHeader::from_bytes(&raw).unwrap_err();
    assert_eq!(err, StoreHeaderError::Hash(HasherError::UnsupportedWidth(17)));
    assert!(
        err.to_string().contains("unsupported block hash width 17"),
        "{}",
        err.to_string()
    );
}

#[test]
fn rejects_wrong_length() {
    let short = StoreHeader::from_bytes(&GOLDEN[..31]).unwrap_err();
    assert!(
        matches!(short, StoreHeaderError::Malformed(FsError::Truncated { .. })),
        "{short:?}"
    );

    let mut long = GOLDEN.to_vec();
    long.push(0);
    let long = StoreHeader::from_bytes(&long).unwrap_err();
    assert!(
        matches!(long, StoreHeaderError::Malformed(FsError::TrailingBytes { .. })),
        "{long:?}"
    );
}

/// A record of another length is malformed, whatever else is wrong with it: the
/// length comes before the magic, the version and the hash.
#[test]
fn a_wrong_length_comes_before_everything_else() {
    let junk = StoreHeader::from_bytes(b"JUNK").unwrap_err();
    assert!(
        matches!(junk, StoreHeaderError::Malformed(FsError::Truncated { .. })),
        "{junk:?}"
    );

    let mut long = GOLDEN.to_vec();
    long[0] = b'X';
    long.extend_from_slice(&[0, 0, 0]);
    let long = StoreHeader::from_bytes(&long).unwrap_err();
    assert!(
        matches!(long, StoreHeaderError::Malformed(FsError::TrailingBytes { extra: 3, .. })),
        "{long:?}"
    );

    let mut short = GOLDEN[..20].to_vec();
    short[4] = 0xff;
    short[5] = 0xff;
    let short = StoreHeader::from_bytes(&short).unwrap_err();
    assert!(
        matches!(short, StoreHeaderError::Malformed(FsError::Truncated { .. })),
        "{short:?}"
    );

    // At the right length the magic is looked at first, and then the version.
    let mut raw = GOLDEN.to_vec();
    raw[0] = b'X';
    raw[4] = 0xff;
    raw[5] = 0xff;
    assert!(matches!(
        StoreHeader::from_bytes(&raw).unwrap_err(),
        StoreHeaderError::BadMagic { .. }
    ));
}

// ---- store-level tests ----

fn open(store: MemStore, init: StoreInit, spec: HeaderSpec) -> Result<
    (MetaStore<MemStore>, StoreHeader),
    MetaError,
> {
    MetaStore::open_or_create(store, init, "/meta/db", Some(1), spec)
}

fn create(spec: HeaderSpec) -> (MetaStore<MemStore>, StoreHeader) {
    match open(MemStore::new(), StoreInit::Create, spec) {
        Ok(opened) => opened,
        Err(e) => panic!("a fresh store must be created: {}", e.to_string()),
    }
}

fn refusal(store: MemStore) -> String {
    match open(store, StoreInit::Open, HeaderSpec::default()) {
        Ok(_) => panic!("this store must be refused"),
        Err(e) => e.to_string(),
    }
}

/// Creating a store writes a header; reopening it reads exactly that header
/// back.
#[test]
fn create_then_reopen_fjall() {
    let (meta, created) = create(HeaderSpec::default());
    assert_eq!(created.hasher(), Hasher::Blake3W32);

    let (_meta, reopened) = match open(meta.store, StoreInit::Open, HeaderSpec::default()) {
        Ok(opened) => opened,
        Err(e) => panic!("a store we just created must reopen: {}", e.to_string()),
    };
    assert_eq!(reopened, created);
}

#[test]
fn header_wins_over_spec_on_open() {
    let (meta, created) = create(Hasher::Blake3W16.into());
    assert_eq!(created.hasher(), Hasher::Blake3W16);
    let (_meta, reopened) = match open(meta.store, StoreInit::Open, Hasher::Blake3W32.into()) {
        Ok(opened) => opened,
        Err(e) => panic!("{}", e.to_string()),
    };
    assert_eq!(reopened.hasher(), Hasher::Blake3W16);
}

#[test]
fn an_adopted_id_is_what_a_reopen_reads() {
    let adopted = StoreId::generate();
    let (mut meta, header) = create(HeaderSpec::default());
    assert!(header.store_id().is_some(), "a new store mints its own");
    let created = adopt_store_id(meta.get_underlying_store(), header, adopted).unwrap();
    assert_eq!(created.store_id(), Some(adopted));
    let (_meta, reopened) = match open(meta.store, StoreInit::Open, HeaderSpec::default()) {
        Ok(opened) => opened,
        Err(e) => panic!("{}", e.to_string()),
    };
    assert_eq!(reopened.store_id(), Some(adopted));
}

/// A store with content and no header.
fn unheadered_store() -> MemStore {
    let mut store = MemStore::new();
    store.tree_open("bucket").unwrap().insert(b"key", b"value".to_vec()).unwrap();
    store
}

#[test]
fn refuses_a_store_that_predates_the_header() {
    let msg = refusal(unheadered_store());
    assert!(
        msg.contains("store predates the QSST format; no migration exists"),
        "{msg}"
    );
}

/// Creates a healthy store, doctors its header with `raw`, and returns the
/// error text produced by reopening it.
fn refusal_for(raw: Vec<u8>) -> String {
    let (meta, _) = create(HeaderSpec::default());
    refusal(doctored(meta.store, raw))
}

fn doctored(store: MemStore, raw: Vec<u8>) -> MemStore {
    let mut store = store;
    store.tree_open(STORE_HEADER_TREE).unwrap().insert(&store_header_key(), raw).unwrap();
    store
}

#[test]
fn refuses_a_doctored_magic() {
    let mut raw = GOLDEN;
    raw[..4].copy_from_slice(b"SLED");
    let msg = refusal_for(raw.to_vec());
    assert!(msg.contains("not a QSST store"), "{msg}");
    assert!(msg.contains("\"SLED\""), "{msg}");
}

#[test]
fn refuses_a_doctored_version() {
    let mut raw = GOLDEN;
    raw[4..6].copy_from_slice(&9u16.to_le_bytes());
    let msg = refusal_for(raw.to_vec());
    assert!(msg.contains("unsupported QSST store format version 9"), "{msg}");
}

#[test]
fn a_cas_namespace_store_reopens_at_its_raised_version() {
    let (meta, _) = create(HeaderSpec::default());
    let mut raw = GOLDEN;
    raw[4..6].copy_from_slice(&STORE_HEADER_VERSION_CAS_NAMESPACE.to_le_bytes());
    let store = doctored(meta.store, raw.to_vec());
    let (_meta, header) = match open(store, StoreInit::Open, HeaderSpec::default()) {
        Ok(opened) => opened,
        Err(e) => panic!("a raised store must open: {}", e.to_string()),
    };
    assert_eq!(header.version(), STORE_HEADER_VERSION_CAS_NAMESPACE);
}

#[test]
fn refuses_a_doctored_algo() {
    let mut raw = GOLDEN;
    raw[6] = 9;
    let msg = refusal_for(raw.to_vec());
    assert!(msg.contains("unknown block hash algorithm id 9"), "{msg}");
}

#[test]
fn refuses_a_doctored_width() {
    let mut raw = GOLDEN;
    raw[7] = 17;
    let msg = refusal_for(raw.to_vec());
    assert!(msg.contains("unsupported block hash width 17"), "{msg}");
}

#[test]
fn refuses_a_truncated_header_record() {
    let msg = refusal_for(GOLDEN[..16].to_vec());
    assert!(msg.contains("malformed QSST store header"), "{msg}");
}

#[test]
fn refusals_name_the_store_path() {
    let msg = refusal(unheadered_store());
    assert!(msg.contains("/meta/db"), "{msg}");
}

#[test]
fn an_empty_or_missing_directory_is_no_store() {
    assert_eq!(classify_entries(None), StoreInit::Create);
    assert_eq!(classify_entries(Some(false)), StoreInit::Create);
    assert_eq!(classify_entries(Some(true)), StoreInit::Open);
}

#[test]
fn a_hash_this_build_does_not_have_creates_no_store() {
    let spec = HeaderSpec { hash_algo: 1, hash_width: 20 };
    match open(MemStore::new(), StoreInit::Create, spec) {
        Ok(_) => panic!("no such width"),
        Err(e) => assert!(e.to_string().contains("unsupported block hash width 20")),
    }
    assert_eq!(
        StoreHeader::create_at(HeaderSpec { hash_algo: 2, hash_width: 32 }, 1).unwrap_err(),
        StoreHeaderError::Hash(HasherError::UnknownAlgo(2))
    );
}

#[test]
fn the_hash_is_blake3_cut_to_width() {
    let full = Hasher::Blake3W32.hash(b"abc");
    assert_eq!(
        full.to_hex(),
        "6437b3ac38465133ffb63b75273a8db548c558465d79db03fd359c6cd5bd9d85"
    );
    let half = Hasher::Blake3W16.hash(b"abc");
    assert_eq!(half.to_hex(), "6437b3ac38465133ffb63b75273a8db5");
    assert_eq!(Hasher::from_header(1, 16), Ok(Hasher::Blake3W16));
    assert_eq!(Hasher::from_header(7, 16), Err(HasherError::UnknownAlgo(7)));
}
