use cas_storage::metastore::store_header::{
    adopt_store_id, store_header_key, write_header, HeaderSpec, StoreHeader, StoreId, StoreInit,
    STORE_HEADER_TREE,
};
use cas_storage::metastore::stores::memory::MemStore;
use cas_storage::metastore::traits::{BaseMetaTree, Store};
use cas_storage::scrub::pairing::{
    blocks_db_path, blocks_root_path, find_halves, marker_for, re_pair, read_pairing, OnOpen,
    Pairing, PairingError, RePair, StoreIdMarker,
};

/// A blocks database and the text of a blocks root's marker, as they are on disk.
struct Halves {
    database: MemStore,
    marker: Option<String>,
}

fn make_store() -> (Halves, StoreId) {
    let mut database = MemStore::new();
    let header = StoreHeader::create(HeaderSpec::default()).unwrap();
    write_header(&mut database, &header).unwrap();
    let id = header.store_id().expect("a created store has an id");
    (Halves { database, marker: Some(format!("{}\n", id.to_hex())) }, id)
}

fn pairing(database: &MemStore, marker: &Option<String>) -> Pairing {
    let db_path = blocks_db_path("/srv/meta");
    let blocks_root = blocks_root_path("/srv/data");
    read_pairing(&db_path, &blocks_root, database, Ok(StoreIdMarker::read(marker))).unwrap()
}

/// Re-pairs a database with a marker, and writes the marker where it is to be.
fn paired_up(database: &MemStore, marker: &mut Option<String>) -> RePair {
    let done = re_pair(&pairing(database, marker)).unwrap();
    if let Some(text) = done.marker() {
        *marker = Some(text);
    }
    done
}

#[test]
fn a_healthy_store_reads_as_paired_and_re_pairs_to_a_no_op() {
    let (halves, id) = make_store();

    let pairing = pairing(&halves.database, &halves.marker);
    assert!(pairing.is_paired());
    assert!(!pairing.is_mispaired());
    assert_eq!(pairing.header_id, Some(id));
    assert_eq!(pairing.marker_id, Some(id));
    assert!(pairing.refusal().is_none());

    let done = re_pair(&pairing).unwrap();
    assert!(!done.rewritten, "nothing to do is not something to do");
    assert_eq!(done.store_id, id);
    assert!(done.render_text().contains("already paired"));
}

/// What is written of an id names that id, with and without the newline, and a
/// second re-pair has nothing to do.
#[test]
fn a_marker_reads_back_as_it_was_written() {
    let (mut halves, id) = make_store();
    let (_, other) = make_store();
    assert_eq!(marker_for(&id), format!("{}\n", id.to_hex()));
    assert_eq!(StoreIdMarker::read(&Some(marker_for(&id))), StoreIdMarker::Present(id));
    assert_eq!(StoreIdMarker::read(&Some(id.to_hex())), StoreIdMarker::Present(id));
    assert_eq!(StoreId::parse_hex(&marker_for(&id)), Some(id));
    assert_eq!(StoreId::parse_hex(&format!(" {}\n", id.to_hex())), Some(id));

    for before in [None, Some("junk".to_string()), Some(marker_for(&other))] {
        halves.marker = before;
        let done = paired_up(&halves.database, &mut halves.marker);
        assert!(done.rewritten);
        assert_eq!(halves.marker, Some(marker_for(&id)));
        let again = paired_up(&halves.database, &mut halves.marker);
        assert!(!again.rewritten);
        assert_eq!(again.marker(), None);
        assert_eq!(again.store_id, id);
        assert_eq!(again.was, Some(id));
        assert_eq!(halves.marker, Some(marker_for(&id)));
    }
}

/// A marker naming another store is rewritten to the database's id, and the
/// store is accepted afterwards.
#[test]
fn re_pair_makes_a_refused_pairing_open_again() {
    let (a, id_a) = make_store();
    let (mut b, id_b) = make_store();

    // The mispairing: store A's database against store B's blocks root.
    let crossed = pairing(&a.database, &b.marker);
    assert!(crossed.is_mispaired());
    let refusal = crossed.refusal().expect("a mispaired store is refused").to_string();
    assert!(refusal.contains(&id_a.to_hex()), "{refusal}");
    assert!(refusal.contains(&id_b.to_hex()), "{refusal}");

    let done = paired_up(&a.database, &mut b.marker);
    assert!(done.rewritten);
    assert_eq!(done.store_id, id_a);
    assert_eq!(done.was, Some(id_b));
    let text = done.render_text();
    assert!(text.contains(&id_a.to_hex()), "{text}");
    assert!(text.contains(&id_b.to_hex()), "{text}");

    // The proof: the pairing that was refused before is accepted now, and store
    // A's own root is untouched by any of it.
    assert!(pairing(&a.database, &b.marker).is_paired());
    assert_eq!(pairing(&a.database, &a.marker).marker_id, Some(id_a));
}

/// A marker that is missing or damaged is repaired the same way.
#[test]
fn re_pair_writes_a_marker_that_is_absent_or_junk() {
    let (mut halves, id) = make_store();

    halves.marker = None;
    assert!(!pairing(&halves.database, &halves.marker).is_mispaired());
    let done = paired_up(&halves.database, &mut halves.marker);
    assert!(done.rewritten);
    assert_eq!(done.was, None);
    assert_eq!(done.store_id, id);

    halves.marker = Some("\x00\x01 not an id".to_string());
    let done = paired_up(&halves.database, &mut halves.marker);
    assert!(done.rewritten);
    assert_eq!(done.was, None, "junk claims nothing");
    assert_eq!(done.store_id, id);
}

/// Nothing is created and nothing is guessed: a mistyped root is an error, not
/// an empty store with a fresh identity.
#[test]
fn re_pair_refuses_paths_that_are_not_a_store() {
    let err = find_halves("/nowhere", "/srv/data", StoreInit::Create, true).unwrap_err();
    assert!(matches!(err, PairingError::NoStore(_)), "{err:?}");
    assert!(err.to_string().contains("no store at"), "{err:?}");

    let err = find_halves("/srv/meta", "/nowhere", StoreInit::Open, false).unwrap_err();
    assert!(matches!(err, PairingError::NoBlocksRoot(_)), "{err:?}");
    assert_eq!(err.to_string(), "no blocks root at /nowhere/blocks");

    assert_eq!(
        find_halves("/srv/meta", "/srv/data", StoreInit::Open, true).unwrap(),
        ("/srv/meta/blocks/.db".to_string(), "/srv/data/blocks".to_string())
    );
}

/// A store without an identity has none to copy. The refusal says so and names
/// the fix, rather than minting one.
#[test]
fn re_pair_refuses_a_store_with_no_id_yet() {
    let mut database = MemStore::new();
    let header = StoreHeader::create_with(HeaderSpec::default(), 1, None).unwrap();
    write_header(&mut database, &header).unwrap();

    let err = re_pair(&pairing(&database, &None)).unwrap_err();
    assert!(matches!(err, PairingError::NoStoreId(_)), "{err:?}");
    assert!(err.to_string().contains("open it once"), "{err:?}");

    // And the fix it names works: once an id is adopted and its marker written,
    // re-pair is a no-op.
    let id = StoreId::generate();
    adopt_store_id(&mut database, header, id).unwrap();
    let done = re_pair(&pairing(&database, &Some(id.to_hex()))).unwrap();
    assert!(!done.rewritten);
    assert_eq!(done.store_id, id);
}

#[test]
fn a_store_that_cannot_be_read_is_no_pairing() {
    // No header at all.
    let err = read_pairing("/db", "/blocks", &MemStore::new(), Ok(StoreIdMarker::Absent));
    assert!(matches!(err, Err(PairingError::NoStore(_))), "{err:?}");

    // A header that does not decode.
    let mut damaged = MemStore::new();
    damaged
        .tree_open(STORE_HEADER_TREE)
        .unwrap()
        .insert(&store_header_key(), vec![0xff; 5])
        .unwrap();
    let err = read_pairing("/db", "/blocks", &damaged, Ok(StoreIdMarker::Absent));
    assert!(matches!(err, Err(PairingError::Open(_))), "{err:?}");

    let (halves, _) = make_store();
    let err = read_pairing("/db", "/blocks", &halves.database, Err("denied".to_string()))
        .unwrap_err();
    assert_eq!(
        err.to_string(),
        "the store id marker in /blocks could not be read or written: denied"
    );
}

#[test]
fn an_open_completes_a_pairing_and_refuses_a_wrong_one() {
    let (a, id_a) = make_store();
    let (b, id_b) = make_store();
    assert!(matches!(pairing(&a.database, &a.marker).on_open(), OnOpen::Proceed));
    match pairing(&a.database, &None).on_open() {
        OnOpen::Mark(id) => assert_eq!(id, id_a),
        other => panic!("expected a marker to be written, got {other:?}"),
    }
    match pairing(&a.database, &b.marker).on_open() {
        OnOpen::Refuse(e) => {
            assert_eq!(e.header_id, id_a);
            assert_eq!(e.marker_id, id_b);
        }
        other => panic!("expected a refusal, got {other:?}"),
    }
    let mut young = MemStore::new();
    let header = StoreHeader::create_with(HeaderSpec::default(), 1, None).unwrap();
    write_header(&mut young, &header).unwrap();
    assert!(matches!(pairing(&young, &None).on_open(), OnOpen::Mint));
}
