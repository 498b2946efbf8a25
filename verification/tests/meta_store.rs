use cas_storage::metastore::meta_store::{
    BlockDecrement, MetaStore, DEFAULT_BLOCK_TREE, DEFAULT_BUCKET_TREE, DEFAULT_USAGE_TREE,
    MULTIPART_PARTS_TREE, UPLOADS_TREE,
};
use cas_storage::metastore::store_header::{HeaderSpec, StoreInit, STORE_HEADER_TREE};
use cas_storage::metastore::stores::memory::MemStore;
use cas_storage::metastore::traits::{BaseMetaTree, MetaTreeExt};
use cas_storage::metastore::{
    block_disk_path, Block, BlockId, BucketMeta, ContentHash, MetaError, Object, ObjectData,
    UploadRecord, BLOCKID_SIZE,
};

fn test_store() -> MetaStore<MemStore> {
    MetaStore::new(MemStore::new(), None)
}

/// A record marked degraded: holders still counted, bytes gone.
fn degraded_record(size: usize, depth: u8, rc: usize) -> Block {
    let mut block = Block::from_parts(size, depth, rc, 0);
    block.set_degraded(true);
    block
}

fn stored_block(meta: &MetaStore<MemStore>, hash: &BlockId) -> Option<Block> {
    meta.find_block_tree().unwrap().get_block(hash.as_slice()).unwrap()
}

#[test]
fn insert_new_block_records_the_given_depth() {
    let mut meta = test_store();
    let hash = BlockId::from([0xaau8; BLOCKID_SIZE]);

    let mut tx = meta.begin_transaction();
    let block = tx.insert_new_block(hash, 42, 3).unwrap();
    tx.commit().unwrap();

    assert_eq!(block.rc(), 1);
    assert_eq!(block.depth(), 3);
    assert_eq!(
        block.disk_path(&hash, "/data".to_string()),
        block_disk_path(&hash, 3, "/data".to_string())
    );
}

#[test]
fn bump_block_rc_hits_and_keeps_the_recorded_depth() {
    let mut meta = test_store();
    let hash = BlockId::from([0xabu8; BLOCKID_SIZE]);

    // No record yet: the bump reports a miss and mutates nothing.
    let mut tx = meta.begin_transaction();
    assert!(tx.bump_block_rc(hash).unwrap().is_none());
    tx.rollback();

    let mut tx = meta.begin_transaction();
    tx.insert_new_block(hash, 42, 2).unwrap();
    tx.commit().unwrap();

    let mut tx = meta.begin_transaction();
    let block = tx.bump_block_rc(hash).unwrap().expect("record exists");
    tx.commit().unwrap();

    assert_eq!(block.rc(), 2);
    assert_eq!(block.depth(), 2, "dedup must not move the block");
}

#[test]
fn bump_block_rc_treats_a_degraded_record_as_absent() {
    let mut meta = test_store();
    let hash = BlockId::from([0xadu8; BLOCKID_SIZE]);

    let mut tx = meta.begin_transaction();
    tx.put_block_record(hash, &degraded_record(42, 2, 3)).unwrap();
    tx.commit().unwrap();

    let mut tx = meta.begin_transaction();
    assert!(tx.bump_block_rc(hash).unwrap().is_none());
    tx.commit().unwrap();

    let block = stored_block(&meta, &hash).unwrap();
    assert_eq!(block.rc(), 3, "a reported miss must not bump");
    assert!(block.is_degraded());
}

#[test]
fn insert_new_block_heals_a_degraded_record() {
    let mut meta = test_store();
    let hash = BlockId::from([0xaeu8; BLOCKID_SIZE]);

    let mut tx = meta.begin_transaction();
    tx.put_block_record(hash, &degraded_record(42, 1, 4)).unwrap();
    tx.commit().unwrap();

    let mut tx = meta.begin_transaction();
    let healed = tx.insert_new_block(hash, 42, 3).unwrap();
    tx.commit().unwrap();

    assert!(!healed.is_degraded());
    assert_eq!(healed.rc(), 5, "four holders plus the healing writer");
    assert_eq!(healed.depth(), 3, "the record follows the new file");

    let stored = stored_block(&meta, &hash).unwrap();
    assert_eq!(stored.rc(), 5);
    assert_eq!(stored.depth(), 3);
    assert!(!stored.is_degraded());
}

#[test]
fn bump_block_rc_rolls_back_with_the_transaction() {
    let mut meta = test_store();
    let hash = BlockId::from([0xacu8; BLOCKID_SIZE]);

    let mut tx = meta.begin_transaction();
    tx.insert_new_block(hash, 42, 1).unwrap();
    tx.commit().unwrap();

    let mut tx = meta.begin_transaction();
    tx.bump_block_rc(hash).unwrap().expect("record exists");
    tx.rollback();

    let block = stored_block(&meta, &hash).unwrap();
    assert_eq!(block.rc(), 1, "rolled-back bump must not persist");
}

#[test]
fn bumps_and_decrements_cancel_out() {
    let mut meta = test_store();
    let hash = BlockId::from([0x5au8; 32]);
    let mut tx = meta.begin_transaction();
    assert!(matches!(tx.decrement_block_rc(hash), Ok(BlockDecrement::Missing)));
    tx.insert_new_block(hash, 9, 1).unwrap();
    tx.bump_block_rc(hash).unwrap();
    match tx.decrement_block_rc(hash).unwrap() {
        BlockDecrement::Decremented(block) => assert_eq!(block.rc(), 1),
        _ => panic!("the block has another reference"),
    }
    match tx.decrement_block_rc(hash).unwrap() {
        BlockDecrement::Removed(block) => assert_eq!(block.depth(), 1),
        _ => panic!("this was the last reference"),
    }
    assert!(tx.get_block_record(hash).unwrap().is_none());
    tx.commit().unwrap();
    assert!(stored_block(&meta, &hash).is_none());
    assert!(meta.get_block_tree().unwrap().is_empty().unwrap());
}

#[test]
fn a_damaged_block_record_is_an_error_to_everything_that_reads_it() {
    let mut meta = test_store();
    let hash = BlockId::from([0x5bu8; 32]);
    meta.get_tree(DEFAULT_BLOCK_TREE).unwrap().insert(hash.as_slice(), vec![1, 2, 3]).unwrap();
    let mut tx = meta.begin_transaction();
    assert!(matches!(tx.bump_block_rc(hash), Err(MetaError::Corruption(_))));
    assert!(matches!(tx.decrement_block_rc(hash), Err(MetaError::Corruption(_))));
    assert!(matches!(tx.get_block_record(hash), Err(MetaError::Corruption(_))));
    assert!(matches!(tx.insert_new_block(hash, 1, 1), Err(MetaError::Corruption(_))));
    tx.remove_block_record(hash).unwrap();
    tx.commit().unwrap();
    assert!(stored_block(&meta, &hash).is_none());
}

#[test]
fn the_block_tree_yields_damage_in_its_place() {
    let mut meta = test_store();
    let good = BlockId::from([0x01u8; 32]);
    let bad = BlockId::from([0x02u8; 32]);
    let mut tx = meta.begin_transaction();
    tx.insert_new_block(good, 1, 1).unwrap();
    tx.commit().unwrap();
    let tree = meta.get_tree(DEFAULT_BLOCK_TREE).unwrap();
    tree.insert(bad.as_slice(), vec![0u8; 3]).unwrap();
    tree.insert(b"key", vec![0u8; 17]).unwrap();

    let blocks = meta.get_block_tree().unwrap();
    assert_eq!(blocks.len().unwrap(), 3);
    let all = blocks.iter_all().unwrap();
    assert_eq!(all.len(), 3);
    match &all[0] {
        Ok((id, block)) => {
            assert_eq!(*id, good);
            assert_eq!(block.rc(), 1);
        }
        Err(_) => panic!("the good record decodes"),
    }
    assert!(matches!(all[1], Err(MetaError::Corruption(_))));
    match &all[2] {
        Err(MetaError::OtherDBError(text)) => {
            assert!(text.starts_with("Malformed block key: "), "{text}")
        }
        _ => panic!("a key that is no address"),
    }
}

#[test]
fn insert_bucket_refuses_reserved_names() {
    let mut meta = test_store();

    for name in [
        STORE_HEADER_TREE,
        DEFAULT_BLOCK_TREE,
        MULTIPART_PARTS_TREE,
        UPLOADS_TREE,
        "_",
    ] {
        let raw = BucketMeta::new(name.to_string()).to_vec();
        match meta.insert_bucket(name, raw).unwrap_err() {
            MetaError::ReservedBucketName(refused) => assert_eq!(refused, name),
            other => panic!("unexpected error for {name}: {other:?}"),
        }
    }

    // A name nothing internal uses is refused just the same, and no tree is
    // left behind.
    let raw = BucketMeta::new("_private".to_string()).to_vec();
    assert!(meta.insert_bucket("_private", raw).is_err());
    assert!(!meta.bucket_exists("_private").unwrap());

    // An ordinary name is unaffected.
    let raw = BucketMeta::new("photos".to_string()).to_vec();
    meta.insert_bucket("photos", raw).unwrap();
    assert!(meta.bucket_exists("photos").unwrap());
}

#[test]
fn insert_bucket_if_absent_claims_a_name_once() {
    let mut meta = test_store();

    assert!(
        meta.insert_bucket_if_absent("photos", b"the first record".to_vec()).unwrap(),
        "a free name is claimed"
    );
    assert!(meta.bucket_exists("photos").unwrap(), "and its tree exists");

    assert!(
        !meta.insert_bucket_if_absent("photos", b"a record that must not land".to_vec()).unwrap(),
        "a taken name is refused"
    );
    let stored = meta
        .get_allbuckets_tree()
        .unwrap()
        .get(b"photos")
        .unwrap()
        .expect("the record is there");
    assert_eq!(
        stored, b"the first record",
        "the refusal wrote nothing over what the winner stored"
    );

    // Reserved names are refused before anything is written, exactly as the
    // plain insert refuses them.
    match meta.insert_bucket_if_absent("_private", b"x".to_vec()).unwrap_err() {
        MetaError::ReservedBucketName(name) => assert_eq!(name, "_private"),
        other => panic!("unexpected error: {other:?}"),
    }
    assert!(!meta.bucket_exists("_private").unwrap());
}

#[test]
fn usage_deltas_commit_and_roll_back_with_their_transaction() {
    let mut meta = test_store();
    meta.insert_bucket("photos", BucketMeta::new("photos".to_string()).to_vec()).unwrap();
    assert_eq!(meta.bucket_usage("photos").unwrap(), Some(0));

    let mut tx = meta.begin_transaction();
    assert_eq!(tx.add_bucket_usage("photos", 4096).unwrap(), 4096);
    tx.commit().unwrap();
    assert_eq!(meta.bucket_usage("photos").unwrap(), Some(4096));

    // Rolled back: the record it would have accounted for did not land either,
    // so neither may the number.
    let mut tx = meta.begin_transaction();
    tx.add_bucket_usage("photos", 1_000_000).unwrap();
    tx.rollback();
    assert_eq!(meta.bucket_usage("photos").unwrap(), Some(4096));

    // Down, and then past the floor.
    let mut tx = meta.begin_transaction();
    assert_eq!(tx.add_bucket_usage("photos", -96).unwrap(), 4000);
    assert_eq!(
        tx.add_bucket_usage("photos", -1_000_000).unwrap(),
        0,
        "a counter that would go negative is clamped, not wrapped"
    );
    tx.commit().unwrap();
    assert_eq!(meta.bucket_usage("photos").unwrap(), Some(0));

    // A bucket nothing ever accounted has no counter at all, which is not the
    // same answer as zero.
    assert_eq!(meta.bucket_usage("never-existed").unwrap(), None);
}

#[test]
fn usage_counters_can_be_set_reset_and_damaged() {
    let mut meta = test_store();
    meta.set_bucket_usage("photos", u64::MAX).unwrap();
    assert_eq!(meta.bucket_usage("photos").unwrap(), Some(u64::MAX));
    let mut tx = meta.begin_transaction();
    assert_eq!(tx.add_bucket_usage("photos", 1).unwrap(), u64::MAX, "never past the end");
    tx.reset_bucket_usage("photos").unwrap();
    tx.commit().unwrap();
    assert_eq!(meta.bucket_usage("photos").unwrap(), Some(0));

    meta.get_tree("_USAGE").unwrap().insert(b"photos", vec![1, 2]).unwrap();
    match meta.bucket_usage("photos") {
        Err(MetaError::OtherDBError(text)) => {
            assert_eq!(text, "the usage counter of photos is 2 bytes, not 8")
        }
        _ => panic!("a counter of two bytes is damage"),
    }
}

#[test]
fn list_trees_names_bucket_and_reserved_trees() {
    let (mut meta, _header) = match MetaStore::open_or_create(
        MemStore::new(),
        StoreInit::Create,
        "/meta/db",
        Some(1),
        HeaderSpec::default(),
    ) {
        Ok(opened) => opened,
        Err(e) => panic!("{}", e.to_string()),
    };

    for name in ["photos", "videos"] {
        meta.insert_bucket(name, BucketMeta::new(name.to_string()).to_vec()).unwrap();
    }
    meta.get_tree(DEFAULT_BLOCK_TREE).unwrap();
    meta.get_tree(MULTIPART_PARTS_TREE).unwrap();
    meta.get_tree(UPLOADS_TREE).unwrap();

    let trees = meta.list_trees().unwrap();
    for expected in [
        "photos",
        "videos",
        STORE_HEADER_TREE,
        DEFAULT_BUCKET_TREE,
        DEFAULT_BLOCK_TREE,
        MULTIPART_PARTS_TREE,
        UPLOADS_TREE,
    ] {
        assert!(
            trees.iter().any(|name| name == expected),
            "{expected} missing from {trees:?}"
        );
    }

    // A half-deleted bucket, its row removed and its tree left behind, is
    // exactly what the listing must keep showing.
    meta.get_tree(DEFAULT_BUCKET_TREE).unwrap().remove(b"videos").unwrap();
    assert!(
        meta.list_trees().unwrap().iter().any(|name| name == "videos"),
        "the tree outlives its _BUCKETS row"
    );
}

#[test]
fn buckets_are_listed_by_record_and_by_name() {
    let mut meta = test_store();
    for name in ["b", "a"] {
        meta.insert_bucket(name, BucketMeta::with_ctime(7, name.to_string()).to_vec()).unwrap();
    }
    let buckets = meta.list_buckets().unwrap();
    assert_eq!(buckets.len(), 2);
    assert_eq!(buckets[0].name(), "a");
    assert_eq!(buckets[1].name(), "b");
    assert_eq!(meta.list_bucket_names().unwrap(), vec!["a", "b"]);
    assert_eq!(meta.num_keys().unwrap(), 2);

    let tree = meta.get_tree(DEFAULT_BUCKET_TREE).unwrap();
    tree.insert(b"c", vec![1]).unwrap();
    assert!(matches!(meta.list_buckets(), Err(MetaError::Corruption(_))));
    assert_eq!(meta.list_bucket_names().unwrap(), vec!["a", "b", "c"]);
    let tree = meta.get_tree(DEFAULT_BUCKET_TREE).unwrap();
    tree.insert(&[0xff], vec![1]).unwrap();
    match meta.list_bucket_names() {
        Err(MetaError::OtherDBError(text)) => {
            assert!(text.starts_with("bucket name is not valid utf-8: "), "{text}")
        }
        _ => panic!("a name that is no text"),
    }
}

#[test]
fn dropping_a_bucket_takes_row_counter_and_tree() {
    let mut meta = test_store();
    meta.insert_bucket("photos", BucketMeta::new("photos".to_string()).to_vec()).unwrap();
    meta.insert_meta("photos", "k", object(1, vec![]).to_vec()).unwrap();
    meta.drop_bucket("photos").unwrap();
    assert!(!meta.bucket_exists("photos").unwrap());
    assert_eq!(meta.bucket_usage("photos").unwrap(), None);
    assert!(meta.list_bucket_names().unwrap().is_empty());
    assert!(meta.get_meta("photos", b"k").unwrap().is_none());
    // Dropping it again is not an error.
    meta.drop_bucket("photos").unwrap();
}

/// Reading a bucket that is not there opens its tree, and so it exists then; what
/// is only looked for is not created.
#[test]
fn reading_a_bucket_opens_its_tree() {
    let mut meta = test_store();
    assert!(meta.find_tree("photos").unwrap().is_none());
    assert!(meta.find_block_tree().unwrap().is_empty().unwrap());
    assert!(!meta.bucket_exists("photos").unwrap());
    assert!(meta.list_trees().unwrap().is_empty());

    assert!(meta.get_meta("photos", b"k").unwrap().is_none());
    assert!(meta.bucket_exists("photos").unwrap());
    assert_eq!(meta.get_bucket_ext("films").unwrap().len().unwrap(), 0);
    assert!(meta.bucket_exists("films").unwrap());
    assert_eq!(meta.get_tree_ext(UPLOADS_TREE).unwrap().len().unwrap(), 0);
    assert!(meta.list_bucket_names().unwrap().is_empty());
    assert_eq!(meta.bucket_usage("photos").unwrap(), None);
    assert!(meta.get_block_tree().unwrap().is_empty().unwrap());

    let mut trees = meta.list_trees().unwrap();
    trees.sort();
    assert_eq!(
        trees,
        vec![
            DEFAULT_BLOCK_TREE,
            DEFAULT_BUCKET_TREE,
            UPLOADS_TREE,
            DEFAULT_USAGE_TREE,
            "films",
            "photos"
        ]
    );
}

#[test]
fn inlining_needs_room_for_the_record() {
    assert_eq!(MetaStore::new(MemStore::new(), None).max_inlined_data_length(), 0);
    assert_eq!(MetaStore::new(MemStore::new(), Some(41)).max_inlined_data_length(), 0);
    assert_eq!(MetaStore::new(MemStore::new(), Some(141)).max_inlined_data_length(), 100);
}

/// An object record naming `blocks`, at a hash derived from `tag` so two
/// fixtures are never mistaken for each other.
fn object(tag: u8, blocks: Vec<BlockId>) -> Object {
    Object::new(1024, ContentHash::from([tag; 16]), ObjectData::SinglePart { blocks })
}

fn stored_object(meta: &mut MetaStore<MemStore>, bucket: &str, key: &str) -> Option<Object> {
    meta.get_meta(bucket, key.as_bytes()).unwrap()
}

#[test]
fn replace_object_on_a_free_key_displaces_nothing() {
    let mut meta = test_store();
    let fresh = object(0x01, vec![BlockId::from([0x11u8; BLOCKID_SIZE])]);

    let mut tx = meta.begin_transaction();
    let displaced = tx.replace_object("photos", b"a", fresh.to_vec()).unwrap();
    tx.commit().unwrap();

    assert!(displaced.is_none(), "nothing was there to displace");
    assert_eq!(stored_object(&mut meta, "photos", "a").unwrap().blocks(), fresh.blocks());
}

#[test]
fn replace_object_returns_what_it_overwrote() {
    let mut meta = test_store();
    let old = object(0x01, vec![BlockId::from([0x11u8; BLOCKID_SIZE])]);
    let new = object(0x02, vec![BlockId::from([0x22u8; BLOCKID_SIZE])]);

    let mut tx = meta.begin_transaction();
    tx.replace_object("photos", b"a", old.to_vec()).unwrap();
    tx.commit().unwrap();

    let mut tx = meta.begin_transaction();
    let displaced = tx.replace_object("photos", b"a", new.to_vec()).unwrap();
    tx.commit().unwrap();

    assert_eq!(
        displaced.expect("the old record").blocks(),
        old.blocks(),
        "the displaced record is the caller's to release"
    );
    assert_eq!(
        stored_object(&mut meta, "photos", "a").unwrap().blocks(),
        new.blocks(),
        "the new record is the visible one"
    );
}

#[test]
fn sequential_replaces_each_displace_the_previous_record() {
    let mut meta = test_store();

    let mut previous: Option<Object> = None;
    for tag in 1u8..=4 {
        let next = object(tag, vec![BlockId::from([tag; BLOCKID_SIZE])]);
        let mut tx = meta.begin_transaction();
        let displaced = tx.replace_object("photos", b"a", next.to_vec()).unwrap();
        tx.commit().unwrap();

        match (&previous, &displaced) {
            (None, None) => {}
            (Some(prev), Some(got)) => assert_eq!(
                got.blocks(),
                prev.blocks(),
                "each replace displaces exactly the previous record"
            ),
            other => panic!("displacement mismatch at tag {tag}: {other:?}"),
        }
        previous = Some(next);
    }

    assert_eq!(
        stored_object(&mut meta, "photos", "a").unwrap().blocks(),
        &[BlockId::from([4u8; BLOCKID_SIZE])],
        "the last writer's record survives"
    );
}

#[test]
fn replace_object_rolls_back_with_the_transaction() {
    let mut meta = test_store();
    let old = object(0x01, vec![BlockId::from([0x11u8; BLOCKID_SIZE])]);
    let new = object(0x02, vec![BlockId::from([0x22u8; BLOCKID_SIZE])]);

    let mut tx = meta.begin_transaction();
    tx.replace_object("photos", b"a", old.to_vec()).unwrap();
    tx.commit().unwrap();

    let mut tx = meta.begin_transaction();
    tx.replace_object("photos", b"a", new.to_vec()).unwrap();
    tx.rollback();

    assert_eq!(
        stored_object(&mut meta, "photos", "a").unwrap().blocks(),
        old.blocks(),
        "a rolled-back replace leaves the original record"
    );
}

#[test]
fn replace_object_refuses_to_overwrite_an_undecodable_record() {
    let mut meta = test_store();
    meta.get_tree("photos").unwrap().insert(b"a", vec![0xffu8; 3]).unwrap();

    let new = object(0x02, vec![BlockId::from([0x22u8; BLOCKID_SIZE])]);
    let mut tx = meta.begin_transaction();
    assert!(tx.replace_object("photos", b"a", new.to_vec()).is_err());
    tx.rollback();

    assert_eq!(
        meta.get_bucket_ext("photos").unwrap().get(b"a").unwrap().unwrap(),
        vec![0xffu8; 3],
        "the unreadable record is left exactly as found"
    );
}

#[test]
fn records_are_taken_once() {
    let mut meta = test_store();
    meta.insert_meta("photos", "a", object(1, vec![]).to_vec()).unwrap();
    let upload = UploadRecord::with_created_at(1, "b".into(), "k".into(), "u".into());
    meta.get_tree(UPLOADS_TREE).unwrap().insert(b"up", upload.to_vec()).unwrap();
    meta.get_tree(MULTIPART_PARTS_TREE).unwrap().insert(b"part", vec![1, 2]).unwrap();

    let mut tx = meta.begin_transaction();
    assert!(tx.take_object("photos", b"a").unwrap().is_some());
    assert!(tx.take_object("photos", b"a").unwrap().is_none());
    assert_eq!(tx.take_upload(b"up").unwrap().unwrap().upload_id(), "u");
    assert!(tx.take_upload(b"up").unwrap().is_none());
    assert_eq!(tx.take_part(b"part").unwrap(), Some(vec![1, 2]));
    assert_eq!(tx.take_part(b"part").unwrap(), None);
    tx.put_bucket_record("photos", b"row".to_vec()).unwrap();
    assert_eq!(tx.get_bucket_record("photos").unwrap(), Some(b"row".to_vec()));
    tx.commit().unwrap();
    assert!(stored_object(&mut meta, "photos", "a").is_none());
    assert_eq!(
        meta.get_tree_ext(UPLOADS_TREE).unwrap().iter_all().unwrap().len(),
        0
    );
}

#[test]
fn shared_prefix_needs_no_allocation() {
    let mut meta = test_store();
    let first = BlockId::from([0x11u8; BLOCKID_SIZE]);
    let mut second_bytes = [0x11u8; BLOCKID_SIZE];
    second_bytes[1] = 0x22;
    let second = BlockId::from(second_bytes);

    let mut tx = meta.begin_transaction();
    let first_block = tx.insert_new_block(first, 1, 1).unwrap();
    tx.commit().unwrap();

    let mut tx = meta.begin_transaction();
    let second_block = tx.insert_new_block(second, 1, 1).unwrap();
    tx.commit().unwrap();

    let p1 = first_block.disk_path(&first, "/data".to_string());
    let p2 = second_block.disk_path(&second, "/data".to_string());
    assert_eq!(
        p1.rsplit_once('/').unwrap().0,
        p2.rsplit_once('/').unwrap().0,
        "same depth-1 dir"
    );
    assert_ne!(p1, p2, "full-id names never collide");
}
