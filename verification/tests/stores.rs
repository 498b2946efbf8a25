use cas_storage::metastore::meta_store::{MULTIPART_PARTS_TREE, UPLOADS_TREE};
use cas_storage::metastore::stores::ack::{ack_persist_for, AckPersist};
use cas_storage::metastore::stores::memory::{MemStore, MemTree};
use cas_storage::metastore::traits::{
    BaseMetaTree, Durability, KeyValuePairs, MetaTreeExt, Store, TransactionBackend,
};
use cas_storage::metastore::{BlockId, ContentHash, Object, ObjectData};

fn check_ack_table() {
    assert_eq!(ack_persist_for(MULTIPART_PARTS_TREE), AckPersist::Recoverable);
    assert_eq!(ack_persist_for(UPLOADS_TREE), AckPersist::Recoverable);
    for contract in ["some-bucket", "_BLOCKS", "acked", "respcas-ns"] {
        assert_eq!(
            ack_persist_for(contract),
            AckPersist::Contract,
            "{contract} must persist per ack: its loss would be silent"
        );
    }
}

#[test]
fn fjall_the_ack_persist_table_is_exactly_the_multipart_state_trees() {
    check_ack_table();
}

#[test]
fn tests_the_ack_persist_table_is_exactly_the_multipart_state_trees() {
    check_ack_table();
}

fn sample(size: u64) -> Vec<u8> {
    Object::new(
        size,
        ContentHash::from([1; 16]),
        ObjectData::SinglePart { blocks: vec![BlockId::from([1; 16])] },
    )
    .to_vec()
}

fn tree<'a>(store: &'a MemStore, name: &str) -> &'a MemTree {
    store.tree_find(name).unwrap().expect("the tree exists")
}

#[test]
fn test_num_keys() {
    let mut store = MemStore::new();
    let name = "test-num-keys";
    store.tree_open(name).unwrap();
    assert_eq!(store.num_keys(name).unwrap(), 0);

    let keys = ["a", "b", "c", "d", "e"];
    for key in &keys {
        store.tree_open(name).unwrap().insert(key.as_bytes(), sample(1024)).unwrap();
    }
    assert_eq!(store.num_keys(name).unwrap(), keys.len());

    // A tree that was never written to still counts, and counts zero.
    assert_eq!(store.num_keys("test-num-keys-empty").unwrap(), 0);
}

fn walk(rows: KeyValuePairs) -> Vec<Vec<u8>> {
    rows.into_iter().map(|kv| kv.0).collect()
}

#[test]
fn test_iter_kv_is_a_mirror_of_iter_kv_backward() {
    let mut store = MemStore::new();
    let name = "test-iter-kv";
    let keys = [b"a".to_vec(), b"b".to_vec(), b"c".to_vec(), b"d".to_vec(), b"e".to_vec()];
    for key in &keys {
        store.tree_open(name).unwrap().insert(key, b"value".to_vec()).unwrap();
    }
    let t = tree(&store, name);

    // No cursor: everything, from each end.
    assert_eq!(walk(t.iter_kv(None).unwrap()), keys.to_vec());
    let mut backward = keys.to_vec();
    backward.reverse();
    assert_eq!(
        walk(t.iter_kv_backward(None).unwrap()),
        backward,
        "a backward walk with no cursor starts at the largest key"
    );

    // A cursor is exclusive in both directions.
    assert_eq!(
        walk(t.iter_kv(Some(b"c".to_vec())).unwrap()),
        vec![b"d".to_vec(), b"e".to_vec()]
    );
    assert_eq!(
        walk(t.iter_kv_backward(Some(b"c".to_vec())).unwrap()),
        vec![b"b".to_vec(), b"a".to_vec()]
    );

    // The ends: past the last key in either direction is an empty walk, and the
    // empty key is a cursor like any other going forward.
    assert!(walk(t.iter_kv(Some(b"e".to_vec())).unwrap()).is_empty());
    assert!(walk(t.iter_kv_backward(Some(b"a".to_vec())).unwrap()).is_empty());
    assert_eq!(walk(t.iter_kv(Some(Vec::new())).unwrap()), keys.to_vec());

    // And a tree with nothing in it walks to nothing either way.
    store.tree_open("test-iter-kv-empty").unwrap();
    let empty = tree(&store, "test-iter-kv-empty");
    assert_eq!(empty.iter_kv(None).unwrap().len(), 0);
    assert_eq!(empty.iter_kv_backward(None).unwrap().len(), 0);
}

#[test]
fn test_list_trees() {
    let mut store = MemStore::new();
    assert!(store.list_trees().unwrap().is_empty(), "a store with no trees lists none");

    // A tree exists from the moment it is opened, reserved names included.
    for name in ["alpha", "beta", "_RESERVED"] {
        store.tree_open(name).unwrap();
    }

    let mut trees = store.list_trees().unwrap();
    trees.sort();
    assert_eq!(trees, vec!["_RESERVED", "alpha", "beta"]);
}

#[test]
fn test_get_bucket_keys() {
    let mut store = MemStore::new();
    let name = "testbucketkeys";
    let keys = vec!["a", "b", "c"];
    for key in &keys {
        store.tree_open(name).unwrap().insert(key.as_bytes(), sample(1024)).unwrap();
    }
    let found: Vec<String> = tree(&store, name)
        .iter_all()
        .unwrap()
        .into_iter()
        .map(|kv| String::from_utf8(kv.0).unwrap())
        .collect();
    assert_eq!(found.len(), keys.len());
    for key in found {
        assert!(keys.contains(&key.as_str()));
    }

    store.tree_open("empty-bucket").unwrap();
    assert_eq!(tree(&store, "empty-bucket").iter_all().unwrap().len(), 0);
}

fn filtered(
    t: &MemTree,
    start_after: Option<&str>,
    prefix: Option<&str>,
    token: Option<&str>,
) -> Vec<String> {
    t.range_filter(
        start_after.map(|s| s.to_string()),
        prefix.map(|s| s.to_string()),
        token.map(|s| s.to_string()),
    )
    .unwrap()
    .into_iter()
    .map(|(k, _)| k)
    .collect()
}

#[test]
fn test_range_filter() {
    let mut store = MemStore::new();
    let name = "test-bucket";
    // Unordered keys.
    for (key, data) in [
        ("c/1", "data5"),
        ("b/2", "data4"),
        ("a/1", "data1"),
        ("b/1", "data3"),
        ("a/2", "data2"),
    ] {
        let object = sample(data.len() as u64);
        store.tree_open(name).unwrap().insert(key.as_bytes(), object).unwrap();
    }
    let t = tree(&store, name);

    // 1. No filters
    let results = filtered(t, None, None, None);
    assert_eq!(results.len(), 5);
    assert_eq!(results[0], "a/1");

    // 2. With start_after
    let results = filtered(t, Some("a/2"), None, None);
    assert_eq!(results.len(), 3);
    assert_eq!(results[0], "b/1");

    // 3. With prefix
    let results = filtered(t, None, Some("b"), None);
    assert_eq!(results.len(), 2);
    assert!(results.iter().all(|k| k.starts_with("b/")));

    // 4. With continuation token
    let results = filtered(t, None, None, Some("b/1"));
    assert_eq!(results.len(), 2);
    assert_eq!(results[0], "b/2");

    // 5. With both start_after and continuation token
    let results = filtered(t, Some("b/1"), None, Some("a/2"));
    assert_eq!(results.len(), 2);
    assert_eq!(results[0], "b/2");

    // A cursor behind all keys with the prefix leaves nothing.
    assert_eq!(filtered(t, None, Some("b"), Some("c")).len(), 0);

    // token < prefix, can be discarded
    assert_eq!(filtered(t, None, Some("b/"), Some("b")), vec!["b/1", "b/2"]);

    // token has prefix, token > prefix
    assert_eq!(filtered(t, None, Some("b/"), Some("b/0")), vec!["b/1", "b/2"]);
    assert_eq!(filtered(t, None, Some("b/"), Some("b/1")), vec!["b/2"]);
}

/// Page after page, everything is shown once.
#[test]
fn a_listing_resumed_at_a_key_shows_the_rest() {
    let mut store = MemStore::new();
    for key in ["b/2", "a/1", "b", "b/1", "c", "b/10"] {
        store.tree_open("bucket").unwrap().insert(key.as_bytes(), sample(1)).unwrap();
    }
    let t = tree(&store, "bucket");
    for prefix in [None, Some("b"), Some("b/")] {
        let full = filtered(t, None, prefix, None);
        for (i, key) in full.iter().enumerate() {
            assert_eq!(filtered(t, None, prefix, Some(key)), full[i + 1..].to_vec());
            assert_eq!(filtered(t, Some(key), prefix, None), full[i + 1..].to_vec());
        }
    }
}

#[test]
fn a_listing_leaves_out_what_is_no_object() {
    let mut store = MemStore::new();
    let t = store.tree_open("b").unwrap();
    t.insert(b"good", sample(1)).unwrap();
    t.insert(b"junk", vec![0xff; 3]).unwrap();
    t.insert(&[0xff, 0xfe], sample(1)).unwrap();
    assert_eq!(filtered(tree(&store, "b"), None, None, None), vec!["good"]);
    assert_eq!(tree(&store, "b").len().unwrap(), 3);
    assert!(!tree(&store, "b").is_empty().unwrap());
    assert!(tree(&store, "b").contains_key(b"junk").unwrap());
}

#[test]
fn a_transaction_is_all_or_nothing() {
    let mut store = MemStore::new();
    store.begin();
    store.insert("t", b"k", b"v".to_vec()).unwrap();
    assert_eq!(store.get("t", b"k").unwrap(), Some(b"v".to_vec()), "reads see own writes");
    store.rollback();
    assert_eq!(store.get("t", b"k").unwrap(), None, "the write is discarded");
    store.begin();
    assert_eq!(store.get("t", b"k").unwrap(), None);
    store.insert("t", b"k", b"w".to_vec()).unwrap();
    store.commit().unwrap();
    store.begin();
    assert_eq!(store.get("t", b"k").unwrap(), Some(b"w".to_vec()));
    store.remove("t", b"k").unwrap();
    store.rollback();
    assert_eq!(store.get("t", b"k").unwrap(), Some(b"w".to_vec()), "and so is the removal");
    store.commit().unwrap();
    assert_eq!(store.num_keys("t").unwrap(), 1, "there was nothing left to commit");
    store.begin();
    store.remove("t", b"k").unwrap();
    store.remove("t", b"absent").unwrap();
    store.commit().unwrap();
    assert_eq!(store.num_keys("t").unwrap(), 0);
    store.tree_delete("t").unwrap();
    assert!(!store.tree_exists("t").unwrap());
}

/// A tree that is opened, counted or read in a transaction is there afterwards;
/// one that is only looked for is not.
#[test]
fn opening_a_tree_creates_it_and_finding_does_not() {
    let mut store = MemStore::new();
    assert!(store.tree_find("found").unwrap().is_none());
    assert!(!store.tree_exists("found").unwrap());

    assert_eq!(store.tree_ext_open("opened").unwrap().len().unwrap(), 0);
    assert!(store.tree_exists("opened").unwrap());
    assert!(store.tree_find("opened").unwrap().is_some());

    assert_eq!(store.num_keys("counted").unwrap(), 0);
    assert!(store.tree_exists("counted").unwrap());

    store.begin();
    assert_eq!(store.get("read", b"k").unwrap(), None);
    store.insert("written", b"k", b"v".to_vec()).unwrap();
    store.remove("removed", b"k").unwrap();
    store.rollback();
    for name in ["read", "written", "removed"] {
        assert!(store.tree_exists(name).unwrap(), "{name}");
        assert!(tree(&store, name).is_empty().unwrap(), "{name}");
    }
}

#[test]
fn durability_levels_read_back_as_they_are_written() {
    for level in [Durability::Buffer, Durability::Fsync] {
        assert_eq!(Durability::from_str(&level.to_string()), Ok(level));
    }
    assert_eq!(Durability::from_str("FSYNC"), Ok(Durability::Fsync));
    assert_eq!(Durability::from_str("Buffer"), Ok(Durability::Buffer));
    let removed = Durability::from_str("fdatasync").unwrap_err();
    assert!(removed.contains("the fdatasync durability level was removed"), "{removed}");
    let unknown = Durability::from_str("sometimes").unwrap_err();
    assert!(unknown.contains("sometimes"), "{unknown}");
}
