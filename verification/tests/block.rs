use cas_storage::bytes::{bytes_below, equal_bytes, has_prefix};
use cas_storage::metastore::block::{join_path, DEGRADED_FLAG};
use cas_storage::metastore::{
    block_disk_path, Block, BlockId, FsError, BLOCKID_SIZE, MAX_BLOCKID_SIZE,
};

#[test]
fn equality_follows_significant_bytes() {
    let a = BlockId::from([7u8; BLOCKID_SIZE]);
    let b = BlockId::from_slice(&[7u8; BLOCKID_SIZE]).unwrap();
    assert_eq!(a, b);
    assert_eq!(a.as_slice(), b.as_slice());

    let mut other = [7u8; BLOCKID_SIZE];
    other[15] = 8;
    let c = BlockId::from(other);
    assert_ne!(a, c);
}

#[test]
fn same_prefix_different_width_is_not_equal() {
    // A 32 byte id whose first 16 bytes match a 16 byte id, with the rest
    // zero: only the width differs.
    let narrow = BlockId::from([1u8; BLOCKID_SIZE]);
    let mut wide_bytes = [0u8; MAX_BLOCKID_SIZE];
    wide_bytes[..BLOCKID_SIZE].copy_from_slice(&[1u8; BLOCKID_SIZE]);
    let wide = BlockId::from(wide_bytes);

    assert_ne!(narrow, wide);
    assert_ne!(narrow.as_slice(), wide.as_slice());
    // Ordering agrees with the byte strings: the prefix sorts first.
    assert!(narrow < wide);
    assert!(narrow.as_slice() < wide.as_slice());
}

#[test]
fn ordering_matches_slice_ordering() {
    let small = BlockId::from([0x01u8; BLOCKID_SIZE]);
    let big = BlockId::from([0xffu8; MAX_BLOCKID_SIZE]);
    assert!(small < big);
    assert!(small.as_slice() < big.as_slice());

    let wide_small = BlockId::from([0x01u8; MAX_BLOCKID_SIZE]);
    let narrow_big = BlockId::from([0xffu8; BLOCKID_SIZE]);
    assert!(wide_small < narrow_big);
    assert!(wide_small.as_slice() < narrow_big.as_slice());
}

#[test]
fn padding_is_zero_for_both_widths() {
    let narrow = BlockId::from_slice(&[0xabu8; BLOCKID_SIZE]).unwrap();
    assert_eq!(narrow.len(), BLOCKID_SIZE);
    assert!(!narrow.is_empty());
    assert_eq!(narrow.as_slice(), &[0xabu8; BLOCKID_SIZE]);
    // Behind the significant bytes there is nothing to tell a narrow id from a
    // wide one that continues in zeros but the width: in the derived order the
    // narrow one stands directly before it.
    let mut zeros = [0u8; MAX_BLOCKID_SIZE];
    zeros[..BLOCKID_SIZE].copy_from_slice(&[0xabu8; BLOCKID_SIZE]);
    assert!(narrow.cmp(&BlockId::from(zeros)).is_lt());

    let wide = BlockId::from_slice(&[0xcdu8; MAX_BLOCKID_SIZE]).unwrap();
    assert_eq!(wide.len(), MAX_BLOCKID_SIZE);
    assert_eq!(wide.as_slice(), &[0xcdu8; MAX_BLOCKID_SIZE]);

    // The From impl pads too.
    let from_array = BlockId::from([0xabu8; BLOCKID_SIZE]);
    assert_eq!(from_array, narrow);
    assert!(from_array.cmp(&BlockId::from(zeros)).is_lt());
}

#[test]
fn from_slice_rejects_other_widths() {
    for width in [0usize, 1, 15, 17, 31, 33, 64] {
        let err = BlockId::from_slice(&vec![0u8; width]).unwrap_err();
        let expected = u8::try_from(width).unwrap_or(u8::MAX);
        assert_eq!(err, FsError::InvalidIdWidth(expected));
    }
}

#[test]
fn hex_rendering_covers_only_significant_bytes() {
    let narrow = BlockId::from([0u8; BLOCKID_SIZE]);
    assert_eq!(narrow.to_hex().len(), BLOCKID_SIZE * 2);
    let wide = BlockId::from([0u8; MAX_BLOCKID_SIZE]);
    assert_eq!(wide.to_hex().len(), MAX_BLOCKID_SIZE * 2);
}

#[test]
fn hex_is_lowercase_high_half_first() {
    let mut bytes = [0u8; BLOCKID_SIZE];
    bytes[0] = 0xab;
    bytes[1] = 0x01;
    bytes[15] = 0xf0;
    assert_eq!(
        BlockId::from(bytes).to_hex(),
        "ab0100000000000000000000000000f0"
    );
}

const GOLDEN_DEPTH_2: &[u8] = &[
    // size = 4096
    0x00, 0x10, 0x00, 0x00, 0x00, 0x00, 0x00, 0x00, // depth = 2
    0x02, // rc = 3
    0x03, 0x00, 0x00, 0x00, 0x00, 0x00, 0x00, 0x00,
];

const GOLDEN_DEPTH_MAX: &[u8] = &[
    // size = 0x01020304
    0x04, 0x03, 0x02, 0x01, 0x00, 0x00, 0x00, 0x00, // depth = 32
    0x20, // rc = 10
    0x0a, 0x00, 0x00, 0x00, 0x00, 0x00, 0x00, 0x00,
];

fn golden_blocks() -> Vec<(&'static str, Block, &'static [u8])> {
    vec![
        (
            "depth_2",
            Block { size: 4096, depth: 2, rc: 3, flags: 0 },
            GOLDEN_DEPTH_2,
        ),
        (
            "depth_max",
            Block { size: 0x0102_0304, depth: MAX_BLOCKID_SIZE as u8, rc: 10, flags: 0 },
            GOLDEN_DEPTH_MAX,
        ),
    ]
}

#[test]
fn block_golden_serialization() {
    for (name, block, expected) in golden_blocks() {
        assert_eq!(block.to_vec(), expected, "golden mismatch for {name}");
    }
}

#[test]
fn block_golden_deserialization() {
    for (name, block, expected) in golden_blocks() {
        let decoded = match Block::try_from(expected) {
            Ok(decoded) => decoded,
            Err(e) => panic!("{name}: {}", e.to_string()),
        };
        assert_eq!(decoded.size(), block.size(), "{name} size");
        assert_eq!(decoded.depth(), block.depth(), "{name} depth");
        assert_eq!(decoded.rc(), block.rc(), "{name} rc");
    }
}

#[test]
fn malformed_block_records() {
    // Truncated at every field boundary.
    for cut in [0usize, 1, 7, 8, 9, 16] {
        assert!(
            matches!(
                Block::try_from(&GOLDEN_DEPTH_2[..cut]),
                Err(FsError::Truncated { record: "Block", .. })
            ),
            "expected Truncated when cut at {cut}"
        );
    }

    // One byte too many.
    let mut extra = GOLDEN_DEPTH_2.to_vec();
    extra.push(0);
    assert_eq!(
        Block::try_from(extra.as_slice()).unwrap_err(),
        FsError::TrailingBytes { record: "Block", extra: 1 }
    );
}

#[test]
fn a_flags_byte_is_written_only_when_it_says_something() {
    let mut block = Block::new(4096, 2);
    assert_eq!(block.rc(), 1);
    assert_eq!(block.flags(), 0);
    assert_eq!(block.to_vec().len(), 17);
    block.set_degraded(true);
    assert!(block.is_degraded());
    assert_eq!(block.flags(), DEGRADED_FLAG);
    let raw = block.to_vec();
    assert_eq!(raw.len(), 18);
    assert_eq!(raw[17], 1);
    assert_eq!(Block::try_from(&raw).unwrap(), block);
    block.set_degraded(false);
    assert_eq!(block.to_vec().len(), 17);

    // Flags this build does not know are carried along.
    let mut other = Block::from_parts(1, 1, 1, 0x82);
    other.set_degraded(true);
    assert_eq!(other.flags(), 0x83);
    other.set_degraded(false);
    assert_eq!(other.flags(), 0x82);
}

#[test]
fn references_go_up_and_down() {
    let mut block = Block::new(10, 1);
    block.increment_refcount();
    assert_eq!(block.rc(), 2);
    block.decrement_refcount();
    assert_eq!(block.rc(), 1);
}

#[test]
fn disk_path_layout() {
    let mut bytes = [0u8; BLOCKID_SIZE];
    bytes[0] = 0xab;
    bytes[1] = 0x01;
    bytes[2] = 0xff;
    let id = BlockId::from(bytes);
    let hex = id.to_hex();

    let d1 = block_disk_path(&id, 1, "/data/blocks".to_string());
    assert_eq!(d1, format!("/data/blocks/ab/{hex}"));

    let d3 = block_disk_path(&id, 3, "/data/blocks".to_string());
    assert_eq!(d3, format!("/data/blocks/ab/01/ff/{hex}"));

    // Any depth locates the same block by name: only the dir chain moves.
    assert_eq!(d1.rsplit('/').next(), d3.rsplit('/').next());
}

#[test]
fn disk_path_clamps_out_of_range_depths() {
    let id = BlockId::from([0x11u8; BLOCKID_SIZE]);
    let root = "/r".to_string();

    assert_eq!(
        block_disk_path(&id, 0, root.clone()),
        block_disk_path(&id, 1, root.clone())
    );
    assert_eq!(
        block_disk_path(&id, u8::MAX, root.clone()),
        block_disk_path(&id, BLOCKID_SIZE as u8, root)
    );
}

#[test]
fn no_two_blocks_or_depths_share_a_path() {
    let ids = [
        BlockId::from([0x11u8; 16]),
        BlockId::from([0x11u8; 32]),
        BlockId::from([0x12u8; 16]),
    ];
    let mut paths: Vec<String> = Vec::new();
    for id in &ids {
        for depth in 1u8..=5 {
            let path = block_disk_path(id, depth, "/r".to_string());
            assert!(!paths.contains(&path), "{path} twice");
            paths.push(path);
        }
    }
}

#[test]
fn paths_join_with_one_separator() {
    assert_eq!(join_path("", "a"), "a");
    assert_eq!(join_path("/", "a"), "/a");
    assert_eq!(join_path("x", "a"), "x/a");
    assert_eq!(join_path("x/", "a"), "x/a");
}

#[test]
fn byte_strings_compare_lexicographically() {
    assert!(equal_bytes(b"abc", b"abc"));
    assert!(!equal_bytes(b"abc", b"abd"));
    assert!(!equal_bytes(b"abc", b"ab"));
    assert!(bytes_below(b"ab", b"abc"));
    assert!(bytes_below(b"ab", b"b"));
    assert!(!bytes_below(b"b", b"ab"));
    assert!(!bytes_below(b"b", b"b"));
    assert!(has_prefix(b"abc", b"ab"));
    assert!(has_prefix(b"abc", b""));
    assert!(!has_prefix(b"ab", b"abc"));
}
