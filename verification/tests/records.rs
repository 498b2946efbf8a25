use cas_storage::cas::multipart::MultiPart;
use cas_storage::metastore::{
    BlockId, BucketMeta, ContentHash, FsError, MetaError, Object, ObjectData, ObjectType,
    UploadRecord, BLOCKID_SIZE,
};

const BUCKET_NAMED: &[u8] = &[
    // ctime = 0x0102030405060708
    0x08, 0x07, 0x06, 0x05, 0x04, 0x03, 0x02, 0x01, // name_len = 6
    0x06, 0x00, 0x00, 0x00, 0x00, 0x00, 0x00, 0x00, // name = "bucket"
    0x62, 0x75, 0x63, 0x6b, 0x65, 0x74,
];

const BUCKET_EMPTY_NAME: &[u8] = &[
    // ctime = -1
    0xff, 0xff, 0xff, 0xff, 0xff, 0xff, 0xff, 0xff, // name_len = 0
    0x00, 0x00, 0x00, 0x00, 0x00, 0x00, 0x00, 0x00,
];

fn golden_buckets() -> Vec<(&'static str, BucketMeta, &'static [u8])> {
    vec![
        (
            "named",
            BucketMeta::with_ctime(0x0102_0304_0506_0708, "bucket".to_string()),
            BUCKET_NAMED,
        ),
        (
            "empty_name",
            BucketMeta::with_ctime(-1, String::new()),
            BUCKET_EMPTY_NAME,
        ),
    ]
}

#[test]
fn bucket_meta_golden_serialization() {
    for (name, bucket, expected) in golden_buckets() {
        assert_eq!(bucket.to_vec(), expected, "golden mismatch for {name}");
    }
}

#[test]
fn bucket_meta_golden_deserialization() {
    for (label, bucket, expected) in golden_buckets() {
        let decoded = match BucketMeta::try_from(expected) {
            Ok(decoded) => decoded,
            Err(e) => panic!("{label}: {}", e.to_string()),
        };
        assert_eq!(decoded.ctime(), bucket.ctime(), "{label} ctime");
        assert_eq!(decoded.name(), bucket.name(), "{label} name");
    }
}

#[test]
fn malformed_bucket_meta_records() {
    // Truncated at every field boundary.
    for cut in [0usize, 4, 8, 12, 15, 16, 21] {
        assert!(
            matches!(
                BucketMeta::try_from(&BUCKET_NAMED[..cut]),
                Err(FsError::Truncated { record: "BucketMeta", .. })
            ),
            "expected Truncated when cut at {cut}"
        );
    }

    // One byte too many.
    let mut extra = BUCKET_NAMED.to_vec();
    extra.push(0);
    assert_eq!(
        BucketMeta::try_from(extra.as_slice()).unwrap_err(),
        FsError::TrailingBytes { record: "BucketMeta", extra: 1 }
    );

    // A name shorter than the record leaves trailing bytes.
    let mut short_name = BUCKET_NAMED.to_vec();
    short_name[8] = 0x05;
    assert_eq!(
        BucketMeta::try_from(short_name.as_slice()).unwrap_err(),
        FsError::TrailingBytes { record: "BucketMeta", extra: 1 }
    );

    // A length nothing could satisfy must not overflow the offset maths.
    let mut huge = BUCKET_NAMED.to_vec();
    huge[8..16].copy_from_slice(&u64::MAX.to_le_bytes());
    assert!(matches!(
        BucketMeta::try_from(huge.as_slice()),
        Err(FsError::LengthOverflow { record: "BucketMeta", .. })
    ));

    // A name that is not UTF-8.
    let mut bad_utf8 = BUCKET_NAMED.to_vec();
    bad_utf8[16] = 0xff;
    assert_eq!(
        BucketMeta::try_from(bad_utf8.as_slice()).unwrap_err(),
        FsError::InvalidUtf8 { record: "BucketMeta", field: "name" }
    );
}

const UPLOAD_NAMED: &[u8] = &[
    // created_at = 0x0102030405060708
    0x08, 0x07, 0x06, 0x05, 0x04, 0x03, 0x02, 0x01, // bucket_len = 6
    0x06, 0x00, 0x00, 0x00, 0x00, 0x00, 0x00, 0x00, // bucket = "bucket"
    0x62, 0x75, 0x63, 0x6b, 0x65, 0x74, // key_len = 3
    0x03, 0x00, 0x00, 0x00, 0x00, 0x00, 0x00, 0x00, // key = "key"
    0x6b, 0x65, 0x79, // upload_id_len = 2
    0x02, 0x00, 0x00, 0x00, 0x00, 0x00, 0x00, 0x00, // upload_id = "u1"
    0x75, 0x31,
];

const NAMED_BUCKET_LEN_AT: usize = 8;
const NAMED_BUCKET_AT: usize = 16;
const NAMED_KEY_LEN_AT: usize = 22;
const NAMED_KEY_AT: usize = 30;
const NAMED_UPLOAD_ID_LEN_AT: usize = 33;
const NAMED_UPLOAD_ID_AT: usize = 41;

const UPLOAD_EMPTY: &[u8] = &[
    // created_at = -1
    0xff, 0xff, 0xff, 0xff, 0xff, 0xff, 0xff, 0xff, // bucket_len = 0
    0x00, 0x00, 0x00, 0x00, 0x00, 0x00, 0x00, 0x00, // key_len = 0
    0x00, 0x00, 0x00, 0x00, 0x00, 0x00, 0x00, 0x00, // upload_id_len = 0
    0x00, 0x00, 0x00, 0x00, 0x00, 0x00, 0x00, 0x00,
];

fn golden_uploads() -> Vec<(&'static str, UploadRecord, &'static [u8])> {
    vec![
        (
            "named",
            UploadRecord::with_created_at(
                0x0102_0304_0506_0708,
                "bucket".to_string(),
                "key".to_string(),
                "u1".to_string(),
            ),
            UPLOAD_NAMED,
        ),
        (
            "empty",
            UploadRecord::with_created_at(-1, String::new(), String::new(), String::new()),
            UPLOAD_EMPTY,
        ),
    ]
}

/// Copies `src` with the bytes at `at` replaced by `patch`.
fn patched(src: &[u8], at: usize, patch: &[u8]) -> Vec<u8> {
    let mut out = src.to_vec();
    out[at..at + patch.len()].copy_from_slice(patch);
    out
}

#[test]
fn upload_record_golden_serialization() {
    for (label, record, expected) in golden_uploads() {
        assert_eq!(record.to_vec(), expected, "golden mismatch for {label}");
    }
}

#[test]
fn upload_record_golden_deserialization() {
    for (label, record, expected) in golden_uploads() {
        let decoded = match UploadRecord::try_from(expected) {
            Ok(decoded) => decoded,
            Err(e) => panic!("{label}: {}", e.to_string()),
        };
        assert_eq!(decoded.created_at(), record.created_at(), "{label} created_at");
        assert_eq!(decoded.bucket(), record.bucket(), "{label} bucket");
        assert_eq!(decoded.key(), record.key(), "{label} key");
        assert_eq!(decoded.upload_id(), record.upload_id(), "{label} upload_id");
    }
}

/// The clock read lives in `new` alone, so a record made now carries a timestamp
/// between the two readings around it.
#[test]
fn new_stamps_the_current_time() {
    let before = chrono::Utc::now().timestamp();
    let record = UploadRecord::new("b".to_string(), "k".to_string(), "u".to_string());
    let after = chrono::Utc::now().timestamp();
    assert!(
        (before..=after).contains(&record.created_at()),
        "created_at {} outside [{before}, {after}]",
        record.created_at()
    );
}

#[test]
fn buckets_and_objects_are_stamped_too() {
    let before = chrono::Utc::now().timestamp();
    let bucket = BucketMeta::new("b".to_string());
    let mut object = Object::with_ctime(
        1,
        5,
        ContentHash::from([1u8; 16]),
        ObjectData::Inline { data: vec![1] },
    );
    assert_eq!(object.last_modified(), 5);
    object.touch_at(7);
    assert_eq!(object.last_modified(), 7);
    assert_eq!(object.size(), 1);
    object.touch();
    let after = chrono::Utc::now().timestamp();
    assert!((before..=after).contains(&bucket.ctime()));
    assert!((before..=after).contains(&object.last_modified()));
}

#[test]
fn malformed_upload_records() {
    // Truncated at every field boundary, and inside every field.
    for cut in [0usize, 4, 8, 12, 16, 21, 22, 26, 30, 32, 33, 40, 41, 42] {
        assert!(
            matches!(
                UploadRecord::try_from(&UPLOAD_NAMED[..cut]),
                Err(FsError::Truncated { record: "UploadRecord", .. })
            ),
            "expected Truncated when cut at {cut}"
        );
    }

    // One byte too many.
    for golden in [UPLOAD_NAMED, UPLOAD_EMPTY] {
        let mut extra = golden.to_vec();
        extra.push(0);
        assert_eq!(
            UploadRecord::try_from(extra.as_slice()).unwrap_err(),
            FsError::TrailingBytes { record: "UploadRecord", extra: 1 }
        );
    }

    // A last field shorter than the record leaves trailing bytes.
    let short = patched(UPLOAD_NAMED, NAMED_UPLOAD_ID_LEN_AT, &1u64.to_le_bytes());
    assert_eq!(
        UploadRecord::try_from(short.as_slice()).unwrap_err(),
        FsError::TrailingBytes { record: "UploadRecord", extra: 1 }
    );

    // Lengths nothing could satisfy must not overflow the offset maths.
    for at in [NAMED_BUCKET_LEN_AT, NAMED_KEY_LEN_AT, NAMED_UPLOAD_ID_LEN_AT] {
        let raw = patched(UPLOAD_NAMED, at, &u64::MAX.to_le_bytes());
        assert!(
            matches!(
                UploadRecord::try_from(raw.as_slice()),
                Err(FsError::LengthOverflow { record: "UploadRecord", .. })
            ),
            "absurd length at {at} must not panic"
        );
    }

    // Strings that are not UTF-8.
    for (at, field) in [
        (NAMED_BUCKET_AT, "bucket"),
        (NAMED_KEY_AT, "key"),
        (NAMED_UPLOAD_ID_AT, "upload_id"),
    ] {
        let raw = patched(UPLOAD_NAMED, at, &[0xff]);
        assert_eq!(
            UploadRecord::try_from(raw.as_slice()).unwrap_err(),
            FsError::InvalidUtf8 { record: "UploadRecord", field }
        );
    }
}

fn part() -> MultiPart {
    MultiPart::new(
        2048,
        -3,
        "b".to_string(),
        "k".to_string(),
        "u".to_string(),
        ContentHash::from([9u8; 16]),
        vec![BlockId::from([1u8; 32]), BlockId::from([2u8; 32])],
    )
}

#[test]
fn a_part_record_survives_being_written_and_read() {
    let raw = part().to_vec();
    let read = MultiPart::try_from(&raw).unwrap();
    assert_eq!(read.size, 2048);
    assert_eq!(read.part_number, -3);
    assert_eq!(read.bucket, "b");
    assert_eq!(read.key, "k");
    assert_eq!(read.upload_id, "u");
    assert_eq!(read.hash, ContentHash::from([9u8; 16]));
    assert_eq!(read.blocks, part().blocks);
    assert_eq!(read.to_vec(), raw);

    for cut in [0usize, 7, 15, 23, raw.len() - 1] {
        assert!(MultiPart::try_from(&raw[..cut]).is_err(), "cut at {cut}");
    }
    let mut long = raw.clone();
    long.push(0);
    assert_eq!(
        MultiPart::try_from(&long).unwrap_err(),
        FsError::TrailingBytes { record: "MultiPart", extra: 1 }
    );
}

#[test]
fn object_records_survive_being_written_and_read() {
    let hash = ContentHash::from([3u8; 16]);
    let blocks = vec![BlockId::from([1u8; 16]), BlockId::from([1u8; 16])];
    let single = Object::with_ctime(7, -2, hash, ObjectData::SinglePart { blocks: blocks.clone() });
    let raw = single.to_vec();
    assert_eq!(raw[0], 0);
    let read = Object::try_from(&raw).unwrap();
    assert_eq!(read.size(), 7);
    assert_eq!(read.last_modified(), -2);
    assert_eq!(read.hash(), &hash);
    assert_eq!(read.blocks(), blocks.as_slice());
    assert_eq!(read.object_type(), ObjectType::Single);
    assert!(read.has_block(&BlockId::from([1u8; 16])));
    assert!(!read.has_block(&BlockId::from([2u8; 16])));
    assert!(!read.is_inlined());
    assert_eq!(read.format_e_tag(), "03".repeat(16));

    let multi = Object::with_ctime(7, 0, hash, ObjectData::MultiPart { blocks, parts: 2 });
    let read = Object::try_from(&multi.to_vec()).unwrap();
    assert_eq!(read.object_type(), ObjectType::Multipart);
    assert_eq!(read.format_e_tag(), format!("{}-2", "03".repeat(16)));

    let inline = Object::with_ctime(3, 0, hash, ObjectData::Inline { data: vec![1, 2, 3] });
    let read = Object::try_from(&inline.to_vec()).unwrap();
    assert!(read.is_inlined());
    assert_eq!(read.inlined(), Some(&vec![1u8, 2, 3]));
    assert!(read.blocks().is_empty());
    assert_eq!(Object::minimum_inline_metadata_size(), 41);
    assert_eq!(
        Object::with_ctime(0, 0, hash, ObjectData::Inline { data: vec![] }).to_vec().len(),
        41
    );
}

#[test]
fn malformed_object_records_are_refused() {
    let hash = ContentHash::from([3u8; 16]);
    let raw = Object::with_ctime(
        1,
        0,
        hash,
        ObjectData::SinglePart { blocks: vec![BlockId::from([1u8; 16])] },
    )
    .to_vec();
    assert_eq!(
        Object::try_from(&raw[..40]).unwrap_err(),
        FsError::Truncated { record: "Object", needed: 41, got: 40 }
    );
    let mut unknown = raw.clone();
    unknown[0] = 3;
    assert_eq!(Object::try_from(&unknown).unwrap_err(), FsError::UnknownObjectType(3));
    let mut width = raw.clone();
    width[33] = 17;
    assert_eq!(Object::try_from(&width).unwrap_err(), FsError::InvalidIdWidth(17));
    let mut long = raw.clone();
    long.push(0);
    assert_eq!(
        Object::try_from(&long).unwrap_err(),
        FsError::TrailingBytes { record: "Object", extra: 1 }
    );
}

#[test]
fn object_times_are_shown_as_dates() {
    let object = Object::with_ctime(
        1,
        0,
        ContentHash::from([0u8; 16]),
        ObjectData::Inline { data: vec![] },
    );
    assert_eq!(object.format_ctime(), "1970-01-01T00:00:00Z");
}

#[test]
fn record_errors_become_metadata_errors() {
    let e = MetaError::from(FsError::UnknownObjectType(9));
    assert!(matches!(e, MetaError::Corruption(FsError::UnknownObjectType(9))));
    assert!(e.to_string().contains(&FsError::UnknownObjectType(9).to_string()));
    assert_eq!(BLOCKID_SIZE, 16);
    let digest: [u8; 16] = ContentHash::from([4u8; 16]).into();
    assert_eq!(digest, [4u8; 16]);
    assert_eq!(ContentHash::from([0x0fu8; 16]).to_hex(), "0f".repeat(16));
}
