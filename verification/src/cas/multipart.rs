//! The record of one uploaded part of a multipart upload.

use vstd::prelude::*;

use crate::bytes::{le_bytes, lemma_byte_ranges, lemma_le_bytes_len};
use crate::metastore::block::BlockId;
use crate::metastore::codec::{
    bits_i64, encode_id_list, field_bytes, field_i64, field_id_list, field_len, i64_bits, id_views,
    lemma_read_bytes, lemma_read_id_list, lemma_read_number, one_width, put_bytes, put_i64,
    put_id_list, put_len, trailing, Reader,
};
use crate::metastore::content_hash::ContentHash;
use crate::metastore::errors::FsError;
use crate::metastore::upload_record::{
    encode_text, field_sized_text, get_text, lemma_read_sized_text, put_text,
};

verus! {

/// One part of an in-flight multipart upload. It holds references to the blocks
/// of the part until the upload completes or is aborted.
#[derive(Debug)]
pub struct MultiPart {
    /// Size of the part in bytes.
    pub size: usize,
    /// Position of the part within the upload.
    pub part_number: i64,
    /// Bucket the upload targets.
    pub bucket: String,
    /// Key the upload targets.
    pub key: String,
    /// Upload the part belongs to.
    pub upload_id: String,
    /// MD5 digest of the part.
    pub hash: ContentHash,
    /// The blocks of the part.
    pub blocks: Vec<BlockId>,
}

/// What a part record states.
#[verifier::ext_equal]
pub ghost struct PartView {
    pub size: nat,
    pub part_number: int,
    pub bucket: Seq<char>,
    pub key: Seq<char>,
    pub upload_id: Seq<char>,
    pub hash: Seq<u8>,
    pub blocks: Seq<Seq<u8>>,
}

impl View for MultiPart {
    type V = PartView;

    open spec fn view(&self) -> PartView {
        PartView {
            size: self.size as nat,
            part_number: self.part_number as int,
            bucket: self.bucket@,
            key: self.key@,
            upload_id: self.upload_id@,
            hash: self.hash@,
            blocks: id_views(self.blocks@),
        }
    }
}

/// A part record as it is written:
///
/// ```text
/// size u64 | part_number i64 | bucket_len u64 | bucket | key_len u64 | key |
/// upload_id_len u64 | upload_id | hash [16] | id_width u8 | count u64 | ids
/// ```
pub open spec fn encode_part(p: PartView) -> Seq<u8> {
    le_bytes(p.size, 8) + le_bytes(i64_bits(p.part_number), 8) + encode_text(p.bucket)
        + encode_text(p.key) + encode_text(p.upload_id) + p.hash + encode_id_list(p.blocks)
}

/// What a part record's bytes stand for.
pub open spec fn decode_part(buf: Seq<u8>) -> Result<PartView, FsError> {
    let rec = "MultiPart";
    match field_len(rec, buf, 0, "size") {
        Err(e) => Err(e),
        Ok((size, p1)) => match field_i64(rec, buf, p1, "part_number") {
            Err(e) => Err(e),
            Ok((part_number, p2)) => match field_sized_text(rec, buf, p2, "bucket_len", "bucket") {
                Err(e) => Err(e),
                Ok((bucket, p3)) => match field_sized_text(rec, buf, p3, "key_len", "key") {
                    Err(e) => Err(e),
                    Ok((key, p4)) => decode_part_tail(buf, p4, size, part_number, bucket, key),
                },
            },
        },
    }
}

/// What the fields behind the key stand for.
pub open spec fn decode_part_tail(
    buf: Seq<u8>,
    p4: nat,
    size: nat,
    part_number: int,
    bucket: Seq<char>,
    key: Seq<char>,
) -> Result<PartView, FsError> {
    let rec = "MultiPart";
    match field_sized_text(rec, buf, p4, "upload_id_len", "upload_id") {
        Err(e) => Err(e),
        Ok((upload_id, p5)) => match field_bytes(rec, buf, p5, "hash", 16) {
            Err(e) => Err(e),
            Ok((hash, p6)) => match field_id_list(rec, buf, p6) {
                Err(e) => Err(e),
                Ok((blocks, end)) => match trailing(rec, buf, end) {
                    Err(e) => Err(e),
                    Ok(()) => Ok(
                        PartView { size, part_number, bucket, key, upload_id, hash, blocks },
                    ),
                },
            },
        },
    }
}

impl MultiPart {
    /// Puts a part record together.
    pub fn new(
        size: usize,
        part_number: i64,
        bucket: String,
        key: String,
        upload_id: String,
        hash: ContentHash,
        blocks: Vec<BlockId>,
    ) -> (part: Self)
        ensures
            part == (MultiPart { size, part_number, bucket, key, upload_id, hash, blocks }),
    {
        MultiPart { size, part_number, bucket, key, upload_id, hash, blocks }
    }

    /// Serializes the record.
    pub fn to_vec(&self) -> (out: Vec<u8>)
        ensures
            out@ == encode_part(self@),
    {
        let mut out: Vec<u8> = Vec::new();
        put_len(&mut out, self.size);
        put_i64(&mut out, self.part_number);
        put_text(&mut out, &self.bucket);
        put_text(&mut out, &self.key);
        put_text(&mut out, &self.upload_id);
        put_bytes(&mut out, self.hash.as_slice());
        put_id_list(&mut out, &self.blocks);
        proof {
            assert(out@ =~= encode_part(self@));
        }
        out
    }

    /// Deserializes a record, with an exact length check.
    pub fn try_from(value: &[u8]) -> (out: Result<Self, FsError>)
        ensures
            match out {
                Ok(p) => decode_part(value@) == Ok::<PartView, FsError>(p@),
                Err(e) => decode_part(value@) == Err::<PartView, FsError>(e),
            },
    {
        let mut r = Reader::new("MultiPart", value);
        let size: usize = match r.len("size") {
            Ok(v) => v,
            Err(e) => {
                return Err(e);
            },
        };
        let part_number: i64 = match r.i64("part_number") {
            Ok(v) => v,
            Err(e) => {
                return Err(e);
            },
        };
        let bucket: String = match get_text(&mut r, "bucket_len", "bucket") {
            Ok(v) => v,
            Err(e) => {
                return Err(e);
            },
        };
        let key: String = match get_text(&mut r, "key_len", "key") {
            Ok(v) => v,
            Err(e) => {
                return Err(e);
            },
        };
        let upload_id: String = match get_text(&mut r, "upload_id_len", "upload_id") {
            Ok(v) => v,
            Err(e) => {
                return Err(e);
            },
        };
        let hash: [u8; 16] = match r.array::<16>("hash") {
            Ok(v) => v,
            Err(e) => {
                return Err(e);
            },
        };
        let blocks: Vec<BlockId> = match r.id_list() {
            Ok(v) => v,
            Err(e) => {
                return Err(e);
            },
        };
        match r.finish() {
            Ok(()) => Ok(
                MultiPart {
                    size,
                    part_number,
                    bucket,
                    key,
                    upload_id,
                    hash: ContentHash(hash),
                    blocks,
                },
            ),
            Err(e) => Err(e),
        }
    }
}

/// Whether a view is that of a part record which can stand in memory.
pub open spec fn is_part(p: PartView) -> bool {
    &&& p.size <= usize::MAX
    &&& i64::MIN <= p.part_number <= i64::MAX
    &&& p.hash.len() == 16
    &&& one_width(p.blocks)
    &&& encode_part(p).len() <= usize::MAX
}

/// The fields behind the key are read back.
proof fn lemma_part_tail(before: Seq<u8>, p: PartView)
    requires
        is_part(p),
        before.len() + encode_text(p.upload_id).len() + 16 + encode_id_list(p.blocks).len()
            <= usize::MAX,
    ensures
        decode_part_tail(
            before + encode_text(p.upload_id) + p.hash + encode_id_list(p.blocks),
            before.len(),
            p.size,
            p.part_number,
            p.bucket,
            p.key,
        ) == Ok::<PartView, FsError>(p),
{
    let rec = "MultiPart";
    let id = encode_text(p.upload_id);
    let ids = encode_id_list(p.blocks);
    let none = Seq::<u8>::empty();
    let buf = before + id + p.hash + ids;
    assert(buf =~= before + id + (p.hash + ids));
    lemma_read_sized_text(rec, before, p.upload_id, p.hash + ids, "upload_id_len", "upload_id");
    let d = before + id;
    lemma_read_bytes(rec, d, p.hash, ids, "hash");
    let e = d + p.hash;
    assert(buf =~= e + ids + none);
    lemma_read_id_list(rec, e, p.blocks, none);
}

/// The fields up to the key are read back, whatever follows them.
proof fn lemma_part_head(p: PartView, rest: Seq<u8>)
    requires
        is_part(p),
        16 + encode_text(p.bucket).len() + encode_text(p.key).len() + rest.len() <= usize::MAX,
    ensures
        ({
            let head = le_bytes(p.size, 8) + le_bytes(i64_bits(p.part_number), 8) + encode_text(
                p.bucket,
            ) + encode_text(p.key);
            decode_part(head + rest) == decode_part_tail(
                head + rest,
                head.len(),
                p.size,
                p.part_number,
                p.bucket,
                p.key,
            )
        }),
{
    let rec = "MultiPart";
    let size = le_bytes(p.size, 8);
    let number = le_bytes(i64_bits(p.part_number), 8);
    let bucket = encode_text(p.bucket);
    let key = encode_text(p.key);
    let none = Seq::<u8>::empty();
    let buf = size + number + bucket + key + rest;
    lemma_le_bytes_len(p.size, 8);
    lemma_le_bytes_len(i64_bits(p.part_number), 8);
    lemma_byte_ranges();
    assert(buf =~= none + size + (number + bucket + key + rest));
    lemma_read_number(rec, none, p.size, 8, number + bucket + key + rest, "size");
    assert(buf =~= size + number + (bucket + key + rest));
    lemma_read_number(rec, size, i64_bits(p.part_number), 8, bucket + key + rest, "part_number");
    assert(bits_i64(i64_bits(p.part_number)) == p.part_number);
    assert(buf =~= (size + number) + bucket + (key + rest));
    lemma_read_sized_text(rec, size + number, p.bucket, key + rest, "bucket_len", "bucket");
    lemma_read_sized_text(rec, size + number + bucket, p.key, rest, "key_len", "key");
}

/// A part record survives being written and read back.
pub proof fn lemma_part_round_trip(p: PartView)
    requires
        is_part(p),
    ensures
        decode_part(encode_part(p)) == Ok::<PartView, FsError>(p),
{
    let head = le_bytes(p.size, 8) + le_bytes(i64_bits(p.part_number), 8) + encode_text(p.bucket)
        + encode_text(p.key);
    let id = encode_text(p.upload_id);
    let ids = encode_id_list(p.blocks);
    lemma_le_bytes_len(p.size, 8);
    lemma_le_bytes_len(i64_bits(p.part_number), 8);
    assert(head + id + p.hash + ids =~= head + (id + p.hash + ids));
    lemma_part_head(p, id + p.hash + ids);
    lemma_part_tail(head, p);
}

} // verus!
