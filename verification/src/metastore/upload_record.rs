//! The record of an in-flight multipart upload.

use vstd::prelude::*;
use vstd::utf8::*;

use super::codec::{
    bits_i64, field_i64, field_len, field_text, i64_bits, lemma_read_number, lemma_read_text,
    put_bytes, put_i64, put_len, trailing, Field, Reader,
};
use super::errors::FsError;
use crate::bytes::{le_bytes, lemma_byte_ranges, lemma_le_bytes_len};
use crate::clock::unix_now;

verus! {

/// One in-flight multipart upload. The record's existence is the upload's
/// existence: complete and abort both start by claiming it.
#[derive(Debug)]
pub struct UploadRecord {
    /// Creation time as a Unix timestamp (seconds since epoch).
    pub created_at: i64,
    /// Bucket the completed object will land in.
    pub bucket: String,
    /// Key the completed object will land under.
    pub key: String,
    /// Upload id handed to the client.
    pub upload_id: String,
}

/// What an upload record states.
#[verifier::ext_equal]
pub ghost struct UploadView {
    pub created_at: int,
    pub bucket: Seq<char>,
    pub key: Seq<char>,
    pub upload_id: Seq<char>,
}

impl View for UploadRecord {
    type V = UploadView;

    open spec fn view(&self) -> UploadView {
        UploadView {
            created_at: self.created_at as int,
            bucket: self.bucket@,
            key: self.key@,
            upload_id: self.upload_id@,
        }
    }
}

/// A text as it is written inside a record: `len u64 | bytes`.
pub open spec fn encode_text(text: Seq<char>) -> Seq<u8> {
    le_bytes(encode_utf8(text).len(), 8) + encode_utf8(text)
}

/// Reading a text that is written as `len u64 | bytes`.
pub open spec fn field_sized_text(
    record: &'static str,
    buf: Seq<u8>,
    pos: nat,
    len_field: &'static str,
    field: &'static str,
) -> Field<Seq<char>> {
    match field_len(record, buf, pos, len_field) {
        Err(e) => Err(e),
        Ok((len, next)) => field_text(record, buf, next, field, len),
    }
}

/// Appends a text as `len u64 | bytes`.
pub(crate) fn put_text(out: &mut Vec<u8>, text: &str)
    ensures
        final(out)@ == old(out)@ + encode_text(text@),
{
    let raw = text.as_bytes();
    put_len(out, raw.len());
    put_bytes(out, raw);
    proof {
        assert(out@ =~= old(out)@ + encode_text(text@));
    }
}

/// Reads a text that is written as `len u64 | bytes`.
pub(crate) fn get_text(r: &mut Reader<'_>, len_field: &'static str, field: &'static str) -> (out:
    Result<String, FsError>)
    requires
        old(r).wf(),
    ensures
        old(r).follows(
            *final(r),
            out,
            field_sized_text(old(r).record, old(r).buf@, old(r).pos as nat, len_field, field),
            |got: String, want: Seq<char>| got@ == want,
        ),
{
    match r.len(len_field) {
        Ok(len) => r.utf8(field, len),
        Err(e) => Err(e),
    }
}

/// A text written inside a record is read back.
pub proof fn lemma_read_sized_text(
    record: &'static str,
    before: Seq<u8>,
    text: Seq<char>,
    after: Seq<u8>,
    len_field: &'static str,
    field: &'static str,
)
    requires
        before.len() + encode_text(text).len() + after.len() <= usize::MAX,
    ensures
        encode_text(text).len() == 8 + encode_utf8(text).len(),
        field_sized_text(
            record,
            before + encode_text(text) + after,
            before.len(),
            len_field,
            field,
        ) == Ok::<(Seq<char>, nat), FsError>((text, before.len() + encode_text(text).len())),
{
    let buf = before + encode_text(text) + after;
    let raw = encode_utf8(text);
    let len = le_bytes(raw.len(), 8);
    lemma_le_bytes_len(raw.len(), 8);
    lemma_byte_ranges();
    assert(buf =~= before + len + (raw + after));
    lemma_read_number(record, before, raw.len(), 8, raw + after, len_field);
    assert(buf =~= (before + len) + raw + after);
    lemma_read_text(record, before + len, text, after, field);
}

/// An upload record as it is written:
///
/// ```text
/// created_at i64 | bucket_len u64 | bucket | key_len u64 | key |
/// upload_id_len u64 | upload_id
/// ```
pub open spec fn encode_upload(u: UploadView) -> Seq<u8> {
    le_bytes(i64_bits(u.created_at), 8) + encode_text(u.bucket) + encode_text(u.key) + encode_text(
        u.upload_id,
    )
}

/// What an upload record's bytes stand for.
pub open spec fn decode_upload(buf: Seq<u8>) -> Result<UploadView, FsError> {
    let rec = "UploadRecord";
    match field_i64(rec, buf, 0, "created_at") {
        Err(e) => Err(e),
        Ok((created_at, p1)) => match field_sized_text(rec, buf, p1, "bucket_len", "bucket") {
            Err(e) => Err(e),
            Ok((bucket, p2)) => match field_sized_text(rec, buf, p2, "key_len", "key") {
                Err(e) => Err(e),
                Ok((key, p3)) => match field_sized_text(
                    rec,
                    buf,
                    p3,
                    "upload_id_len",
                    "upload_id",
                ) {
                    Err(e) => Err(e),
                    Ok((upload_id, end)) => match trailing(rec, buf, end) {
                        Err(e) => Err(e),
                        Ok(()) => Ok(UploadView { created_at, bucket, key, upload_id }),
                    },
                },
            },
        },
    }
}

impl UploadRecord {
    /// Creates a record for an upload starting now.
    pub fn new(bucket: String, key: String, upload_id: String) -> (record: Self)
        ensures
            record.bucket == bucket,
            record.key == key,
            record.upload_id == upload_id,
    {
        UploadRecord::with_created_at(unix_now(), bucket, key, upload_id)
    }

    /// The same record with a caller-chosen creation time.
    pub fn with_created_at(
        created_at: i64,
        bucket: String,
        key: String,
        upload_id: String,
    ) -> (record: Self)
        ensures
            record == (UploadRecord { created_at, bucket, key, upload_id }),
    {
        UploadRecord { created_at, bucket, key, upload_id }
    }

    /// Creation time as a Unix timestamp (seconds since epoch).
    pub fn created_at(&self) -> (seconds: i64)
        ensures
            seconds == self.created_at,
    {
        self.created_at
    }

    /// Bucket the completed object will land in.
    pub fn bucket(&self) -> (bucket: &str)
        ensures
            bucket@ == self.bucket@,
    {
        &self.bucket
    }

    /// Key the completed object will land under.
    pub fn key(&self) -> (key: &str)
        ensures
            key@ == self.key@,
    {
        &self.key
    }

    /// Upload id this record was created for.
    pub fn upload_id(&self) -> (upload_id: &str)
        ensures
            upload_id@ == self.upload_id@,
    {
        &self.upload_id
    }

    /// Serializes the record.
    pub fn to_vec(&self) -> (out: Vec<u8>)
        ensures
            out@ == encode_upload(self@),
    {
        let mut out: Vec<u8> = Vec::new();
        put_i64(&mut out, self.created_at);
        put_text(&mut out, &self.bucket);
        put_text(&mut out, &self.key);
        put_text(&mut out, &self.upload_id);
        proof {
            assert(out@ =~= encode_upload(self@));
        }
        out
    }

    /// Deserializes a record, with an exact length check.
    pub fn try_from(value: &[u8]) -> (out: Result<Self, FsError>)
        ensures
            match out {
                Ok(u) => decode_upload(value@) == Ok::<UploadView, FsError>(u@),
                Err(e) => decode_upload(value@) == Err::<UploadView, FsError>(e),
            },
    {
        let mut r = Reader::new("UploadRecord", value);
        let created_at: i64 = match r.i64("created_at") {
            Ok(v) => v,
            Err(e) => {
                return Err(e);
            },
        };
        let bucket: String = match get_text(&mut r, "bucket_len", "bucket") {
            Ok(v) => v,
            Err(e) => {
                return Err(e);
            },
        };
        let key: String = match get_text(&mut r, "key_len", "key") {
            Ok(v) => v,
            Err(e) => {
                return Err(e);
            },
        };
        let upload_id: String = match get_text(&mut r, "upload_id_len", "upload_id") {
            Ok(v) => v,
            Err(e) => {
                return Err(e);
            },
        };
        match r.finish() {
            Ok(()) => Ok(UploadRecord { created_at, bucket, key, upload_id }),
            Err(e) => Err(e),
        }
    }
}

/// An upload record that fits in memory survives being written and read back.
pub proof fn lemma_upload_round_trip(u: UploadView)
    requires
        i64::MIN <= u.created_at <= i64::MAX,
        encode_upload(u).len() <= usize::MAX,
    ensures
        decode_upload(encode_upload(u)) == Ok::<UploadView, FsError>(u),
{
    let buf = encode_upload(u);
    let rec = "UploadRecord";
    let time = le_bytes(i64_bits(u.created_at), 8);
    let bucket = encode_text(u.bucket);
    let key = encode_text(u.key);
    let id = encode_text(u.upload_id);
    let none = Seq::<u8>::empty();
    lemma_le_bytes_len(i64_bits(u.created_at), 8);
    lemma_byte_ranges();
    assert(buf =~= none + time + (bucket + key + id));
    lemma_read_number(rec, none, i64_bits(u.created_at), 8, bucket + key + id, "created_at");
    assert(bits_i64(i64_bits(u.created_at)) == u.created_at);
    assert(buf =~= time + bucket + (key + id));
    lemma_read_sized_text(rec, time, u.bucket, key + id, "bucket_len", "bucket");
    assert(buf =~= (time + bucket) + key + id);
    lemma_read_sized_text(rec, time + bucket, u.key, id, "key_len", "key");
    assert(buf =~= (time + bucket + key) + id + none);
    lemma_read_sized_text(rec, time + bucket + key, u.upload_id, none, "upload_id_len", "upload_id");
}

} // verus!
