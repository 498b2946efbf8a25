//! The record of a bucket.

use vstd::prelude::*;
use vstd::utf8::*;

use super::codec::{
    bits_i64, field_i64, field_len, field_text, i64_bits, lemma_read_number, lemma_read_text,
    put_bytes, put_i64, put_len, trailing, Reader,
};
use super::errors::FsError;
use crate::bytes::{le_bytes, lemma_byte_ranges, lemma_le_bytes_len};
use crate::clock::unix_now;

verus! {

/// Metadata of a storage bucket.
#[derive(Debug)]
pub struct BucketMeta {
    /// Creation time as a Unix timestamp (seconds since epoch).
    pub ctime: i64,
    /// Name of the bucket.
    pub name: String,
}

/// A bucket record as it is written: `ctime i64 | name_len u64 | name`.
pub open spec fn encode_bucket(ctime: int, name: Seq<char>) -> Seq<u8> {
    le_bytes(i64_bits(ctime), 8) + le_bytes(encode_utf8(name).len(), 8) + encode_utf8(name)
}

/// What a bucket record's bytes stand for: the creation time and the name.
pub open spec fn decode_bucket(buf: Seq<u8>) -> Result<(int, Seq<char>), FsError> {
    match field_i64("BucketMeta", buf, 0, "ctime") {
        Err(e) => Err(e),
        Ok((ctime, at_len)) => match field_len("BucketMeta", buf, at_len, "name_len") {
            Err(e) => Err(e),
            Ok((name_len, at_name)) => match field_text(
                "BucketMeta",
                buf,
                at_name,
                "name",
                name_len,
            ) {
                Err(e) => Err(e),
                Ok((name, end)) => match trailing("BucketMeta", buf, end) {
                    Err(e) => Err(e),
                    Ok(()) => Ok((ctime, name)),
                },
            },
        },
    }
}

impl BucketMeta {
    /// Creates the record of a bucket that is made now.
    pub fn new(name: String) -> (bucket: Self)
        ensures
            bucket.name == name,
    {
        BucketMeta::with_ctime(unix_now(), name)
    }

    /// Creates the record of a bucket that was made at a given time.
    pub fn with_ctime(ctime: i64, name: String) -> (bucket: Self)
        ensures
            bucket == (BucketMeta { ctime, name }),
    {
        BucketMeta { ctime, name }
    }

    /// Returns the creation time in seconds since the epoch.
    pub fn ctime(&self) -> (ctime: i64)
        ensures
            ctime == self.ctime,
    {
        self.ctime
    }

    /// Returns the name of the bucket.
    pub fn name(&self) -> (name: &str)
        ensures
            name@ == self.name@,
    {
        &self.name
    }

    /// Serializes the record.
    pub fn to_vec(&self) -> (out: Vec<u8>)
        ensures
            out@ == encode_bucket(self.ctime as int, self.name@),
    {
        let name = self.name.as_str().as_bytes();
        let mut out: Vec<u8> = Vec::new();
        put_i64(&mut out, self.ctime);
        put_len(&mut out, name.len());
        put_bytes(&mut out, name);
        proof {
            assert(out@ =~= encode_bucket(self.ctime as int, self.name@));
        }
        out
    }

    /// Deserializes a record, with an exact length check.
    pub fn try_from(value: &[u8]) -> (out: Result<Self, FsError>)
        ensures
            match out {
                Ok(b) => decode_bucket(value@) == Ok::<(int, Seq<char>), FsError>(
                    (b.ctime as int, b.name@),
                ),
                Err(e) => decode_bucket(value@) == Err::<(int, Seq<char>), FsError>(e),
            },
    {
        let mut r = Reader::new("BucketMeta", value);
        let ctime: i64 = match r.i64("ctime") {
            Ok(v) => v,
            Err(e) => {
                return Err(e);
            },
        };
        let name_len: usize = match r.len("name_len") {
            Ok(v) => v,
            Err(e) => {
                return Err(e);
            },
        };
        let name: String = match r.utf8("name", name_len) {
            Ok(v) => v,
            Err(e) => {
                return Err(e);
            },
        };
        match r.finish() {
            Ok(()) => Ok(BucketMeta { ctime, name }),
            Err(e) => Err(e),
        }
    }
}

/// A bucket record that fits in memory survives being written and read back.
pub proof fn lemma_bucket_round_trip(ctime: int, name: Seq<char>)
    requires
        i64::MIN <= ctime <= i64::MAX,
        encode_bucket(ctime, name).len() <= usize::MAX,
    ensures
        decode_bucket(encode_bucket(ctime, name)) == Ok::<(int, Seq<char>), FsError>((ctime, name)),
{
    let buf = encode_bucket(ctime, name);
    let rec = "BucketMeta";
    let time = le_bytes(i64_bits(ctime), 8);
    let len = le_bytes(encode_utf8(name).len(), 8);
    let raw = encode_utf8(name);
    let none = Seq::<u8>::empty();
    lemma_le_bytes_len(i64_bits(ctime), 8);
    lemma_le_bytes_len(raw.len(), 8);
    lemma_byte_ranges();
    assert(buf =~= none + time + (len + raw));
    lemma_read_number(rec, none, i64_bits(ctime), 8, len + raw, "ctime");
    assert(bits_i64(i64_bits(ctime)) == ctime);
    assert(buf =~= time + len + raw);
    lemma_read_number(rec, time, raw.len(), 8, raw, "name_len");
    assert(buf =~= (time + len) + raw + none);
    lemma_read_text(rec, time + len, name, none, "name");
}

} // verus!
