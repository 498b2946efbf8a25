//! Nothing decodes but what is written: the bytes of a record that decodes are those
//! that its contents are written with.

use vstd::prelude::*;
use vstd::utf8::*;

use super::bucket_meta::{decode_bucket, encode_bucket};
use super::codec::{
    bits_i64, concat_ids, encode_id_list, field_bytes, field_i64, field_id_list, field_len,
    field_number, field_text, i64_bits, lemma_concat_split, split_ids,
};
use super::errors::FsError;
use super::laws::of_one_width;
use super::object::{decode_object, encode_data, encode_object, field_data, DataView, ObjectView};
use super::upload_record::{
    decode_upload, encode_text, encode_upload, field_sized_text, UploadView,
};
use crate::bytes::{le_bytes, lemma_byte_ranges, lemma_le_bytes_len, lemma_le_bytes_of_le_value};
use crate::cas::multipart::{decode_part, encode_part, PartView};

verus! {

proof fn lemma_number_read(
    record: &'static str,
    buf: Seq<u8>,
    pos: nat,
    field: &'static str,
    width: nat,
    n: nat,
    next: nat,
)
    requires
        field_number(record, buf, pos, field, width) == Ok::<(nat, nat), FsError>((n, next)),
    ensures
        next == pos + width <= buf.len(),
        le_bytes(n, width) == buf.subrange(pos as int, next as int),
{
    lemma_le_bytes_of_le_value(buf.subrange(pos as int, next as int));
}

proof fn lemma_signed_read(
    record: &'static str,
    buf: Seq<u8>,
    pos: nat,
    field: &'static str,
    n: int,
    next: nat,
)
    requires
        field_i64(record, buf, pos, field) == Ok::<(int, nat), FsError>((n, next)),
    ensures
        next == pos + 8 <= buf.len(),
        le_bytes(i64_bits(n), 8) == buf.subrange(pos as int, next as int),
{
    let (raw, end) = field_number(record, buf, pos, field, 8)->Ok_0;
    lemma_number_read(record, buf, pos, field, 8, raw, end);
    lemma_le_bytes_of_le_value(buf.subrange(pos as int, next as int));
    lemma_byte_ranges();
    assert(i64_bits(bits_i64(raw)) == raw);
}

proof fn lemma_text_read(
    record: &'static str,
    buf: Seq<u8>,
    pos: nat,
    len_field: &'static str,
    field: &'static str,
    text: Seq<char>,
    next: nat,
)
    requires
        field_sized_text(record, buf, pos, len_field, field) == Ok::<(Seq<char>, nat), FsError>(
            (text, next),
        ),
    ensures
        pos + 8 <= next <= buf.len(),
        encode_text(text) == buf.subrange(pos as int, next as int),
{
    let (len, at) = field_len(record, buf, pos, len_field)->Ok_0;
    lemma_number_read(record, buf, pos, len_field, 8, len, at);
    let raw = buf.subrange(at as int, next as int);
    decode_utf8_encode_utf8(raw);
    assert(buf.subrange(pos as int, next as int) =~= buf.subrange(pos as int, at as int) + raw);
}

proof fn lemma_list_read(
    record: &'static str,
    buf: Seq<u8>,
    pos: nat,
    ids: Seq<Seq<u8>>,
    next: nat,
)
    requires
        field_id_list(record, buf, pos) == Ok::<(Seq<Seq<u8>>, nat), FsError>((ids, next)),
    ensures
        pos + 9 <= next <= buf.len(),
        encode_id_list(ids).len() == next - pos,
        ids.len() > 0 ==> encode_id_list(ids) == buf.subrange(pos as int, next as int),
        of_one_width(ids),
{
    let (width, p1) = field_number(record, buf, pos, "id_width", 1)->Ok_0;
    lemma_number_read(record, buf, pos, "id_width", 1, width, p1);
    let (count, p2) = field_len(record, buf, p1, "id_count")->Ok_0;
    lemma_number_read(record, buf, p1, "id_count", 8, count, p2);
    lemma_le_bytes_len(width, 1);
    lemma_le_bytes_len(0, 1);
    lemma_le_bytes_len(count, 8);
    if count == 0 {
        assert(count * width == 0) by (nonlinear_arith)
            requires
                count == 0,
        ;
        assert(ids.len() == 0);
        assert(concat_ids(ids).len() == 0);
    } else {
        let raw = buf.subrange(p2 as int, next as int);
        assert(ids == split_ids(raw, width, count));
        lemma_concat_split(raw, width, count);
        assert(count * width >= width) by (nonlinear_arith)
            requires
                count >= 1,
        ;
        assert(ids[0].len() == width) by {
            assert(ids[0] == raw.subrange(0, width as int));
        }
        assert(buf.subrange(pos as int, next as int) =~= buf.subrange(pos as int, p1 as int)
            + buf.subrange(p1 as int, p2 as int) + raw);
        assert forall|i: int| 0 <= i < ids.len() implies (#[trigger] ids[i]).len() == width by {
            assert((i + 1) * width == i * width + width) by (nonlinear_arith);
            assert((i + 1) * width <= count * width) by (nonlinear_arith)
                requires
                    i + 1 <= count,
            ;
            assert(0 <= i * width) by (nonlinear_arith)
                requires
                    0 <= i,
            ;
        }
    }
}

/// An object record that decodes is as long as its contents are written, and it is
/// what is written of them, byte for byte; only a list without blocks may have been
/// written with some other width. The blocks it lists are of one width, 16 or 32.
pub proof fn lemma_object_bytes(buf: Seq<u8>, o: ObjectView)
    requires
        decode_object(buf) == Ok::<ObjectView, FsError>(o),
    ensures
        encode_object(o).len() == buf.len(),
        match o.data {
            DataView::SinglePart(ids) => of_one_width(ids) && (ids.len() > 0 ==> encode_object(o)
                == buf),
            DataView::MultiPart(ids, _) => of_one_width(ids) && (ids.len() > 0 ==> encode_object(o)
                == buf),
            DataView::Inline(_) => encode_object(o) == buf,
        },
{
    let rec = "Object";
    let (code, p1) = field_number(rec, buf, 0, "object_type", 1)->Ok_0;
    lemma_number_read(rec, buf, 0, "object_type", 1, code, p1);
    let (size, p2) = field_number(rec, buf, p1, "size", 8)->Ok_0;
    lemma_number_read(rec, buf, p1, "size", 8, size, p2);
    let (ctime, p3) = field_i64(rec, buf, p2, "ctime")->Ok_0;
    lemma_signed_read(rec, buf, p2, "ctime", ctime, p3);
    let (hash, p4) = field_bytes(rec, buf, p3, "hash", 16)->Ok_0;
    let (data, end) = field_data(buf, p4, code)->Ok_0;
    lemma_data_read(buf, p4, code, data, end);
    let rest = buf.subrange(p4 as int, end as int);
    assert(end == buf.len());
    assert(o.data.object_type().code() as nat == code);
    assert(buf =~= buf.subrange(0, p1 as int) + buf.subrange(p1 as int, p2 as int) + buf.subrange(
        p2 as int,
        p3 as int,
    ) + hash + rest);
}

proof fn lemma_data_read(buf: Seq<u8>, pos: nat, code: nat, data: DataView, next: nat)
    requires
        code <= 2,
        field_data(buf, pos, code) == Ok::<(DataView, nat), FsError>((data, next)),
    ensures
        pos <= next <= buf.len(),
        data.object_type().code() == code,
        encode_data(data).len() == next - pos,
        data.blocks().len() > 0 || data is Inline ==> encode_data(data) == buf.subrange(
            pos as int,
            next as int,
        ),
        of_one_width(data.blocks()),
{
    let rec = "Object";
    match data {
        DataView::SinglePart(ids) => {
            lemma_list_read(rec, buf, pos, ids, next);
        },
        DataView::MultiPart(ids, parts) => {
            let (n, at) = field_len(rec, buf, pos, "parts")->Ok_0;
            lemma_number_read(rec, buf, pos, "parts", 8, n, at);
            lemma_list_read(rec, buf, at, ids, next);
            lemma_le_bytes_len(parts, 8);
            assert(buf.subrange(pos as int, next as int) =~= buf.subrange(pos as int, at as int)
                + buf.subrange(at as int, next as int));
        },
        DataView::Inline(bytes) => {
            let (n, at) = field_len(rec, buf, pos, "data_len")->Ok_0;
            lemma_number_read(rec, buf, pos, "data_len", 8, n, at);
            lemma_le_bytes_len(n, 8);
            assert(buf.subrange(pos as int, next as int) =~= buf.subrange(pos as int, at as int)
                + bytes);
        },
    }
}

/// A part record that decodes is as long as its contents are written, and it is what
/// is written of them, byte for byte, where it lists a block. The blocks it lists are
/// of one width, 16 or 32.
pub proof fn lemma_part_bytes(buf: Seq<u8>, p: PartView)
    requires
        decode_part(buf) == Ok::<PartView, FsError>(p),
    ensures
        encode_part(p).len() == buf.len(),
        p.blocks.len() > 0 ==> encode_part(p) == buf,
        of_one_width(p.blocks),
{
    let rec = "MultiPart";
    let (size, p1) = field_len(rec, buf, 0, "size")->Ok_0;
    lemma_number_read(rec, buf, 0, "size", 8, size, p1);
    let (part_number, p2) = field_i64(rec, buf, p1, "part_number")->Ok_0;
    lemma_signed_read(rec, buf, p1, "part_number", part_number, p2);
    let (bucket, p3) = field_sized_text(rec, buf, p2, "bucket_len", "bucket")->Ok_0;
    lemma_text_read(rec, buf, p2, "bucket_len", "bucket", bucket, p3);
    let (key, p4) = field_sized_text(rec, buf, p3, "key_len", "key")->Ok_0;
    lemma_text_read(rec, buf, p3, "key_len", "key", key, p4);
    let (upload_id, p5) = field_sized_text(rec, buf, p4, "upload_id_len", "upload_id")->Ok_0;
    lemma_text_read(rec, buf, p4, "upload_id_len", "upload_id", upload_id, p5);
    let (hash, p6) = field_bytes(rec, buf, p5, "hash", 16)->Ok_0;
    let (blocks, end) = field_id_list(rec, buf, p6)->Ok_0;
    lemma_list_read(rec, buf, p6, blocks, end);
    let front = buf.subrange(0, p1 as int) + buf.subrange(p1 as int, p2 as int) + buf.subrange(
        p2 as int,
        p3 as int,
    ) + buf.subrange(p3 as int, p4 as int) + buf.subrange(p4 as int, p5 as int);
    assert(front =~= buf.subrange(0, p5 as int));
    assert(buf =~= front + hash + buf.subrange(p6 as int, end as int));
}

/// An upload record that decodes is what is written of its contents, byte for byte.
pub proof fn lemma_upload_bytes(buf: Seq<u8>, u: UploadView)
    requires
        decode_upload(buf) == Ok::<UploadView, FsError>(u),
    ensures
        encode_upload(u) == buf,
{
    let rec = "UploadRecord";
    let (time, p1) = field_i64(rec, buf, 0, "created_at")->Ok_0;
    lemma_signed_read(rec, buf, 0, "created_at", time, p1);
    let (bucket, p2) = field_sized_text(rec, buf, p1, "bucket_len", "bucket")->Ok_0;
    lemma_text_read(rec, buf, p1, "bucket_len", "bucket", bucket, p2);
    let (key, p3) = field_sized_text(rec, buf, p2, "key_len", "key")->Ok_0;
    lemma_text_read(rec, buf, p2, "key_len", "key", key, p3);
    let (id, p4) = field_sized_text(rec, buf, p3, "upload_id_len", "upload_id")->Ok_0;
    lemma_text_read(rec, buf, p3, "upload_id_len", "upload_id", id, p4);
    assert(buf =~= buf.subrange(0, p1 as int) + buf.subrange(p1 as int, p2 as int) + buf.subrange(
        p2 as int,
        p3 as int,
    ) + buf.subrange(p3 as int, p4 as int));
}

/// A bucket record that decodes is what is written of its contents, byte for byte.
pub proof fn lemma_bucket_bytes(buf: Seq<u8>, ctime: int, name: Seq<char>)
    requires
        decode_bucket(buf) == Ok::<(int, Seq<char>), FsError>((ctime, name)),
    ensures
        encode_bucket(ctime, name) == buf,
{
    let rec = "BucketMeta";
    let (time, p1) = field_i64(rec, buf, 0, "ctime")->Ok_0;
    lemma_signed_read(rec, buf, 0, "ctime", time, p1);
    let (len, p2) = field_len(rec, buf, p1, "name_len")->Ok_0;
    lemma_number_read(rec, buf, p1, "name_len", 8, len, p2);
    let raw = buf.subrange(p2 as int, buf.len() as int);
    let (text, end) = field_text(rec, buf, p2, "name", len)->Ok_0;
    decode_utf8_encode_utf8(raw);
    assert(buf =~= buf.subrange(0, p1 as int) + buf.subrange(p1 as int, p2 as int) + raw);
}

} // verus!
