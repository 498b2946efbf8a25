//! What holds of records and of what is done to them, said of their fields.

use vstd::prelude::*;
use vstd::utf8::*;

use super::block::{block_path, decode_block, fanout_dir, path_join, Block, BlockId};
use super::bucket_meta::{decode_bucket, BucketMeta};
use super::errors::{FsError, MetaError};
use super::meta_store::block_tree::reads_block;
use super::meta_store::ops::{
    first_bad_bucket, first_bad_name, is_bucket, is_reserved_name, lists_bucket_names,
    lists_buckets, with_bucket, without_bucket,
};
use super::meta_store::transaction::{healed, usage_at};
use super::meta_store::{moved_usage, usage_value};
use super::object::{decode_object, encode_object, lemma_object_round_trip, DataView};
use super::object::{Object, ObjectView};
use super::store_header::{
    decodes_header, is_supported, lemma_store_id_hex_round_trip, names_store, parsed_id,
    StoreHeader, StoreHeaderError, STORE_HEADER_MAGIC,
};
use super::stores::ack::ack_class;
use super::traits::{lookup, Rows};
use crate::bytes::{
    le_bytes, le_value, lemma_byte_ranges, lemma_le_bytes_len, lemma_le_bytes_of_le_value,
    lemma_le_value_of_le_bytes,
};
use crate::cas::multipart::{decode_part, encode_part, lemma_part_round_trip, PartView};
use crate::config::is_stripe_count;
use crate::hasher::{header_hasher, Hasher, HasherError};
use crate::text::{dec, hex};

verus! {

/// Whether block ids are of one width, 16 or 32 bytes.
pub open spec fn of_one_width(ids: Seq<Seq<u8>>) -> bool {
    (forall|i: int| 0 <= i < ids.len() ==> (#[trigger] ids[i]).len() == 16) || (forall|i: int|
        0 <= i < ids.len() ==> (#[trigger] ids[i]).len() == 32)
}

/// Every object that a machine can hold survives being written and read back,
/// however large, whenever made, stored in one piece, in parts or inlined.
pub proof fn lemma_objects_survive(o: ObjectView)
    requires
        o.size <= u64::MAX,
        i64::MIN <= o.ctime <= i64::MAX,
        o.hash.len() == 16,
        match o.data {
            DataView::SinglePart(ids) => of_one_width(ids),
            DataView::MultiPart(ids, parts) => of_one_width(ids) && parts <= usize::MAX,
            DataView::Inline(_) => true,
        },
        encode_object(o).len() <= usize::MAX,
    ensures
        decode_object(encode_object(o)) == Ok::<ObjectView, FsError>(o),
{
    lemma_object_round_trip(o);
}

/// Every part that a machine can hold survives being written and read back.
pub proof fn lemma_parts_survive(p: PartView)
    requires
        p.size <= usize::MAX,
        i64::MIN <= p.part_number <= i64::MAX,
        p.hash.len() == 16,
        of_one_width(p.blocks),
        encode_part(p).len() <= usize::MAX,
    ensures
        decode_part(encode_part(p)) == Ok::<PartView, FsError>(p),
{
    lemma_part_round_trip(p);
}

/// The tag of an object is the hex of its hash, and behind a dash the number of its
/// parts where it was uploaded in parts.
pub proof fn lemma_e_tag(o: ObjectView)
    ensures
        o.data matches DataView::MultiPart(_, parts) ==> Object::e_tag(o) == hex(o.hash) + "-"@
            + dec(parts),
        !(o.data is MultiPart) ==> Object::e_tag(o) == hex(o.hash),
{
}

/// A block file lies under one directory per level, each named by one byte of the
/// block's id in order, and is named by the whole id. There is one level at least,
/// and no more than the id has bytes.
pub proof fn lemma_block_path(id: Seq<u8>, depth: nat, root: Seq<char>, n: nat)
    ensures
        1 <= depth <= id.len() ==> block_path(id, depth, root) == path_join(
            fanout_dir(id, depth, root),
            hex(id),
        ),
        depth == 0 ==> block_path(id, depth, root) == path_join(fanout_dir(id, 1, root), hex(id)),
        depth > id.len() && depth > 0 ==> block_path(id, depth, root) == path_join(
            fanout_dir(id, id.len(), root),
            hex(id),
        ),
        fanout_dir(id, 0, root) == root,
        fanout_dir(id, n + 1, root) == path_join(fanout_dir(id, n, root), hex(seq![id[n as int]])),
        root.len() > 0 && root.last() != '/' ==> path_join(root, hex(id)) == root + "/"@ + hex(id),
{
}

/// Creating a bucket files its record and a usage counter of zero, and leaves every
/// other row alone.
pub proof fn lemma_bucket_created(
    rows: Rows,
    name: Seq<char>,
    raw: Seq<u8>,
    tree: Seq<char>,
    key: Seq<u8>,
)
    ensures
        ({
            let now = with_bucket(rows, name, raw);
            &&& lookup(now, "_BUCKETS"@, encode_utf8(name)) == Some(raw)
            &&& usage_at(now, name) == Some(0nat)
            &&& !(key == encode_utf8(name) && (tree == "_BUCKETS"@ || tree == "_USAGE"@)) ==> lookup(
                now,
                tree,
                key,
            ) == lookup(rows, tree, key)
        }),
{
    reveal_strlit("_BUCKETS");
    reveal_strlit("_USAGE");
    assert("_BUCKETS"@.len() != "_USAGE"@.len());
    lemma_le_bytes_len(0, 8);
    lemma_byte_ranges();
    lemma_le_value_of_le_bytes(0, 8);
}

/// Dropping a bucket takes its record, its usage counter and, where it has a tree,
/// every row of that tree away, and leaves every other row alone.
pub proof fn lemma_bucket_dropped(
    rows: Rows,
    name: Seq<char>,
    has_tree: bool,
    tree: Seq<char>,
    key: Seq<u8>,
)
    ensures
        lookup(without_bucket(rows, name, has_tree), tree, key) == (if key == encode_utf8(name) && (
        tree == "_BUCKETS"@ || tree == "_USAGE"@) || (has_tree && tree == name) {
            None
        } else {
            lookup(rows, tree, key)
        }),
{
}

/// A usage counter moves by the delta, down to zero and up to what 64 bits hold.
pub proof fn lemma_usage_moves(current: nat, delta: int)
    requires
        current <= u64::MAX,
    ensures
        0 <= current + delta <= u64::MAX ==> moved_usage(current, delta) == current + delta,
        current + delta < 0 ==> moved_usage(current, delta) == 0,
        current + delta > u64::MAX ==> moved_usage(current, delta) == u64::MAX,
{
}

/// A row of eight bytes is a usage counter, the number they give with the lowest
/// byte first; a row of any other width is none. A counter that was never written
/// reads zero.
pub proof fn lemma_usage_read(rows: Rows, bucket: Seq<char>, n: nat)
    requires
        n <= u64::MAX,
    ensures
        usage_value(le_bytes(n, 8)) == Some(n),
        lookup(rows, "_USAGE"@, encode_utf8(bucket)) matches Some(raw) ==> (usage_at(rows, bucket)
            is Some <==> raw.len() == 8),
        lookup(rows, "_USAGE"@, encode_utf8(bucket)) is None ==> usage_at(rows, bucket) == Some(
            0nat,
        ),
{
    lemma_le_bytes_len(n, 8);
    lemma_byte_ranges();
    lemma_le_value_of_le_bytes(n, 8);
}

/// A new file for a block gives a record of its size and depth: with one reference
/// where there was none, and otherwise with one reference more, no longer flagged
/// degraded and with every other flag as it was.
pub proof fn lemma_new_file_recorded(present: Option<Block>, len: usize, depth: u8)
    requires
        present matches Some(b) ==> b.rc < usize::MAX,
    ensures
        healed(present, len, depth).size == len,
        healed(present, len, depth).depth == depth,
        present is None ==> healed(present, len, depth).rc == 1 && healed(present, len, depth).flags
            == 0,
        present matches Some(b) ==> {
            let now = healed(present, len, depth);
            &&& now.rc == b.rc + 1
            &&& now.flags % 2 == 0
            &&& now.flags / 2 == b.flags / 2
        },
{
}

/// Stores of format versions 3 and 4 are opened, and no others; a header names a
/// hash with algorithm 1 at widths 16 and 32, and none otherwise, the algorithm
/// being complained of first; an id names a store unless all of it is zero.
pub proof fn lemma_header_fields(version: u16, algo: u8, width: u8, id: Seq<u8>)
    ensures
        is_supported(version) <==> version == 3 || version == 4,
        algo == 1 && width == 16 ==> header_hasher(algo, width) == Ok::<Hasher, HasherError>(
            Hasher::Blake3W16,
        ),
        algo == 1 && width == 32 ==> header_hasher(algo, width) == Ok::<Hasher, HasherError>(
            Hasher::Blake3W32,
        ),
        algo != 1 ==> header_hasher(algo, width) == Err::<Hasher, HasherError>(
            HasherError::UnknownAlgo(algo),
        ),
        algo == 1 && width != 16 && width != 32 ==> header_hasher(algo, width) == Err::<
            Hasher,
            HasherError,
        >(HasherError::UnsupportedWidth(width)),
        names_store(id) <==> !(forall|i: int| 0 <= i < id.len() ==> #[trigger] id[i] == 0),
{
    if !names_store(id) {
        assert forall|i: int| 0 <= i < id.len() implies #[trigger] id[i] == 0 by {}
    }
}

/// The part and upload records may be lost after an acknowledgement, and no other
/// tree may.
pub proof fn lemma_ack_classes(name: Seq<char>)
    ensures
        ack_class(name) is Recoverable <==> name == "_MULTIPART_PARTS"@ || name == "_UPLOADS"@,
        ack_class(name) is Contract <==> !(ack_class(name) is Recoverable),
{
}

/// What is wrong with the bytes of a header is told in order: their number first,
/// with the end of the first field that is cut off, then the magic, then the
/// version, then the hash. A header with none of that wrong is read.
pub proof fn lemma_header_refused(buf: Seq<u8>, out: Result<StoreHeader, StoreHeaderError>)
    requires
        decodes_header(buf, out),
    ensures
        buf.len() < 32 ==> (out matches Err(StoreHeaderError::Malformed(FsError::Truncated {
            record,
            needed,
            got,
        })) && got == buf.len() && buf.len() < needed && (needed == 4 || needed == 6 || needed == 7
            || needed == 8 || needed == 16 || needed == 32) && (buf.len() >= 4 ==> needed > 4) && (
        buf.len() < 4 ==> needed == 4) && (buf.len() < 6 ==> needed <= 6) && (buf.len() < 7
            ==> needed <= 7) && (buf.len() < 8 ==> needed <= 8) && (buf.len() < 16 ==> needed
            <= 16)),
        32 < buf.len() <= usize::MAX ==> (out matches Err(
            StoreHeaderError::Malformed(FsError::TrailingBytes { record, extra }),
        ) && extra == buf.len() - 32),
        buf.len() == 32 ==> {
            let magic = buf.subrange(0, 4) == STORE_HEADER_MAGIC@;
            let version = le_value(buf.subrange(4, 6));
            let supported = version == 3 || version == 4;
            let hash = buf[6] == 1 && (buf[7] == 16 || buf[7] == 32);
            &&& out is Ok <==> magic && supported && hash
            &&& !magic <==> (out matches Err(StoreHeaderError::BadMagic(_)))
            &&& magic && !supported <==> (out matches Err(StoreHeaderError::UnsupportedVersion(_)))
            &&& magic && supported && !hash <==> (out matches Err(StoreHeaderError::Hash(_)))
            &&& out matches Ok(h) ==> h.version == version && h.created_at == le_value(
                buf.subrange(8, 16),
            ) && h.store_id@ == buf.subrange(16, 32) && (h.hasher is Blake3W16 <==> buf[7] == 16)
        },
{
    lemma_le_bytes_of_le_value(buf.subrange(4, 6));
    lemma_byte_ranges();
}

/// A text names a store exactly where it is 32 hex digits that are not all zero; and
/// the lowercase hex of a store's id names that store.
pub proof fn lemma_id_named(text: Seq<char>, id: Seq<u8>)
    requires
        id.len() == 16,
        exists|i: int| 0 <= i < id.len() && id[i] != 0,
    ensures
        parsed_id(hex(id)) == Some(id),
        parsed_id(text) matches Some(found) ==> found.len() == 16 && encode_utf8(text).len() == 32
            && exists|i: int| 0 <= i < 16 && #[trigger] found[i] != 0,
{
    lemma_store_id_hex_round_trip(id);
    if let Some(found) = parsed_id(text) {
        assert(names_store(found));
        let k = choose|k: int| 0 <= k < found.len() && found[k] != 0;
        assert(found[k] != 0);
    }
}

/// A store can have from one up to 65536 lock stripes.
pub proof fn lemma_stripe_counts(n: usize)
    ensures
        is_stripe_count(n) <==> 1 <= n <= 65536,
{
}

/// On a store that answers, buckets are listed exactly where every record decodes:
/// one for each record, in their order, with the time and the name it holds. The
/// first record that does not is otherwise complained of.
pub proof fn lemma_buckets_listed(
    rows: Seq<(Seq<u8>, Seq<u8>)>,
    out: Result<Vec<BucketMeta>, MetaError>,
)
    requires
        lists_buckets(rows, out, true),
    ensures
        out is Ok <==> forall|i: int|
            0 <= i < rows.len() ==> decode_bucket((#[trigger] rows[i]).1) is Ok,
        out matches Ok(list) ==> list@.len() == rows.len() && forall|i: int|
            0 <= i < rows.len() ==> (decode_bucket((#[trigger] rows[i]).1) matches Ok(b) && b.0
                == list@[i].ctime && b.1 == list@[i].name@),
        out matches Err(e) ==> exists|i: int|
            0 <= i < rows.len() && (decode_bucket((#[trigger] rows[i]).1) matches Err(damage) && e
                == MetaError::Corruption(damage)) && forall|j: int|
                0 <= j < i ==> decode_bucket((#[trigger] rows[j]).1) is Ok,
{
    if let Ok(list) = out {
        assert forall|i: int| 0 <= i < rows.len() implies (decode_bucket((#[trigger] rows[i]).1)
            matches Ok(b) && b.0 == list@[i].ctime && b.1 == list@[i].name@) by {
            assert(is_bucket(rows[i], list@[i]));
        }
    } else {
        let i = choose|i: int| #[trigger]
            first_bad_bucket(rows, i) && (decode_bucket(rows[i].1) matches Err(damage) && out
                == Err::<Vec<BucketMeta>, MetaError>(MetaError::Corruption(damage)));
        assert(decode_bucket(rows[i].1) is Err);
    }
}

/// On a store that answers, bucket names are listed exactly where every key is text:
/// one for each key, in their order, and it is that text.
pub proof fn lemma_bucket_names_listed(
    rows: Seq<(Seq<u8>, Seq<u8>)>,
    out: Result<Vec<String>, MetaError>,
)
    requires
        lists_bucket_names(rows, out, true),
    ensures
        out is Ok <==> forall|i: int| 0 <= i < rows.len() ==> valid_utf8((#[trigger] rows[i]).0),
        out matches Ok(list) ==> list@.len() == rows.len() && forall|i: int|
            0 <= i < rows.len() ==> encode_utf8(list@[i]@) == (#[trigger] rows[i]).0,
{
    if let Ok(list) = out {
        assert forall|i: int| 0 <= i < rows.len() implies encode_utf8(list@[i]@)
            == (#[trigger] rows[i]).0 by {
            decode_utf8_encode_utf8(rows[i].0);
        }
    } else {
        let i = choose|i: int| #[trigger] first_bad_name(rows, i);
        assert(!valid_utf8(rows[i].0));
    }
}

/// A block record is read under a key of 16 or 32 bytes where it decodes, as the block
/// of that id; under any other key, and where it does not decode, it is an error.
pub proof fn lemma_block_read(
    entry: (Seq<u8>, Seq<u8>),
    out: Result<(BlockId, Block), MetaError>,
)
    requires
        reads_block(entry, out),
    ensures
        out is Ok <==> (entry.0.len() == 16 || entry.0.len() == 32) && decode_block(entry.1) is Ok,
        out matches Ok(got) ==> got.0@ == entry.0 && decode_block(entry.1) == Ok::<Block, FsError>(
            got.1,
        ),
        entry.0.len() == 16 || entry.0.len() == 32 ==> (out matches Err(e) ==> (decode_block(
            entry.1,
        ) matches Err(damage) && e == MetaError::Corruption(damage))),
{
}

/// A name that begins with an underscore is the store's own, and no other is.
pub proof fn lemma_reserved(rest: Seq<char>, c: char)
    ensures
        is_reserved_name(seq![c] + rest) <==> c == '_',
        !is_reserved_name(Seq::empty()),
{
}

/// An object's data refers to the blocks it lists, in one piece or in parts, and to
/// none where it is inlined; and the record says which of these it is by 0, 1 and 2.
pub proof fn lemma_object_kinds(ids: Seq<Seq<u8>>, parts: nat, data: Seq<u8>, o: ObjectView)
    ensures
        DataView::SinglePart(ids).blocks() == ids,
        DataView::MultiPart(ids, parts).blocks() == ids,
        DataView::Inline(data).blocks().len() == 0,
        encode_object(o)[0] == match o.data {
            DataView::SinglePart(_) => 0u8,
            DataView::MultiPart(_, _) => 1u8,
            DataView::Inline(_) => 2u8,
        },
{
    reveal_with_fuel(le_bytes, 2);
}

} // verus!
