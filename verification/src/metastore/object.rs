//! Object records: metadata plus either block references or inline data.

use vstd::array::array_as_slice;
use vstd::prelude::*;
use vstd::slice::slice_to_vec;
use vstd::string::*;

use super::block::BlockId;
use super::codec::{
    bits_i64, encode_id_list, field_bytes, field_i64, field_id_list, field_len, field_number,
    i64_bits, id_views, lemma_read_bytes, lemma_read_id_list, lemma_read_number, list_width,
    one_width, put_bytes, put_i64, put_id_list, put_len, trailing, Field, Reader,
};
use super::content_hash::ContentHash;
use super::errors::FsError;
use crate::bytes::{le_bytes, lemma_byte_ranges, lemma_le_bytes_len, put_le};
use crate::clock::{has_date, rfc3339, rfc3339_text, unix_now};
use crate::text::{dec, hex, put_len_dec};

verus! {

/// An object in the storage system: its metadata, and its content where that is
/// stored inline.
#[derive(Debug)]
pub struct Object {
    /// Total size of the object in bytes.
    pub size: u64,
    /// Creation time as a Unix timestamp (seconds since epoch).
    pub ctime: i64,
    /// MD5 digest of the object's content (the S3 ETag source).
    pub hash: ContentHash,
    /// The data or the references to data blocks.
    pub data: ObjectData,
}

/// The different ways object data can be stored.
#[derive(Debug)]
pub enum ObjectData {
    /// The data stands in the metadata record.
    Inline { data: Vec<u8> },
    /// The data stands in blocks, uploaded in a single operation.
    SinglePart { blocks: Vec<BlockId> },
    /// The data stands in blocks, uploaded in parts.
    MultiPart { blocks: Vec<BlockId>, parts: usize },
}

/// The type of an object.
#[derive(Debug, PartialEq, Eq, Clone, Copy, Structural)]
pub enum ObjectType {
    /// A regular object uploaded in a single operation.
    Single,
    /// An object uploaded in multiple parts.
    Multipart,
    /// A small object with data stored directly in the metadata.
    Inline,
}

/// What an object's data states.
#[verifier::ext_equal]
pub ghost enum DataView {
    Inline(Seq<u8>),
    SinglePart(Seq<Seq<u8>>),
    MultiPart(Seq<Seq<u8>>, nat),
}

/// What an object record states.
#[verifier::ext_equal]
pub ghost struct ObjectView {
    pub size: nat,
    pub ctime: int,
    pub hash: Seq<u8>,
    pub data: DataView,
}

impl View for ObjectData {
    type V = DataView;

    open spec fn view(&self) -> DataView {
        match self {
            ObjectData::Inline { data } => DataView::Inline(data@),
            ObjectData::SinglePart { blocks } => DataView::SinglePart(id_views(blocks@)),
            ObjectData::MultiPart { blocks, parts } => DataView::MultiPart(
                id_views(blocks@),
                *parts as nat,
            ),
        }
    }
}

impl View for Object {
    type V = ObjectView;

    open spec fn view(&self) -> ObjectView {
        ObjectView {
            size: self.size as nat,
            ctime: self.ctime as int,
            hash: self.hash@,
            data: self.data@,
        }
    }
}

impl DataView {
    pub open spec fn object_type(self) -> ObjectType {
        match self {
            DataView::Inline(_) => ObjectType::Inline,
            DataView::SinglePart(_) => ObjectType::Single,
            DataView::MultiPart(_, _) => ObjectType::Multipart,
        }
    }

    /// The blocks that the data refers to, in order; inline data refers to
    /// none.
    pub open spec fn blocks(self) -> Seq<Seq<u8>> {
        match self {
            DataView::Inline(_) => Seq::empty(),
            DataView::SinglePart(blocks) => blocks,
            DataView::MultiPart(blocks, _) => blocks,
        }
    }
}

impl ObjectType {
    /// The number a type is written as.
    pub open spec fn code(self) -> u8 {
        match self {
            ObjectType::Single => 0,
            ObjectType::Multipart => 1,
            ObjectType::Inline => 2,
        }
    }

    /// The number a type is written as.
    pub fn as_u8(&self) -> (code: u8)
        ensures
            code == self.code(),
    {
        match self {
            ObjectType::Single => 0,
            ObjectType::Multipart => 1,
            ObjectType::Inline => 2,
        }
    }
}

/// Size of the fields every object record starts with.
pub const OBJECT_HEADER_SIZE: usize = 33;

/// The part of an object record that depends on how its data is stored.
pub open spec fn encode_data(data: DataView) -> Seq<u8> {
    match data {
        DataView::Inline(data) => le_bytes(data.len(), 8) + data,
        DataView::SinglePart(blocks) => encode_id_list(blocks),
        DataView::MultiPart(blocks, parts) => le_bytes(parts, 8) + encode_id_list(blocks),
    }
}

/// An object record as it is written:
///
/// ```text
/// type u8 | size u64 | ctime i64 | hash [16]
///   Inline:     data_len u64 | data
///   SinglePart: id_width u8 | count u64 | ids[count * id_width]
///   MultiPart:  parts u64 | id_width u8 | count u64 | ids
/// ```
pub open spec fn encode_object(o: ObjectView) -> Seq<u8> {
    le_bytes(o.data.object_type().code() as nat, 1) + le_bytes(o.size, 8) + le_bytes(
        i64_bits(o.ctime),
        8,
    ) + o.hash + encode_data(o.data)
}

/// Reading the data of an object of a given type.
pub open spec fn field_data(buf: Seq<u8>, pos: nat, code: nat) -> Field<DataView> {
    let rec = "Object";
    if code == 0 {
        match field_id_list(rec, buf, pos) {
            Err(e) => Err(e),
            Ok((blocks, next)) => Ok((DataView::SinglePart(blocks), next)),
        }
    } else if code == 1 {
        match field_len(rec, buf, pos, "parts") {
            Err(e) => Err(e),
            Ok((parts, at_list)) => match field_id_list(rec, buf, at_list) {
                Err(e) => Err(e),
                Ok((blocks, next)) => Ok((DataView::MultiPart(blocks, parts), next)),
            },
        }
    } else {
        match field_len(rec, buf, pos, "data_len") {
            Err(e) => Err(e),
            Ok((len, at_data)) => match field_bytes(rec, buf, at_data, "data", len) {
                Err(e) => Err(e),
                Ok((data, next)) => Ok((DataView::Inline(data), next)),
            },
        }
    }
}

/// What an object record's bytes stand for.
pub open spec fn decode_object(buf: Seq<u8>) -> Result<ObjectView, FsError> {
    let rec = "Object";
    if buf.len() < 41 {
        Err(FsError::Truncated { record: rec, needed: 41, got: buf.len() as usize })
    } else {
        match field_number(rec, buf, 0, "object_type", 1) {
            Err(e) => Err(e),
            Ok((code, at_size)) => if code > 2 {
                Err(FsError::UnknownObjectType(code as u8))
            } else {
                match field_number(rec, buf, at_size, "size", 8) {
                    Err(e) => Err(e),
                    Ok((size, at_ctime)) => match field_i64(rec, buf, at_ctime, "ctime") {
                        Err(e) => Err(e),
                        Ok((ctime, at_hash)) => match field_bytes(rec, buf, at_hash, "hash", 16) {
                            Err(e) => Err(e),
                            Ok((hash, at_data)) => match field_data(buf, at_data, code) {
                                Err(e) => Err(e),
                                Ok((data, end)) => match trailing(rec, buf, end) {
                                    Err(e) => Err(e),
                                    Ok(()) => Ok(ObjectView { size, ctime, hash, data }),
                                },
                            },
                        },
                    },
                }
            },
        }
    }
}

impl Object {
    /// Creates an object that is made now.
    pub fn new(size: u64, hash: ContentHash, object_data: ObjectData) -> (object: Self)
        ensures
            object.size == size,
            object.hash == hash,
            object.data == object_data,
    {
        Object::with_ctime(size, unix_now(), hash, object_data)
    }

    /// Creates an object that was made at a given time.
    pub fn with_ctime(size: u64, ctime: i64, hash: ContentHash, object_data: ObjectData) -> (object:
        Self)
        ensures
            object == (Object { size, ctime, hash, data: object_data }),
    {
        Object { size, ctime, hash, data: object_data }
    }

    /// Returns the size of an inline object record that carries no data, which
    /// is also the length of the shortest valid record.
    pub fn minimum_inline_metadata_size() -> (size: usize)
        ensures
            size == 41,
    {
        OBJECT_HEADER_SIZE + 8
    }

    /// Serializes the object.
    pub fn to_vec(&self) -> (out: Vec<u8>)
        ensures
            out@ == encode_object(self@),
    {
        let mut out: Vec<u8> = Vec::new();
        put_le(&mut out, self.object_type().as_u8() as u64, 1);
        put_le(&mut out, self.size, 8);
        put_i64(&mut out, self.ctime);
        put_bytes(&mut out, self.hash.as_slice());
        let ghost head = out@;
        match &self.data {
            ObjectData::SinglePart { blocks } => {
                put_id_list(&mut out, blocks);
            },
            ObjectData::MultiPart { blocks, parts } => {
                put_len(&mut out, *parts);
                put_id_list(&mut out, blocks);
            },
            ObjectData::Inline { data } => {
                put_len(&mut out, data.len());
                put_bytes(&mut out, data);
            },
        }
        proof {
            assert(out@ =~= head + encode_data(self.data@));
            assert(out@ =~= encode_object(self@));
        }
        out
    }

    /// The ETag: the digest, with the number of parts where there were any.
    pub open spec fn e_tag(o: ObjectView) -> Seq<char> {
        match o.data {
            DataView::MultiPart(_, parts) => hex(o.hash) + "-"@ + dec(parts),
            _ => hex(o.hash),
        }
    }

    /// Formats the object's ETag according to S3 conventions.
    pub fn format_e_tag(&self) -> (text: String)
        ensures
            text@ == Object::e_tag(self@),
    {
        let mut out = self.hash.to_hex();
        match &self.data {
            ObjectData::MultiPart { blocks: _, parts } => {
                out.append("-");
                put_len_dec(&mut out, *parts);
            },
            _ => {},
        }
        out
    }

    /// Returns the MD5 content digest of the object.
    pub fn hash(&self) -> (hash: &ContentHash)
        ensures
            *hash == self.hash,
    {
        &self.hash
    }

    /// Updates the object's creation time to the current time, and nothing else.
    /// The time is the machine's, so nothing is claimed of it.
    pub fn touch(&mut self)
        ensures
            *final(self) == (Object { ctime: final(self).ctime, ..*old(self) }),
    {
        self.touch_at(unix_now());
    }

    /// Updates the object's creation time to a given time.
    pub fn touch_at(&mut self, now: i64)
        ensures
            *final(self) == (Object { ctime: now, ..*old(self) }),
    {
        self.ctime = now;
    }

    /// Returns the total size of the object in bytes.
    pub fn size(&self) -> (size: u64)
        ensures
            size == self.size,
    {
        self.size
    }

    /// Returns the block ids that make up the object, none where it is inline.
    pub fn blocks(&self) -> (blocks: &[BlockId])
        ensures
            id_views(blocks@) == self@.data.blocks(),
    {
        match &self.data {
            ObjectData::SinglePart { blocks } => blocks,
            ObjectData::MultiPart { blocks, parts: _ } => blocks,
            ObjectData::Inline { data: _ } => {
                let none: &[BlockId] = array_as_slice(&[]);
                proof {
                    assert(id_views(none@) =~= Seq::<Seq<u8>>::empty());
                }
                none
            },
        }
    }

    /// Checks if the object refers to a block.
    pub fn has_block(&self, block: &BlockId) -> (yes: bool)
        ensures
            yes == self@.data.blocks().contains(block@),
    {
        let blocks = self.blocks();
        let mut i: usize = 0;
        while i < blocks.len()
            invariant
                i <= blocks@.len(),
                id_views(blocks@) == self@.data.blocks(),
                forall|j: int| 0 <= j < i ==> (#[trigger] blocks@[j])@ != block@,
            decreases blocks@.len() - i,
        {
            if blocks[i].same(block) {
                proof {
                    assert(id_views(blocks@)[i as int] == block@);
                }
                return true;
            }
            i = i + 1;
        }
        proof {
            assert forall|j: int| 0 <= j < blocks@.len() implies id_views(blocks@)[j] != block@ by {
                assert(id_views(blocks@)[j] == blocks@[j]@);
            }
        }
        false
    }

    /// Returns the last modification time in seconds since the epoch.
    pub fn last_modified(&self) -> (seconds: i64)
        ensures
            seconds == self.ctime,
    {
        self.ctime
    }

    /// Formats the creation time as an RFC 3339 text.
    pub fn format_ctime(&self) -> (text: String)
        requires
            has_date(self.ctime as int),
        ensures
            rfc3339(self.ctime as int) == Some(text@),
    {
        match rfc3339_text(self.ctime) {
            Some(text) => text,
            None => String::new(),
        }
    }

    /// Checks if the object is stored inline.
    pub fn is_inlined(&self) -> (yes: bool)
        ensures
            yes == (self.data is Inline),
    {
        match &self.data {
            ObjectData::Inline { data: _ } => true,
            _ => false,
        }
    }

    /// Returns the inline data if the object is stored inline.
    pub fn inlined(&self) -> (out: Option<&Vec<u8>>)
        ensures
            match self.data {
                ObjectData::Inline { data } => out == Some(&data),
                _ => out is None,
            },
    {
        match &self.data {
            ObjectData::Inline { data } => Some(data),
            _ => None,
        }
    }

    /// Returns the object type.
    pub fn object_type(&self) -> (object_type: ObjectType)
        ensures
            object_type == self@.data.object_type(),
    {
        match &self.data {
            ObjectData::SinglePart { .. } => ObjectType::Single,
            ObjectData::MultiPart { .. } => ObjectType::Multipart,
            ObjectData::Inline { .. } => ObjectType::Inline,
        }
    }

    /// Returns the object data.
    pub fn data(&self) -> (data: &ObjectData)
        ensures
            *data == self.data,
    {
        &self.data
    }

    /// Deserializes an object, with an exact length check.
    pub fn try_from(value: &[u8]) -> (out: Result<Self, FsError>)
        ensures
            match out {
                Ok(o) => decode_object(value@) == Ok::<ObjectView, FsError>(o@),
                Err(e) => decode_object(value@) == Err::<ObjectView, FsError>(e),
            },
    {
        let minimum: usize = Object::minimum_inline_metadata_size();
        if value.len() < minimum {
            return Err(FsError::Truncated { record: "Object", needed: minimum, got: value.len() });
        }
        let mut r = Reader::new("Object", value);
        let code: u8 = match r.u8("object_type") {
            Ok(v) => v,
            Err(e) => {
                return Err(e);
            },
        };
        if code > 2 {
            return Err(FsError::UnknownObjectType(code));
        }
        let size: u64 = match r.u64("size") {
            Ok(v) => v,
            Err(e) => {
                return Err(e);
            },
        };
        let ctime: i64 = match r.i64("ctime") {
            Ok(v) => v,
            Err(e) => {
                return Err(e);
            },
        };
        let hash: [u8; 16] = match r.array::<16>("hash") {
            Ok(v) => v,
            Err(e) => {
                return Err(e);
            },
        };
        let data: ObjectData = match Object::read_data(&mut r, code) {
            Ok(v) => v,
            Err(e) => {
                return Err(e);
            },
        };
        match r.finish() {
            Ok(()) => Ok(Object { size, ctime, hash: ContentHash(hash), data }),
            Err(e) => Err(e),
        }
    }

    /// Reads the data of an object of a given type.
    fn read_data(r: &mut Reader<'_>, code: u8) -> (out: Result<ObjectData, FsError>)
        requires
            old(r).wf(),
            old(r).record == "Object",
        ensures
            old(r).follows(
                *final(r),
                out,
                field_data(old(r).buf@, old(r).pos as nat, code as nat),
                |got: ObjectData, want: DataView| got@ == want,
            ),
    {
        if code == 0 {
            match r.id_list() {
                Ok(blocks) => Ok(ObjectData::SinglePart { blocks }),
                Err(e) => Err(e),
            }
        } else if code == 1 {
            let parts: usize = match r.len("parts") {
                Ok(v) => v,
                Err(e) => {
                    return Err(e);
                },
            };
            match r.id_list() {
                Ok(blocks) => Ok(ObjectData::MultiPart { blocks, parts }),
                Err(e) => Err(e),
            }
        } else {
            let len: usize = match r.len("data_len") {
                Ok(v) => v,
                Err(e) => {
                    return Err(e);
                },
            };
            match r.bytes("data", len) {
                Ok(raw) => Ok(ObjectData::Inline { data: slice_to_vec(raw) }),
                Err(e) => Err(e),
            }
        }
    }
}

/// Whether a view is that of an object which can stand in memory: numbers fit
/// their fields, and the block ids have one width, as those of one store do.
pub open spec fn is_object(o: ObjectView) -> bool {
    &&& o.size <= u64::MAX
    &&& i64::MIN <= o.ctime <= i64::MAX
    &&& o.hash.len() == 16
    &&& one_width(o.data.blocks())
    &&& o.data matches DataView::MultiPart(_, parts) ==> parts <= usize::MAX
    &&& encode_object(o).len() <= usize::MAX
}

/// An object record survives being written and read back.
pub proof fn lemma_object_round_trip(o: ObjectView)
    requires
        is_object(o),
    ensures
        decode_object(encode_object(o)) == Ok::<ObjectView, FsError>(o),
{
    let buf = encode_object(o);
    let rec = "Object";
    let code = o.data.object_type().code() as nat;
    let kind = le_bytes(code, 1);
    let size = le_bytes(o.size, 8);
    let ctime = le_bytes(i64_bits(o.ctime), 8);
    let data = encode_data(o.data);
    let none = Seq::<u8>::empty();
    lemma_le_bytes_len(code, 1);
    lemma_le_bytes_len(o.size, 8);
    lemma_le_bytes_len(i64_bits(o.ctime), 8);
    lemma_byte_ranges();
    assert(buf =~= none + kind + (size + ctime + o.hash + data));
    lemma_read_number(rec, none, code, 1, size + ctime + o.hash + data, "object_type");
    assert(buf =~= kind + size + (ctime + o.hash + data));
    lemma_read_number(rec, kind, o.size, 8, ctime + o.hash + data, "size");
    assert(buf =~= (kind + size) + ctime + (o.hash + data));
    lemma_read_number(rec, kind + size, i64_bits(o.ctime), 8, o.hash + data, "ctime");
    assert(bits_i64(i64_bits(o.ctime)) == o.ctime);
    assert(buf =~= (kind + size + ctime) + o.hash + data);
    lemma_read_bytes(rec, kind + size + ctime, o.hash, data, "hash");
    let head = kind + size + ctime + o.hash;
    match o.data {
        DataView::Inline(bytes) => {
            let len = le_bytes(bytes.len(), 8);
            lemma_le_bytes_len(bytes.len(), 8);
            assert(buf =~= head + len + bytes);
            lemma_read_number(rec, head, bytes.len(), 8, bytes, "data_len");
            assert(buf =~= (head + len) + bytes + none);
            lemma_read_bytes(rec, head + len, bytes, none, "data");
        },
        DataView::SinglePart(blocks) => {
            lemma_le_bytes_len(list_width(blocks), 1);
            lemma_le_bytes_len(blocks.len(), 8);
            assert(buf =~= head + encode_id_list(blocks) + none);
            lemma_read_id_list(rec, head, blocks, none);
        },
        DataView::MultiPart(blocks, parts) => {
            let count = le_bytes(parts, 8);
            lemma_le_bytes_len(parts, 8);
            assert(buf =~= head + count + encode_id_list(blocks));
            lemma_read_number(rec, head, parts, 8, encode_id_list(blocks), "parts");
            assert(buf =~= (head + count) + encode_id_list(blocks) + none);
            lemma_read_id_list(rec, head + count, blocks, none);
        },
    }
}

} // verus!
