//! Byte-level helpers shared by the on-disk record formats.
//!
//! Every record is a flat little-endian byte string with no framing of its own:
//! the store hands back exactly the bytes that were written, so a decoder must
//! treat both a short buffer and a long one as corruption.
//!
//! All length and count fields are `u64`, independent of the host pointer
//! width, and every derived offset is computed without overflow.

use vstd::array::array_fill_for_copy_types;
use vstd::prelude::*;
use vstd::slice::{slice_subrange, slice_to_vec};
use vstd::utf8::*;

use super::block::{is_id_width, BlockId, BLOCKID_SIZE, MAX_BLOCKID_SIZE};
use super::errors::FsError;
use crate::bytes::{
    byte_range, get_le, le_bytes, le_value, lemma_byte_ranges, lemma_le_bytes_len,
    lemma_le_bytes_of_le_value, lemma_le_value_of_le_bytes, put_le,
};
use crate::text::utf8_text;

verus! {

/// What reading a field at some position gives: the value and the position
/// behind it, or the reason why the field is not there.
pub type Field<T> = Result<(T, nat), FsError>;

/// Reading `len` raw bytes.
pub open spec fn field_bytes(
    record: &'static str,
    buf: Seq<u8>,
    pos: nat,
    field: &'static str,
    len: nat,
) -> Field<Seq<u8>> {
    if pos + len > usize::MAX {
        Err(FsError::LengthOverflow { record, field })
    } else if pos + len > buf.len() {
        Err(
            FsError::Truncated { record, needed: (pos + len) as usize, got: buf.len() as usize },
        )
    } else {
        Ok((buf.subrange(pos as int, (pos + len) as int), pos + len))
    }
}

/// Reading a little-endian number of `width` bytes.
pub open spec fn field_number(
    record: &'static str,
    buf: Seq<u8>,
    pos: nat,
    field: &'static str,
    width: nat,
) -> Field<nat> {
    match field_bytes(record, buf, pos, field, width) {
        Ok((raw, next)) => Ok((le_value(raw), next)),
        Err(e) => Err(e),
    }
}

/// Reading a length or count: a `u64` on disk that has to fit a `usize`.
pub open spec fn field_len(
    record: &'static str,
    buf: Seq<u8>,
    pos: nat,
    field: &'static str,
) -> Field<nat> {
    match field_number(record, buf, pos, field, 8) {
        Ok((n, next)) => if n > usize::MAX {
            Err(FsError::LengthOverflow { record, field })
        } else {
            Ok((n, next))
        },
        Err(e) => Err(e),
    }
}

/// Reading `len` bytes of text.
pub open spec fn field_text(
    record: &'static str,
    buf: Seq<u8>,
    pos: nat,
    field: &'static str,
    len: nat,
) -> Field<Seq<char>> {
    match field_bytes(record, buf, pos, field, len) {
        Ok((raw, next)) => if valid_utf8(raw) {
            Ok((decode_utf8(raw), next))
        } else {
            Err(FsError::InvalidUtf8 { record, field })
        },
        Err(e) => Err(e),
    }
}

/// A number as eight bytes hold it: negative numbers in two's complement.
pub open spec fn i64_bits(n: int) -> nat {
    if n < 0 {
        (n + 0x1_0000_0000_0000_0000) as nat
    } else {
        n as nat
    }
}

/// The number that eight bytes hold in two's complement.
pub open spec fn bits_i64(n: nat) -> int {
    if n > i64::MAX {
        n - 0x1_0000_0000_0000_0000
    } else {
        n as int
    }
}

/// Reading a signed number of eight bytes.
pub open spec fn field_i64(
    record: &'static str,
    buf: Seq<u8>,
    pos: nat,
    field: &'static str,
) -> Field<int> {
    match field_number(record, buf, pos, field, 8) {
        Ok((n, next)) => Ok((bits_i64(n), next)),
        Err(e) => Err(e),
    }
}

/// The ids of a run of `count` addresses of `width` bytes.
pub open spec fn split_ids(raw: Seq<u8>, width: nat, count: nat) -> Seq<Seq<u8>> {
    Seq::new(count, |i: int| raw.subrange(i * width, (i + 1) * width))
}

/// Reading a block-id list: `id_width u8 | count u64 | ids`.
pub open spec fn field_id_list(record: &'static str, buf: Seq<u8>, pos: nat) -> Field<
    Seq<Seq<u8>>,
> {
    match field_number(record, buf, pos, "id_width", 1) {
        Err(e) => Err(e),
        Ok((width, after_width)) => match field_len(record, buf, after_width, "id_count") {
            Err(e) => Err(e),
            Ok((count, after_count)) => if width == 0 && count == 0 {
                Ok((Seq::empty(), after_count))
            } else if !is_id_width(width) {
                Err(FsError::InvalidIdWidth(width as u8))
            } else if count * width > usize::MAX {
                Err(FsError::LengthOverflow { record, field: "id_count" })
            } else {
                match field_bytes(record, buf, after_count, "ids", count * width) {
                    Err(e) => Err(e),
                    Ok((raw, next)) => Ok((split_ids(raw, width, count), next)),
                }
            },
        },
    }
}

/// What is left of a record once its last field has been read.
pub open spec fn trailing(record: &'static str, buf: Seq<u8>, pos: nat) -> Result<(), FsError> {
    if pos == buf.len() {
        Ok(())
    } else {
        Err(FsError::TrailingBytes { record, extra: (buf.len() - pos) as usize })
    }
}

/// The addresses of a list of block ids.
pub open spec fn id_views(ids: Seq<BlockId>) -> Seq<Seq<u8>> {
    ids.map_values(|id: BlockId| id@)
}

/// The bytes of addresses written one after the other.
pub open spec fn concat_ids(ids: Seq<Seq<u8>>) -> Seq<u8>
    decreases ids.len(),
{
    if ids.len() == 0 {
        Seq::empty()
    } else {
        concat_ids(ids.drop_last()) + ids.last()
    }
}

/// The width that a list of addresses is written with.
pub open spec fn list_width(ids: Seq<Seq<u8>>) -> nat {
    if ids.len() == 0 {
        0
    } else {
        ids[0].len()
    }
}

/// A block-id list as it is written: `id_width u8 | count u64 | ids`.
pub open spec fn encode_id_list(ids: Seq<Seq<u8>>) -> Seq<u8> {
    le_bytes(list_width(ids), 1) + le_bytes(ids.len(), 8) + concat_ids(ids)
}

/// Whether all addresses of a list have one width, as those of one store do.
pub open spec fn one_width(ids: Seq<Seq<u8>>) -> bool {
    forall|i: int|
        0 <= i < ids.len() ==> (#[trigger] ids[i]).len() == list_width(ids) && is_id_width(
            ids[i].len(),
        )
}

/// Appends a length or count field as a little-endian `u64`.
pub(crate) fn put_len(out: &mut Vec<u8>, value: usize)
    ensures
        final(out)@ == old(out)@ + le_bytes(value as nat, 8),
{
    put_le(out, value as u64, 8)
}

/// Appends a signed number as eight bytes.
pub(crate) fn put_i64(out: &mut Vec<u8>, value: i64)
    ensures
        final(out)@ == old(out)@ + le_bytes(i64_bits(value as int), 8),
{
    if value >= 0 {
        put_le(out, value as u64, 8);
    } else {
        put_le(out, u64::MAX - ((-(value + 1)) as u64), 8);
    }
}

/// Appends bytes.
pub(crate) fn put_bytes(out: &mut Vec<u8>, bytes: &[u8])
    ensures
        final(out)@ == old(out)@ + bytes@,
{
    let mut i: usize = 0;
    proof {
        assert(out@ + bytes@.subrange(0, 0) =~= out@);
    }
    while i < bytes.len()
        invariant
            i <= bytes@.len(),
            out@ == old(out)@ + bytes@.subrange(0, i as int),
        decreases bytes@.len() - i,
    {
        out.push(bytes[i]);
        i = i + 1;
        proof {
            assert(bytes@.subrange(0, i as int) =~= bytes@.subrange(0, i - 1).push(
                bytes@[i - 1],
            ));
            assert(out@ =~= old(out)@ + bytes@.subrange(0, i as int));
        }
    }
    proof {
        assert(bytes@.subrange(0, bytes@.len() as int) =~= bytes@);
    }
}

/// Appends a block-id list as `id_width u8 | count u64 | ids`.
///
/// The width byte makes the record self-describing. All ids of one record come
/// from a single store and share a width; an empty list writes width 0.
pub(crate) fn put_id_list(out: &mut Vec<u8>, ids: &[BlockId])
    ensures
        final(out)@ == old(out)@ + encode_id_list(id_views(ids@)),
{
    let ghost views = id_views(ids@);
    let width: usize = if ids.len() == 0 {
        0
    } else {
        ids[0].len()
    };
    put_le(out, width as u64, 1);
    put_len(out, ids.len());
    let ghost head = out@;
    let mut i: usize = 0;
    proof {
        assert(head + concat_ids(views.subrange(0, 0)) =~= head);
    }
    while i < ids.len()
        invariant
            i <= ids@.len(),
            views == id_views(ids@),
            out@ == head + concat_ids(views.subrange(0, i as int)),
        decreases ids@.len() - i,
    {
        put_bytes(out, ids[i].as_slice());
        i = i + 1;
        proof {
            let shorter = views.subrange(0, i - 1);
            let longer = views.subrange(0, i as int);
            assert(longer.drop_last() =~= shorter);
            assert(longer.last() == ids@[i - 1]@);
            assert(out@ =~= head + concat_ids(longer));
        }
    }
    proof {
        assert(views.subrange(0, views.len() as int) =~= views);
        assert(out@ =~= old(out)@ + encode_id_list(views));
    }
}

/// A cursor over one record's bytes.
///
/// Reads advance the cursor and fail the moment the record is shorter than the
/// field being read. `finish` closes the record and rejects anything left over.
pub struct Reader<'a> {
    pub record: &'static str,
    pub buf: &'a [u8],
    pub pos: usize,
}

impl<'a> Reader<'a> {
    pub open spec fn wf(self) -> bool {
        self.pos <= self.buf@.len()
    }

    /// Whether a read from `self` that gave `got` and left `after` is the read
    /// that `want` describes, where `same` compares the values.
    pub open spec fn follows<T, U>(
        self,
        after: Self,
        got: Result<T, FsError>,
        want: Field<U>,
        same: spec_fn(T, U) -> bool,
    ) -> bool {
        &&& after.record == self.record
        &&& after.buf == self.buf
        &&& after.wf()
        &&& match (got, want) {
            (Ok(value), Ok((wanted, next))) => same(value, wanted) && after.pos == next,
            (Err(e), Err(wanted)) => e == wanted,
            _ => false,
        }
    }

    pub fn new(record: &'static str, buf: &'a [u8]) -> (reader: Self)
        ensures
            reader == (Reader { record, buf, pos: 0 }),
            reader.wf(),
    {
        Reader { record, buf, pos: 0 }
    }

    /// Consumes `len` bytes, or reports why they are not there.
    pub fn bytes(&mut self, field: &'static str, len: usize) -> (out: Result<&'a [u8], FsError>)
        requires
            old(self).wf(),
        ensures
            old(self).follows(
                *final(self),
                out,
                field_bytes(
                    old(self).record,
                    old(self).buf@,
                    old(self).pos as nat,
                    field,
                    len as nat,
                ),
                |got: &'a [u8], want: Seq<u8>| got@ == want,
            ),
    {
        match self.pos.checked_add(len) {
            None => Err(FsError::LengthOverflow { record: self.record, field }),
            Some(end) => if end > self.buf.len() {
                Err(FsError::Truncated { record: self.record, needed: end, got: self.buf.len() })
            } else {
                let out = slice_subrange(self.buf, self.pos, end);
                self.pos = end;
                Ok(out)
            },
        }
    }

    /// Reads a number of `width` bytes.
    pub fn number(&mut self, field: &'static str, width: usize) -> (out: Result<u64, FsError>)
        requires
            old(self).wf(),
            width <= 8,
        ensures
            old(self).follows(
                *final(self),
                out,
                field_number(
                    old(self).record,
                    old(self).buf@,
                    old(self).pos as nat,
                    field,
                    width as nat,
                ),
                |got: u64, want: nat| got == want,
            ),
    {
        match self.bytes(field, width) {
            Ok(raw) => Ok(get_le(raw)),
            Err(e) => Err(e),
        }
    }

    pub fn u8(&mut self, field: &'static str) -> (out: Result<u8, FsError>)
        requires
            old(self).wf(),
        ensures
            old(self).follows(
                *final(self),
                out,
                field_number(old(self).record, old(self).buf@, old(self).pos as nat, field, 1),
                |got: u8, want: nat| got == want,
            ),
    {
        match self.bytes(field, 1) {
            Ok(raw) => {
                proof {
                    reveal_with_fuel(le_value, 2);
                }
                Ok(raw[0])
            },
            Err(e) => Err(e),
        }
    }

    pub fn u16(&mut self, field: &'static str) -> (out: Result<u16, FsError>)
        requires
            old(self).wf(),
        ensures
            old(self).follows(
                *final(self),
                out,
                field_number(old(self).record, old(self).buf@, old(self).pos as nat, field, 2),
                |got: u16, want: nat| got == want,
            ),
    {
        match self.bytes(field, 2) {
            Ok(raw) => {
                let n: u64 = get_le(raw);
                proof {
                    lemma_le_bytes_of_le_value(raw@);
                    lemma_byte_ranges();
                }
                Ok(n as u16)
            },
            Err(e) => Err(e),
        }
    }

    pub fn u64(&mut self, field: &'static str) -> (out: Result<u64, FsError>)
        requires
            old(self).wf(),
        ensures
            old(self).follows(
                *final(self),
                out,
                field_number(old(self).record, old(self).buf@, old(self).pos as nat, field, 8),
                |got: u64, want: nat| got == want,
            ),
    {
        self.number(field, 8)
    }

    pub fn i64(&mut self, field: &'static str) -> (out: Result<i64, FsError>)
        requires
            old(self).wf(),
        ensures
            old(self).follows(
                *final(self),
                out,
                field_i64(old(self).record, old(self).buf@, old(self).pos as nat, field),
                |got: i64, want: int| got == want,
            ),
    {
        match self.number(field, 8) {
            Ok(n) => if n > 0x7fff_ffff_ffff_ffff {
                Ok(-((u64::MAX - n) as i64) - 1)
            } else {
                Ok(n as i64)
            },
            Err(e) => Err(e),
        }
    }

    /// Reads a length or count field: a `u64` on disk, a `usize` in memory.
    pub fn len(&mut self, field: &'static str) -> (out: Result<usize, FsError>)
        requires
            old(self).wf(),
        ensures
            old(self).follows(
                *final(self),
                out,
                field_len(old(self).record, old(self).buf@, old(self).pos as nat, field),
                |got: usize, want: nat| got == want,
            ),
    {
        match self.number(field, 8) {
            Ok(n) => if n > usize::MAX as u64 {
                Err(FsError::LengthOverflow { record: self.record, field })
            } else {
                Ok(n as usize)
            },
            Err(e) => Err(e),
        }
    }

    /// Reads a run of `N` bytes.
    pub fn array<const N: usize>(&mut self, field: &'static str) -> (out: Result<[u8; N], FsError>)
        requires
            old(self).wf(),
        ensures
            old(self).follows(
                *final(self),
                out,
                field_bytes(
                    old(self).record,
                    old(self).buf@,
                    old(self).pos as nat,
                    field,
                    N as nat,
                ),
                |got: [u8; N], want: Seq<u8>| got@ == want,
            ),
    {
        match self.bytes(field, N) {
            Ok(raw) => {
                let mut out: [u8; N] = array_fill_for_copy_types(0u8);
                let mut i: usize = 0;
                while i < N
                    invariant
                        i <= N,
                        raw@.len() == N,
                        forall|j: int| 0 <= j < i ==> out@[j] == raw@[j],
                    decreases N - i,
                {
                    out[i] = raw[i];
                    i = i + 1;
                }
                proof {
                    assert(out@ =~= raw@);
                }
                Ok(out)
            },
            Err(e) => Err(e),
        }
    }

    /// Reads `len` bytes and validates them as UTF-8.
    pub fn utf8(&mut self, field: &'static str, len: usize) -> (out: Result<String, FsError>)
        requires
            old(self).wf(),
        ensures
            old(self).follows(
                *final(self),
                out,
                field_text(
                    old(self).record,
                    old(self).buf@,
                    old(self).pos as nat,
                    field,
                    len as nat,
                ),
                |got: String, want: Seq<char>| got@ == want,
            ),
    {
        match self.bytes(field, len) {
            Ok(raw) => match utf8_text(slice_to_vec(raw)) {
                Ok(text) => Ok(text),
                Err(_) => Err(FsError::InvalidUtf8 { record: self.record, field }),
            },
            Err(e) => Err(e),
        }
    }

    /// Ends the record: anything after the last field is corruption.
    pub fn finish(&self) -> (out: Result<(), FsError>)
        requires
            self.wf(),
        ensures
            out == trailing(self.record, self.buf@, self.pos as nat),
    {
        if self.pos != self.buf.len() {
            Err(FsError::TrailingBytes { record: self.record, extra: self.buf.len() - self.pos })
        } else {
            Ok(())
        }
    }

    /// Reads a block-id list.
    ///
    /// The list length is derived exactly from the width byte and the count, so
    /// bytes past the last id stay in the record.
    pub fn id_list(&mut self) -> (out: Result<Vec<BlockId>, FsError>)
        requires
            old(self).wf(),
        ensures
            old(self).follows(
                *final(self),
                out,
                field_id_list(old(self).record, old(self).buf@, old(self).pos as nat),
                |got: Vec<BlockId>, want: Seq<Seq<u8>>| id_views(got@) == want,
            ),
    {
        let width: usize = match self.u8("id_width") {
            Ok(w) => w as usize,
            Err(e) => {
                return Err(e);
            },
        };
        let count: usize = match self.len("id_count") {
            Ok(n) => n,
            Err(e) => {
                return Err(e);
            },
        };
        if width == 0 && count == 0 {
            let none: Vec<BlockId> = Vec::new();
            proof {
                assert(id_views(none@) =~= Seq::<Seq<u8>>::empty());
            }
            return Ok(none);
        }
        if width != BLOCKID_SIZE && width != MAX_BLOCKID_SIZE {
            return Err(FsError::InvalidIdWidth(width as u8));
        }
        let total: usize = match count.checked_mul(width) {
            Some(total) => total,
            None => {
                return Err(FsError::LengthOverflow { record: self.record, field: "id_count" });
            },
        };
        let raw: &[u8] = match self.bytes("ids", total) {
            Ok(raw) => raw,
            Err(e) => {
                return Err(e);
            },
        };
        let mut ids: Vec<BlockId> = Vec::new();
        let mut at: usize = 0;
        let mut i: usize = 0;
        while i < count
            invariant
                i <= count,
                is_id_width(width as nat),
                raw@.len() == count * width == total,
                at == i * width,
                ids@.len() == i,
                forall|j: int|
                    0 <= j < i ==> (#[trigger] ids@[j])@ == split_ids(
                        raw@,
                        width as nat,
                        count as nat,
                    )[j],
            decreases count - i,
        {
            proof {
                assert((i + 1) * width <= count * width) by (nonlinear_arith)
                    requires
                        i + 1 <= count,
                ;
                assert((i + 1) * width == i * width + width) by (nonlinear_arith);
            }
            match BlockId::from_slice(slice_subrange(raw, at, at + width)) {
                Ok(id) => {
                    ids.push(id);
                },
                Err(e) => {
                    return Err(e);
                },
            }
            at = at + width;
            i = i + 1;
        }
        proof {
            assert(id_views(ids@) =~= split_ids(raw@, width as nat, count as nat));
        }
        Ok(ids)
    }
}

/// A run of bytes inside a record is read back as it stands there.
pub proof fn lemma_read_bytes(
    record: &'static str,
    before: Seq<u8>,
    bytes: Seq<u8>,
    after: Seq<u8>,
    field: &'static str,
)
    requires
        before.len() + bytes.len() + after.len() <= usize::MAX,
    ensures
        field_bytes(record, before + bytes + after, before.len(), field, bytes.len()) == Ok::<
            (Seq<u8>, nat),
            FsError,
        >((bytes, before.len() + bytes.len())),
{
    assert((before + bytes + after).subrange(
        before.len() as int,
        (before.len() + bytes.len()) as int,
    ) =~= bytes);
}

/// A number written inside a record is read back.
pub proof fn lemma_read_number(
    record: &'static str,
    before: Seq<u8>,
    value: nat,
    width: nat,
    after: Seq<u8>,
    field: &'static str,
)
    requires
        value < byte_range(width),
        before.len() + width + after.len() <= usize::MAX,
    ensures
        field_number(
            record,
            before + le_bytes(value, width) + after,
            before.len(),
            field,
            width,
        ) == Ok::<(nat, nat), FsError>((value, before.len() + width)),
{
    lemma_le_bytes_len(value, width);
    lemma_le_value_of_le_bytes(value, width);
    lemma_read_bytes(record, before, le_bytes(value, width), after, field);
}

/// A text written inside a record is read back.
pub proof fn lemma_read_text(
    record: &'static str,
    before: Seq<u8>,
    text: Seq<char>,
    after: Seq<u8>,
    field: &'static str,
)
    requires
        before.len() + encode_utf8(text).len() + after.len() <= usize::MAX,
    ensures
        field_text(
            record,
            before + encode_utf8(text) + after,
            before.len(),
            field,
            encode_utf8(text).len(),
        ) == Ok::<(Seq<char>, nat), FsError>((text, before.len() + encode_utf8(text).len())),
{
    lemma_read_bytes(record, before, encode_utf8(text), after, field);
    encode_utf8_valid_utf8(text);
    encode_utf8_decode_utf8(text);
}

/// Addresses of one width, written one after the other, are told apart again.
pub proof fn lemma_split_concat(ids: Seq<Seq<u8>>, width: nat)
    requires
        forall|i: int| 0 <= i < ids.len() ==> (#[trigger] ids[i]).len() == width,
    ensures
        concat_ids(ids).len() == ids.len() * width,
        split_ids(concat_ids(ids), width, ids.len()) == ids,
    decreases ids.len(),
{
    if ids.len() > 0 {
        let init = ids.drop_last();
        lemma_split_concat(init, width);
        let n = ids.len();
        assert(n * width == (n - 1) * width + width) by (nonlinear_arith);
        let all = concat_ids(ids);
        let split = split_ids(all, width, n);
        assert forall|i: int| 0 <= i < n implies split[i] =~= ids[i] by {
            assert((i + 1) * width == i * width + width) by (nonlinear_arith);
            assert(0 <= i * width) by (nonlinear_arith)
                requires
                    0 <= i,
            ;
            if i < n - 1 {
                assert((i + 1) * width <= (n - 1) * width) by (nonlinear_arith)
                    requires
                        i + 1 <= n - 1,
                ;
                assert(split_ids(concat_ids(init), width, (n - 1) as nat)[i] == init[i]);
            }
        }
        assert(split =~= ids);
    } else {
        assert(split_ids(concat_ids(ids), width, 0) =~= ids);
    }
}

/// Cutting a run of addresses and writing them again gives the run.
pub proof fn lemma_concat_split(raw: Seq<u8>, width: nat, count: nat)
    requires
        raw.len() == count * width,
    ensures
        concat_ids(split_ids(raw, width, count)) == raw,
    decreases count,
{
    let ids = split_ids(raw, width, count);
    if count > 0 {
        assert(count * width == (count - 1) * width + width) by (nonlinear_arith)
            requires
                count > 0,
        ;
        let init = raw.subrange(0, (count - 1) * width);
        lemma_concat_split(init, width, (count - 1) as nat);
        assert forall|i: int| 0 <= i < count - 1 implies ids.drop_last()[i] =~= split_ids(
            init,
            width,
            (count - 1) as nat,
        )[i] by {
            assert((i + 1) * width <= (count - 1) * width) by (nonlinear_arith)
                requires
                    i + 1 <= count - 1,
            ;
            assert((i + 1) * width == i * width + width) by (nonlinear_arith);
            assert(0 <= i * width) by (nonlinear_arith)
                requires
                    0 <= i,
            ;
        }
        assert(ids.drop_last() =~= split_ids(init, width, (count - 1) as nat));
        assert(raw =~= init + ids.last());
    } else {
        assert(count * width == 0) by (nonlinear_arith)
            requires
                count == 0,
        ;
        assert(raw =~= Seq::<u8>::empty());
        assert(ids =~= Seq::<Seq<u8>>::empty());
    }
}

/// A block-id list written inside a record is read back.
pub proof fn lemma_read_id_list(
    record: &'static str,
    before: Seq<u8>,
    ids: Seq<Seq<u8>>,
    after: Seq<u8>,
)
    requires
        one_width(ids),
        before.len() + encode_id_list(ids).len() + after.len() <= usize::MAX,
    ensures
        field_id_list(record, before + encode_id_list(ids) + after, before.len()) == Ok::<
            (Seq<Seq<u8>>, nat),
            FsError,
        >((ids, before.len() + encode_id_list(ids).len())),
{
    let buf = before + encode_id_list(ids) + after;
    let width = list_width(ids);
    let head = le_bytes(width, 1);
    let count = le_bytes(ids.len(), 8);
    let raw = concat_ids(ids);
    lemma_le_bytes_len(width, 1);
    lemma_le_bytes_len(ids.len(), 8);
    lemma_byte_ranges();
    lemma_split_concat(ids, width);
    if ids.len() > 0 {
        assert(ids[0].len() == width);
        assert(ids.len() <= ids.len() * width) by (nonlinear_arith)
            requires
                width >= 1,
        ;
    }
    assert(width < 256);
    assert(buf =~= before + head + (count + raw + after));
    lemma_read_number(record, before, width, 1, count + raw + after, "id_width");
    assert(buf =~= (before + head) + count + (raw + after));
    lemma_read_number(record, before + head, ids.len(), 8, raw + after, "id_count");
    if ids.len() > 0 {
        assert(buf =~= (before + head + count) + raw + after);
        lemma_read_bytes(record, before + head + count, raw, after, "ids");
    } else {
        assert(ids =~= Seq::<Seq<u8>>::empty());
    }
}

} // verus!
