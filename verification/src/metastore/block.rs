//! Block addresses, block records and where block files live.

use core::cmp::Ordering;
use vstd::array::array_as_slice;
use vstd::prelude::*;
use vstd::slice::slice_subrange;
use vstd::std_specs::cmp::{PartialEqSpecImpl, PartialOrdSpecImpl};
use vstd::std_specs::convert::FromSpecImpl;
use vstd::string::*;

use super::codec::{field_len, field_number, lemma_read_number, put_len, Reader};
use super::errors::FsError;
use crate::bytes::{
    bytes_below, bytes_lt, differs_below, equal_bytes, le_bytes, lemma_byte_ranges,
    lemma_le_bytes_len, lemma_le_bytes_of_le_value, put_le,
};
use crate::text::{hex, hex_string, lemma_hex_injective};

verus! {

/// Narrow block address width in bytes: a hash truncated to 128 bits.
pub const BLOCKID_SIZE: usize = 16;

/// The widest block address a `BlockId` can hold (a 256 bit hash).
pub const MAX_BLOCKID_SIZE: usize = 32;

/// Address of a data block: the hash of the block's contents, at the width the
/// store that produced it uses (16 or 32 bytes).
///
/// The bytes past the width are always zero, which makes comparing the padded
/// arrays and then the widths agree with comparing the significant bytes.
#[derive(Debug, Clone, Copy, Eq, Hash, Ord)]
pub struct BlockId {
    bytes: [u8; 32],
    len: u8,
}

impl View for BlockId {
    type V = Seq<u8>;

    /// The significant bytes.
    closed spec fn view(&self) -> Seq<u8> {
        self.bytes@.subrange(0, self.len as int)
    }
}

impl BlockId {
    #[verifier::type_invariant]
    spec fn wf(self) -> bool {
        &&& self.len == BLOCKID_SIZE || self.len == MAX_BLOCKID_SIZE
        &&& forall|i: int| self.len <= i < 32 ==> self.bytes@[i] == 0
    }
}

impl BlockId {
    /// Builds a block id from raw bytes, which must be 16 or 32 long.
    pub fn from_slice(bytes: &[u8]) -> (out: Result<Self, FsError>)
        ensures
            match out {
                Ok(id) => is_id_width(bytes@.len()) && id@ == bytes@,
                Err(e) => !is_id_width(bytes@.len()) && e == FsError::InvalidIdWidth(
                    clamp_width(bytes@.len()),
                ),
            },
    {
        let width: usize = bytes.len();
        if width == BLOCKID_SIZE || width == MAX_BLOCKID_SIZE {
            let mut buf = [0u8;32];
            let mut i: usize = 0;
            while i < width
                invariant
                    i <= width <= 32,
                    width == bytes@.len(),
                    forall|j: int| 0 <= j < i ==> buf@[j] == bytes@[j],
                    forall|j: int| i <= j < 32 ==> buf@[j] == 0,
                decreases width - i,
            {
                buf[i] = bytes[i];
                i = i + 1;
            }
            let id = BlockId { bytes: buf, len: width as u8 };
            proof {
                assert(id@ =~= bytes@);
            }
            Ok(id)
        } else if width < 256 {
            Err(FsError::InvalidIdWidth(width as u8))
        } else {
            Err(FsError::InvalidIdWidth(255))
        }
    }

    /// Returns the significant bytes of the address.
    pub fn as_slice(&self) -> (bytes: &[u8])
        ensures
            bytes@ == self@,
            is_id_width(bytes@.len()),
    {
        proof {
            use_type_invariant(self);
        }
        slice_subrange(array_as_slice(&self.bytes), 0, self.len as usize)
    }

    /// Returns the width of the address in bytes (16 or 32).
    pub fn len(&self) -> (width: usize)
        ensures
            width == self@.len(),
            is_id_width(width as nat),
    {
        proof {
            use_type_invariant(self);
        }
        self.len as usize
    }

    /// Always false: a block id is 16 or 32 bytes wide, never empty.
    pub fn is_empty(&self) -> (empty: bool)
        ensures
            empty == (self@.len() == 0),
            !empty,
    {
        self.len() == 0
    }

    /// Returns the address as lowercase hex.
    pub fn to_hex(&self) -> (text: String)
        ensures
            text@ == hex(self@),
    {
        hex_string(self.as_slice())
    }

    /// Whether two addresses are the same.
    pub fn same(&self, other: &BlockId) -> (yes: bool)
        ensures
            yes == (self@ == other@),
    {
        equal_bytes(self.as_slice(), other.as_slice())
    }
}

/// Whether a block address can have this many bytes.
pub open spec fn is_id_width(n: nat) -> bool {
    n == 16 || n == 32
}

/// A width as it is reported: values past a byte's range read 255.
pub open spec fn clamp_width(n: nat) -> u8 {
    if n < 256 {
        n as u8
    } else {
        255
    }
}

impl PartialEq for BlockId {
    fn eq(&self, other: &Self) -> (yes: bool) {
        self.same(other)
    }
}

impl PartialEqSpecImpl for BlockId {
    open spec fn obeys_eq_spec() -> bool {
        true
    }

    open spec fn eq_spec(&self, other: &Self) -> bool {
        self@ == other@
    }
}

impl PartialOrd for BlockId {
    fn partial_cmp(&self, other: &Self) -> (order: Option<Ordering>) {
        if self.same(other) {
            Some(Ordering::Equal)
        } else if bytes_below(self.as_slice(), other.as_slice()) {
            Some(Ordering::Less)
        } else {
            Some(Ordering::Greater)
        }
    }
}

impl PartialOrdSpecImpl for BlockId {
    open spec fn obeys_partial_cmp_spec() -> bool {
        true
    }

    open spec fn partial_cmp_spec(&self, other: &Self) -> Option<Ordering> {
        if self@ == other@ {
            Some(Ordering::Equal)
        } else if bytes_lt(self@, other@) {
            Some(Ordering::Less)
        } else {
            Some(Ordering::Greater)
        }
    }
}

impl From<[u8; 16]> for BlockId {
    fn from(bytes: [u8; 16]) -> (id: Self)
        ensures
            id@ == bytes@,
    {
        let mut buf = [0u8;32];
        let mut i: usize = 0;
        while i < 16
            invariant
                i <= 16,
                forall|j: int| 0 <= j < i ==> buf@[j] == bytes@[j],
                forall|j: int| i <= j < 32 ==> buf@[j] == 0,
            decreases 16 - i,
        {
            buf[i] = bytes[i];
            i = i + 1;
        }
        let id = BlockId { bytes: buf, len: 16 };
        proof {
            assert(id@ =~= bytes@);
        }
        id
    }
}

impl FromSpecImpl<[u8; 16]> for BlockId {
    open spec fn obeys_from_spec() -> bool {
        false
    }

    open spec fn from_spec(bytes: [u8; 16]) -> Self {
        arbitrary()
    }
}

impl From<[u8; 32]> for BlockId {
    fn from(bytes: [u8; 32]) -> (id: Self)
        ensures
            id@ == bytes@,
    {
        let id = BlockId { bytes, len: 32 };
        proof {
            assert(id@ =~= bytes@);
        }
        id
    }
}

impl FromSpecImpl<[u8; 32]> for BlockId {
    open spec fn obeys_from_spec() -> bool {
        false
    }

    open spec fn from_spec(bytes: [u8; 32]) -> Self {
        arbitrary()
    }
}

/// An address padded with zeros to the widest width.
pub open spec fn padded(id: Seq<u8>) -> Seq<u8> {
    id + Seq::new((32 - id.len()) as nat, |i: int| 0u8)
}

/// Comparing padded addresses and then their widths is comparing the
/// significant bytes.
pub proof fn lemma_padded_order(a: Seq<u8>, b: Seq<u8>)
    requires
        is_id_width(a.len()),
        is_id_width(b.len()),
    ensures
        a == b <==> padded(a) == padded(b) && a.len() == b.len(),
        bytes_lt(a, b) <==> bytes_lt(padded(a), padded(b)) || (padded(a) == padded(b) && a.len()
            < b.len()),
{
    let pa = padded(a);
    let pb = padded(b);
    if pa == pb && a.len() == b.len() {
        assert forall|i: int| 0 <= i < a.len() implies a[i] == b[i] by {
            assert(pa[i] == a[i]);
            assert(pb[i] == b[i]);
        }
        assert(a =~= b);
    }
    if bytes_lt(a, b) {
        let k = choose|k: int| differs_below(a, b, k);
        assert forall|i: int| 0 <= i < k implies pa[i] == pb[i] by {
            assert(pa[i] == a[i]);
            assert(pb[i] == b[i]);
        }
        if k < a.len() {
            assert(differs_below(pa, pb, k));
        } else {
            lemma_zeros_below(pa, pb, k);
        }
    }
    if bytes_lt(pa, pb) {
        let k = choose|k: int| differs_below(pa, pb, k);
        assert(pa[k] < pb[k]);
        assert(k < b.len());
        let j = if k < a.len() {
            k
        } else {
            a.len() as int
        };
        assert forall|i: int| 0 <= i < j implies a[i] == b[i] by {
            assert(pa[i] == a[i]);
            assert(pb[i] == b[i]);
        }
        assert(differs_below(a, b, j));
    }
    if pa == pb && a.len() < b.len() {
        assert forall|i: int| 0 <= i < a.len() implies a[i] == b[i] by {
            assert(pa[i] == a[i]);
            assert(pb[i] == b[i]);
        }
        assert(differs_below(a, b, a.len() as int));
    }
}

/// A string that is zero from `k` on is at most one that agrees with it up to
/// there.
proof fn lemma_zeros_below(a: Seq<u8>, b: Seq<u8>, k: int)
    requires
        a.len() == b.len(),
        0 <= k <= a.len(),
        forall|i: int| 0 <= i < k ==> a[i] == b[i],
        forall|i: int| k <= i < a.len() ==> a[i] == 0,
    ensures
        a == b || bytes_lt(a, b),
    decreases a.len() - k,
{
    if k == a.len() {
        assert(a =~= b);
    } else if b[k] == 0 {
        lemma_zeros_below(a, b, k + 1);
    } else {
        assert(differs_below(a, b, k));
    }
}

/// A path with one more component: a separator goes between unless the path is
/// empty or ends in one.
pub open spec fn path_join(root: Seq<char>, name: Seq<char>) -> Seq<char> {
    if root.len() == 0 || root.last() == '/' {
        root + name
    } else {
        root + "/"@ + name
    }
}

/// Appends a component to a path.
pub fn join_path(root: &str, name: &str) -> (path: String)
    ensures
        path@ == path_join(root@, name@),
{
    let mut path = root.to_owned();
    let n: usize = root.unicode_len();
    if n > 0 && root.get_char(n - 1) != '/' {
        path.append("/");
    }
    path.append(name);
    path
}

/// The fanout depth that a recorded depth stands for.
pub open spec fn clamped_depth(id: Seq<u8>, depth: nat) -> nat {
    if depth < 1 {
        1
    } else if depth > id.len() {
        id.len()
    } else {
        depth
    }
}

/// The directory `n` fanout levels below `root` on the chain of `id`.
pub open spec fn fanout_dir(id: Seq<u8>, n: nat, root: Seq<char>) -> Seq<char>
    decreases n,
{
    if n == 0 {
        root
    } else {
        path_join(fanout_dir(id, (n - 1) as nat, root), hex(seq![id[n - 1]]))
    }
}

/// Where the file of block `id` lives at a fanout depth:
/// `<root>/<hex b0>/.../<hex b(depth-1)>/<full-hex id>`.
pub open spec fn block_path(id: Seq<u8>, depth: nat, root: Seq<char>) -> Seq<char> {
    path_join(fanout_dir(id, clamped_depth(id, depth), root), hex(id))
}

/// Builds the on-disk path of a block.
///
/// Directory names are single hex bytes of the id's leading bytes; the file
/// name is the full hex of the id, so dir names and file names never collide.
/// `depth` is clamped to `1..=id.len()`.
pub fn block_disk_path(id: &BlockId, depth: u8, root: String) -> (path: String)
    ensures
        path@ == block_path(id@, depth as nat, root@),
{
    let raw = id.as_slice();
    let mut levels: usize = depth as usize;
    if levels < 1 {
        levels = 1;
    }
    if levels > raw.len() {
        levels = raw.len();
    }
    let ghost start = root@;
    let mut path = root;
    let mut i: usize = 0;
    while i < levels
        invariant
            i <= levels <= raw@.len(),
            raw@ == id@,
            path@ == fanout_dir(id@, i as nat, start),
        decreases levels - i,
    {
        let byte = hex_string(slice_subrange(raw, i, i + 1));
        proof {
            assert(raw@.subrange(i as int, i + 1) =~= seq![id@[i as int]]);
        }
        path = join_path(&path, &byte);
        i = i + 1;
    }
    join_path(&path, &id.to_hex())
}

proof fn lemma_join_len(root: Seq<char>, name: Seq<char>)
    ensures
        path_join(root, name).len() >= root.len() + name.len(),
{
    reveal_strlit("/");
}

/// A deeper directory on a chain has a longer path.
proof fn lemma_fanout_grows(id: Seq<u8>, m: nat, n: nat, root: Seq<char>)
    requires
        m < n <= id.len(),
    ensures
        fanout_dir(id, m, root).len() < fanout_dir(id, n, root).len(),
    decreases n,
{
    lemma_join_len(fanout_dir(id, (n - 1) as nat, root), hex(seq![id[n - 1]]));
    if m < n - 1 {
        lemma_fanout_grows(id, m, (n - 1) as nat, root);
    }
}

/// A block path is a directory, a separator and the hex of the address.
proof fn lemma_block_path_parts(id: Seq<u8>, depth: nat, root: Seq<char>)
    requires
        id.len() > 0,
    ensures
        block_path(id, depth, root) == fanout_dir(id, clamped_depth(id, depth), root) + "/"@ + hex(
            id,
        ),
        1 <= clamped_depth(id, depth) <= id.len(),
        "/"@.len() == 1,
        "/"@[0] == '/',
        forall|i: int| 0 <= i < hex(id).len() ==> #[trigger] hex(id)[i] != '/',
{
    reveal_strlit("/");
    let n = clamped_depth(id, depth);
    let dir = fanout_dir(id, n, root);
    let byte = hex(seq![id[n - 1]]);
    assert(dir == path_join(fanout_dir(id, (n - 1) as nat, root), byte));
    assert(byte.len() == 2);
    assert(dir.last() == byte[1]);
    assert(byte[1] != '/');
}

/// No two blocks share a path, and neither do two depths of one block: under
/// one root, a path names its block and its fanout depth.
pub proof fn lemma_block_path_injective(
    a: Seq<u8>,
    depth_a: nat,
    b: Seq<u8>,
    depth_b: nat,
    root: Seq<char>,
)
    requires
        is_id_width(a.len()),
        is_id_width(b.len()),
        block_path(a, depth_a, root) == block_path(b, depth_b, root),
    ensures
        a == b,
        clamped_depth(a, depth_a) == clamped_depth(b, depth_b),
{
    lemma_block_path_parts(a, depth_a, root);
    lemma_block_path_parts(b, depth_b, root);
    let path = block_path(a, depth_a, root);
    let (m, n) = (clamped_depth(a, depth_a), clamped_depth(b, depth_b));
    let (da, db) = (fanout_dir(a, m, root), fanout_dir(b, n, root));
    if a.len() < b.len() {
        let i = path.len() - hex(a).len() - 1;
        assert(path[i] == '/');
        assert(path[i] == hex(b)[i - db.len() - 1]);
    }
    if b.len() < a.len() {
        let i = path.len() - hex(b).len() - 1;
        assert(path[i] == '/');
        assert(path[i] == hex(a)[i - da.len() - 1]);
    }
    assert(da.len() == db.len());
    assert forall|i: int| 0 <= i < hex(a).len() implies hex(a)[i] == hex(b)[i] by {
        assert(path[da.len() + 1 + i] == hex(a)[i]);
        assert(path[db.len() + 1 + i] == hex(b)[i]);
    }
    assert(hex(a) =~= hex(b));
    lemma_hex_injective(a, b);
    if m < n {
        lemma_fanout_grows(a, m, n, root);
    }
    if n < m {
        lemma_fanout_grows(a, n, m, root);
    }
}

/// Metadata about a stored data block.
#[derive(Debug, Clone, Copy, PartialEq, Eq)]
pub struct Block {
    /// Size of the block data in bytes.
    pub size: usize,
    /// Fanout depth of the block file. Pure placement: the file's name is the
    /// full id at every depth.
    pub depth: u8,
    /// Reference count: how many references name this block.
    pub rc: usize,
    /// Flag bits; see `DEGRADED_FLAG`. The other bits are carried along.
    pub flags: u8,
}

/// The flag that marks a record whose bytes are known to be gone.
pub const DEGRADED_FLAG: u8 = 1;

/// A block record as it is written:
///
/// ```text
/// size u64 | depth u8 | rc u64 | flags u8, where any is set
/// ```
pub open spec fn encode_block(b: Block) -> Seq<u8> {
    le_bytes(b.size as nat, 8) + le_bytes(b.depth as nat, 1) + le_bytes(b.rc as nat, 8) + (
    if b.flags == 0 {
        Seq::empty()
    } else {
        seq![b.flags]
    })
}

/// What a block record's bytes stand for.
pub open spec fn decode_block(buf: Seq<u8>) -> Result<Block, FsError> {
    match field_len("Block", buf, 0, "size") {
        Err(e) => Err(e),
        Ok((size, at_depth)) => match field_number("Block", buf, at_depth, "depth", 1) {
            Err(e) => Err(e),
            Ok((depth, at_rc)) => match field_len("Block", buf, at_rc, "rc") {
                Err(e) => Err(e),
                Ok((rc, end)) => {
                    let flags = if buf.len() == end + 1 {
                        buf[end as int]
                    } else {
                        0
                    };
                    if buf.len() == end || flags != 0 {
                        Ok(
                            Block { size: size as usize, depth: depth as u8, rc: rc as usize, flags },
                        )
                    } else {
                        Err(
                            FsError::TrailingBytes {
                                record: "Block",
                                extra: (buf.len() - end) as usize,
                            },
                        )
                    }
                },
            },
        },
    }
}

impl Block {
    /// Creates the record of a block with one reference.
    pub fn new(size: usize, depth: u8) -> (block: Self)
        ensures
            block == (Block { size, depth, rc: 1, flags: 0 }),
    {
        Block { size, depth, rc: 1, flags: 0 }
    }

    /// Puts a record together from its fields.
    pub fn from_parts(size: usize, depth: u8, rc: usize, flags: u8) -> (block: Self)
        ensures
            block == (Block { size, depth, rc, flags }),
    {
        Block { size, depth, rc, flags }
    }

    /// Deserializes a record, with an exact length check.
    pub fn try_from(value: &[u8]) -> (out: Result<Self, FsError>)
        ensures
            out == decode_block(value@),
    {
        let mut r = Reader::new("Block", value);
        let size: usize = match r.len("size") {
            Ok(v) => v,
            Err(e) => {
                return Err(e);
            },
        };
        let depth: u8 = match r.u8("depth") {
            Ok(v) => v,
            Err(e) => {
                return Err(e);
            },
        };
        let rc: usize = match r.len("rc") {
            Ok(v) => v,
            Err(e) => {
                return Err(e);
            },
        };
        let left: usize = value.len() - r.pos;
        if left == 1 && value[r.pos] != 0 {
            return Ok(Block { size, depth, rc, flags: value[r.pos] });
        }
        match r.finish() {
            Ok(()) => Ok(Block { size, depth, rc, flags: 0 }),
            Err(e) => Err(e),
        }
    }

    /// Returns the size of the block data in bytes.
    pub fn size(&self) -> (size: usize)
        ensures
            size == self.size,
    {
        self.size
    }

    /// Returns the fanout depth the block file was placed at.
    pub fn depth(&self) -> (depth: u8)
        ensures
            depth == self.depth,
    {
        self.depth
    }

    /// Constructs the path to the block's file from its recorded depth.
    pub fn disk_path(&self, id: &BlockId, root: String) -> (path: String)
        ensures
            path@ == block_path(id@, self.depth as nat, root@),
    {
        block_disk_path(id, self.depth, root)
    }

    /// Returns the current reference count of the block.
    pub fn rc(&self) -> (rc: usize)
        ensures
            rc == self.rc,
    {
        self.rc
    }

    /// Returns the flag bits.
    pub fn flags(&self) -> (flags: u8)
        ensures
            flags == self.flags,
    {
        self.flags
    }

    /// Increments the reference count of the block.
    pub fn increment_refcount(&mut self)
        requires
            old(self).rc < usize::MAX,
        ensures
            *final(self) == (Block { rc: (old(self).rc + 1) as usize, ..*old(self) }),
    {
        self.rc = self.rc + 1;
    }

    /// Decrements the reference count of the block.
    pub fn decrement_refcount(&mut self)
        requires
            old(self).rc > 0,
        ensures
            *final(self) == (Block { rc: (old(self).rc - 1) as usize, ..*old(self) }),
    {
        self.rc = self.rc - 1;
    }

    /// Whether the block's bytes are known to be gone.
    pub open spec fn degraded(self) -> bool {
        self.flags % 2 == 1
    }

    /// Whether the block's bytes are known to be gone.
    pub fn is_degraded(&self) -> (yes: bool)
        ensures
            yes == self.degraded(),
    {
        self.flags % 2 == 1
    }

    /// The flag bits with only the degraded one moved.
    pub open spec fn marked(self, degraded: bool) -> Block {
        Block {
            flags: (self.flags - self.flags % 2 + (if degraded {
                1int
            } else {
                0
            })) as u8,
            ..self
        }
    }

    /// Sets or clears the degraded bit; the other bits are carried over.
    pub fn set_degraded(&mut self, degraded: bool)
        ensures
            *final(self) == old(self).marked(degraded),
            final(self).degraded() == degraded,
    {
        let rest: u8 = self.flags - self.flags % 2;
        self.flags = if degraded {
            rest + DEGRADED_FLAG
        } else {
            rest
        };
    }

    /// Serializes the record.
    pub fn to_vec(&self) -> (out: Vec<u8>)
        ensures
            out@ == encode_block(*self),
    {
        let mut out: Vec<u8> = Vec::new();
        put_len(&mut out, self.size);
        put_le(&mut out, self.depth as u64, 1);
        put_len(&mut out, self.rc);
        if self.flags != 0 {
            out.push(self.flags);
        }
        proof {
            assert(out@ =~= encode_block(*self));
        }
        out
    }
}

/// A block record survives being written and read back.
pub proof fn lemma_block_round_trip(b: Block)
    ensures
        decode_block(encode_block(b)) == Ok::<Block, FsError>(b),
{
    let buf = encode_block(b);
    let size = le_bytes(b.size as nat, 8);
    let depth = le_bytes(b.depth as nat, 1);
    let rc = le_bytes(b.rc as nat, 8);
    let flags: Seq<u8> = if b.flags == 0 {
        Seq::empty()
    } else {
        seq![b.flags]
    };
    lemma_le_bytes_len(b.size as nat, 8);
    lemma_le_bytes_len(b.depth as nat, 1);
    lemma_le_bytes_len(b.rc as nat, 8);
    lemma_byte_ranges();
    assert(buf =~= Seq::<u8>::empty() + size + (depth + rc + flags));
    lemma_read_number("Block", Seq::empty(), b.size as nat, 8, depth + rc + flags, "size");
    assert(buf =~= size + depth + (rc + flags));
    lemma_read_number("Block", size, b.depth as nat, 1, rc + flags, "depth");
    assert(buf =~= (size + depth) + rc + flags);
    lemma_read_number("Block", size + depth, b.rc as nat, 8, flags, "rc");
}

/// Only the bytes that a block record is written as decode to it.
pub proof fn lemma_block_bytes_canonical(buf: Seq<u8>, b: Block)
    requires
        decode_block(buf) == Ok::<Block, FsError>(b),
    ensures
        buf == encode_block(b),
{
    lemma_le_bytes_of_le_value(buf.subrange(0, 8));
    lemma_le_bytes_of_le_value(buf.subrange(8, 9));
    lemma_le_bytes_of_le_value(buf.subrange(9, 17));
    lemma_byte_ranges();
    assert(buf =~= buf.subrange(0, 8) + buf.subrange(8, 9) + buf.subrange(9, 17) + buf.subrange(
        17,
        buf.len() as int,
    ));
    if b.flags == 0 {
        assert(buf.subrange(17, buf.len() as int) =~= Seq::<u8>::empty());
    } else {
        assert(buf.subrange(17, buf.len() as int) =~= seq![b.flags]);
    }
}

} // verus!
