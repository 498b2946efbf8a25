//! The disk walk: everything under the blocks root, classified by structure
//! alone.
//!
//! A block file's name is the full hex of its own address, and the directories
//! above it are the hex bytes of that same address's prefix. So the walk can
//! decide what every entry is by looking at it, and every file it accepts sits
//! where [`block_path`] puts it.

use vstd::prelude::*;
use vstd::string::*;
use vstd::utf8::*;

use super::findings::{Finding, FindingClass, FindingView};
use super::trees::{lemma_prefix, text_views};
use super::ScrubContext;
use crate::bytes::{has_prefix, starts_with};
use crate::cas::{BLOCKS_DB_DIR_NAME, QUARANTINE_DIR_NAME, STORE_ID_MARKER_NAME, TMP_DIR_NAME};
use crate::metastore::block::{
    block_path, clamp_width, clamped_depth, fanout_dir, is_id_width, path_join, BlockId,
};
use crate::metastore::errors::FsError;
use crate::metastore::traits::Store;
use crate::text::{
    dec, equal_text, hex, hex_digit, hex_text, lemma_hex_injective, lemma_hex_round_trip,
    put_len_dec,
};

verus! {

/// One entry of a directory.
#[derive(Debug)]
pub struct DirItem {
    /// Where it is.
    pub path: String,
    /// Its name, where that is valid UTF-8.
    pub name: Option<String>,
    /// What it is.
    pub kind: ItemKind,
}

/// What a directory entry is.
#[derive(Debug)]
pub enum ItemKind {
    /// A directory and its entries, in name order. The walk looks only into
    /// directories that [`enters`] takes.
    Dir(Vec<DirItem>),
    /// A regular file of some size.
    File(u64),
    /// Anything else.
    Other,
}

/// A block file the layout accepts.
#[derive(Debug, PartialEq, Eq)]
pub struct BlockFile {
    /// Address the file names itself with.
    pub id: BlockId,
    /// Fanout depth it sits at: the number of directory levels below the blocks
    /// root.
    pub depth: u8,
    /// Size in bytes.
    pub size: u64,
    /// Where it is.
    pub path: String,
}

/// What a block file states.
#[verifier::ext_equal]
pub ghost struct FileView {
    pub id: Seq<u8>,
    pub depth: u8,
    pub size: u64,
    pub path: Seq<char>,
}

impl View for BlockFile {
    type V = FileView;

    open spec fn view(&self) -> FileView {
        FileView { id: self.id@, depth: self.depth, size: self.size, path: self.path@ }
    }
}

/// Something under the blocks root that is not part of this store's layout.
#[derive(Debug, PartialEq, Eq)]
pub struct ForeignPath {
    /// Where it is.
    pub path: String,
    /// Why it was rejected, for the operator.
    pub reason: String,
}

/// What a foreign path states.
#[verifier::ext_equal]
pub ghost struct ForeignView {
    pub path: Seq<char>,
    pub reason: Seq<char>,
}

impl View for ForeignPath {
    type V = ForeignView;

    open spec fn view(&self) -> ForeignView {
        ForeignView { path: self.path@, reason: self.reason@ }
    }
}

impl ForeignView {
    /// The finding the report carries.
    pub open spec fn finding(self) -> FindingView {
        FindingView::new(FindingClass::ForeignFile, self.reason).with_path(self.path)
    }
}

impl ForeignPath {
    /// Renders this as the WARN finding the report carries.
    pub fn to_finding(&self) -> (finding: Finding)
        ensures
            finding@ == self@.finding(),
    {
        Finding::new(FindingClass::ForeignFile, self.reason.as_str().to_owned()).with_path(
            &self.path,
        )
    }
}

/// What the disk walk found.
#[derive(Debug)]
pub struct DiskWalk {
    /// Every accepted block file.
    pub files: Vec<BlockFile>,
    /// Everything else.
    pub foreign: Vec<ForeignPath>,
}

/// What a disk walk states.
#[verifier::ext_equal]
pub ghost struct WalkView {
    pub files: Seq<FileView>,
    pub foreign: Seq<ForeignView>,
}

impl View for DiskWalk {
    type V = WalkView;

    open spec fn view(&self) -> WalkView {
        WalkView {
            files: self.files@.map_values(|f: BlockFile| f@),
            foreign: self.foreign@.map_values(|f: ForeignPath| f@),
        }
    }
}

impl WalkView {
    /// A walk over nothing.
    pub open spec fn empty() -> WalkView {
        WalkView { files: Seq::empty(), foreign: Seq::empty() }
    }

    /// A walk that accepts one file.
    pub open spec fn file(id: Seq<u8>, depth: u8, size: u64, path: Seq<char>) -> WalkView {
        WalkView { files: seq![FileView { id, depth, size, path }], foreign: Seq::empty() }
    }

    /// A walk that rejects one entry.
    pub open spec fn foreign(path: Seq<char>, reason: Seq<char>) -> WalkView {
        WalkView { files: Seq::empty(), foreign: seq![ForeignView { path, reason }] }
    }

    /// One walk and then another.
    pub open spec fn followed_by(self, next: WalkView) -> WalkView {
        WalkView { files: self.files + next.files, foreign: self.foreign + next.foreign }
    }
}

impl Default for DiskWalk {
    /// A walk over nothing.
    fn default() -> (walk: Self)
        ensures
            walk@ == WalkView::empty(),
    {
        let walk = DiskWalk { files: Vec::new(), foreign: Vec::new() };
        proof {
            assert(walk@ =~= WalkView::empty());
        }
        walk
    }
}

/// The bytes that a text of lowercase hex spells, where it spells exactly
/// `len` of them.
pub open spec fn from_hex(name: Seq<char>, len: nat) -> Option<Seq<u8>> {
    if exists|bytes: Seq<u8>| bytes.len() == len && #[trigger] hex(bytes) == name {
        Some(choose|bytes: Seq<u8>| bytes.len() == len && #[trigger] hex(bytes) == name)
    } else {
        None
    }
}

/// The hex of some bytes spells those bytes.
pub proof fn lemma_from_hex(bytes: Seq<u8>)
    ensures
        from_hex(hex(bytes), bytes.len()) == Some(bytes),
{
    let got = from_hex(hex(bytes), bytes.len());
    assert(hex(bytes) == hex(bytes));
    lemma_hex_injective(got->Some_0, bytes);
}

/// One lowercase hex digit's value.
pub fn lower_hex_digit(byte: u8) -> (value: Option<u8>)
    ensures
        match value {
            Some(v) => v < 16 && byte == hex_digit(v as nat) as u8,
            None => forall|v: nat| v < 16 ==> byte != #[trigger] hex_digit(v) as u8,
        },
{
    if 0x30 <= byte && byte <= 0x39 {
        Some(byte - 0x30)
    } else if 0x61 <= byte && byte <= 0x66 {
        Some(byte - 0x61 + 10)
    } else {
        None
    }
}

/// Parses `len` bytes' worth of lowercase hex, or nothing.
///
/// Lowercase only, and the length must be exact: anything else was not written
/// by this store and must not be mistaken for one of its blocks.
pub fn parse_lower_hex(name: &str, len: usize) -> (out: Option<Vec<u8>>)
    ensures
        match out {
            Some(bytes) => from_hex(name@, len as nat) == Some(bytes@),
            None => from_hex(name@, len as nat) is None,
        },
{
    let raw = name.as_bytes();
    proof {
        encode_utf8_decode_utf8(name@);
        assert forall|bytes: Seq<u8>| bytes.len() == len && #[trigger] hex(bytes)
            == name@ implies raw@.len() == 2 * len && (forall|i: int|
            0 <= i < raw@.len() ==> raw@[i] == hex(bytes)[i] as u8) by {
            lemma_hex_round_trip(bytes);
            is_ascii_chars_encode_utf8(hex(bytes));
        }
    }
    if raw.len() % 2 != 0 || raw.len() / 2 != len {
        return None;
    }
    let total: usize = raw.len();
    let mut out: Vec<u8> = Vec::new();
    let mut i: usize = 0;
    while i < len
        invariant
            i <= len,
            total == raw@.len(),
            raw@ == encode_utf8(name@),
            raw@.len() == 2 * len,
            out@.len() == i,
            forall|j: int| 0 <= j < 2 * i ==> raw@[j] == (#[trigger] hex(out@)[j]) as u8,
            forall|bytes: Seq<u8>| bytes.len() == len && #[trigger] hex(bytes) == name@ ==> forall|
                j: int,
            |
                0 <= j < raw@.len() ==> raw@[j] == hex(bytes)[j] as u8,
        decreases len - i,
    {
        let high = lower_hex_digit(raw[2 * i]);
        let low = lower_hex_digit(raw[2 * i + 1]);
        match (high, low) {
            (Some(high), Some(low)) => {
                let ghost before = out@;
                let byte: u8 = high * 16 + low;
                out.push(byte);
                proof {
                    assert(byte as nat / 16 == high as nat);
                    assert(byte as nat % 16 == low as nat);
                    assert forall|j: int| 0 <= j < 2 * (i + 1) implies raw@[j] == (#[trigger] hex(
                        out@,
                    )[j]) as u8 by {
                        if j < 2 * i {
                            assert(hex(before)[j] == hex(out@)[j]);
                        } else if j == 2 * i {
                            assert(j / 2 == i);
                        } else {
                            assert(j / 2 == i);
                        }
                    }
                }
            },
            _ => {
                proof {
                    assert forall|bytes: Seq<u8>| bytes.len() == len implies #[trigger] hex(bytes)
                        != name@ by {
                        if hex(bytes) == name@ {
                            assert(raw@[2 * i as int] == hex(bytes)[2 * i as int] as u8);
                            assert(raw@[2 * i + 1] == hex(bytes)[2 * i + 1] as u8);
                        }
                    }
                }
                return None;
            },
        }
        i = i + 1;
    }
    proof {
        lemma_hex_round_trip(out@);
        is_ascii_chars_encode_utf8(hex(out@));
        assert(raw@ =~= encode_utf8(hex(out@)));
        encode_utf8_decode_utf8(hex(out@));
        assert(hex(out@) == name@);
        lemma_from_hex(out@);
    }
    Some(out)
}

/// Parses exactly two lowercase hex digits into the byte they spell.
pub fn parse_hex_byte(name: &str) -> (byte: Option<u8>)
    ensures
        match byte {
            Some(b) => from_hex(name@, 1) == Some(seq![b]),
            None => from_hex(name@, 1) is None,
        },
{
    match parse_lower_hex(name, 1) {
        Some(bytes) => {
            proof {
                assert(bytes@.len() == 1);
                assert(bytes@ =~= seq![bytes@[0]]);
            }
            Some(bytes[0])
        },
        None => None,
    }
}

/// Which block a file is, from its name and the directory chain it sits under;
/// or why it is none.
pub open spec fn classified(name: Seq<char>, chain: Seq<u8>, id_width: nat) -> Result<
    Seq<u8>,
    Seq<char>,
> {
    match from_hex(name, id_width) {
        None => Err(
            "file name "@ + name + " is not a "@ + dec(id_width)
                + " byte address in lowercase hex"@,
        ),
        Some(bytes) => if chain.len() == 0 {
            Err(
                "file "@ + name
                    + " sits directly under the blocks root, where no record can name it (the shallowest derived path is one fanout level deep)"@,
            )
        } else if !starts_with(bytes, chain) {
            Err(
                "file "@ + name + " sits under "@ + hex(chain)
                    + ", which is not its own address prefix, so no derived path resolves to it"@,
            )
        } else if !is_id_width(bytes.len()) {
            Err(
                "file name "@ + name + " is not an address: "@ + FsError::InvalidIdWidth(
                    clamp_width(bytes.len()),
                ).text(),
            )
        } else {
            Ok(bytes)
        },
    }
}

/// Decides whether `name`, sitting under the directory chain `chain`, is a
/// block file of this store.
pub fn classify_file(name: &str, chain: &[u8], id_width: usize) -> (out: Result<BlockId, String>)
    ensures
        match out {
            Ok(id) => classified(name@, chain@, id_width as nat) == Ok::<Seq<u8>, Seq<char>>(id@),
            Err(reason) => classified(name@, chain@, id_width as nat) == Err::<
                Seq<u8>,
                Seq<char>,
            >(reason@),
        },
{
    let bytes = match parse_lower_hex(name, id_width) {
        Some(bytes) => bytes,
        None => {
            let mut text = "file name ".to_owned();
            text.append(name);
            text.append(" is not a ");
            put_len_dec(&mut text, id_width);
            text.append(" byte address in lowercase hex");
            return Err(text);
        },
    };
    if chain.len() == 0 {
        let mut text = "file ".to_owned();
        text.append(name);
        text.append(
            " sits directly under the blocks root, where no record can name it (the shallowest derived path is one fanout level deep)",
        );
        return Err(text);
    }
    if !has_prefix(&bytes, chain) {
        let mut text = "file ".to_owned();
        text.append(name);
        text.append(" sits under ");
        text.append(&hex_text(chain));
        text.append(", which is not its own address prefix, so no derived path resolves to it");
        return Err(text);
    }
    match BlockId::from_slice(&bytes) {
        Ok(id) => Ok(id),
        Err(e) => {
            let mut text = "file name ".to_owned();
            text.append(name);
            text.append(" is not an address: ");
            text.append(&e.to_string());
            Err(text)
        },
    }
}

/// The names of the store's own entries directly under the blocks root.
pub open spec fn is_store_entry(name: Seq<char>) -> bool {
    name == TMP_DIR_NAME@ || name == QUARANTINE_DIR_NAME@ || name == BLOCKS_DB_DIR_NAME@ || name
        == STORE_ID_MARKER_NAME@
}

/// Whether a name is that of one of the store's own entries.
fn store_entry(name: &str) -> (yes: bool)
    ensures
        yes == is_store_entry(name@),
{
    equal_text(name, TMP_DIR_NAME) || equal_text(name, QUARANTINE_DIR_NAME) || equal_text(
        name,
        BLOCKS_DB_DIR_NAME,
    ) || equal_text(name, STORE_ID_MARKER_NAME)
}

/// Whether the walk passes an entry over: the store's own metadata wherever it
/// turns up, and the store's own entries directly under the root.
pub open spec fn passes_over(item: DirItem, own: Seq<Seq<char>>, at_root: bool) -> bool {
    ||| own.contains(item.path@)
    ||| at_root && (item.name matches Some(name) && is_store_entry(name@))
}

/// What the walk makes of one entry under the directory chain `chain`.
pub open spec fn walk_one(
    item: DirItem,
    chain: Seq<u8>,
    id_width: nat,
    own: Seq<Seq<char>>,
    at_root: bool,
) -> WalkView
    decreases item,
{
    if passes_over(item, own, at_root) {
        WalkView::empty()
    } else {
        match item.name {
            None => WalkView::foreign(
                item.path@,
                "name is not valid UTF-8, so it cannot be a block address"@,
            ),
            Some(name) => match item.kind {
                ItemKind::Dir(children) => match from_hex(name@, 1) {
                    Some(byte) => walk_all(children@, chain + byte, id_width, own, false),
                    None => WalkView::foreign(
                        item.path@,
                        "directory "@ + name@
                            + " is not a fanout level (expected two lowercase hex digits)"@,
                    ),
                },
                ItemKind::Other => WalkView::foreign(
                    item.path@,
                    "not a regular file or directory"@,
                ),
                ItemKind::File(size) => match classified(name@, chain, id_width) {
                    Ok(id) => WalkView::file(id, chain.len() as u8, size, item.path@),
                    Err(reason) => WalkView::foreign(item.path@, reason),
                },
            },
        }
    }
}

/// What the walk makes of the entries of a directory, in their order.
pub open spec fn walk_all(
    items: Seq<DirItem>,
    chain: Seq<u8>,
    id_width: nat,
    own: Seq<Seq<char>>,
    at_root: bool,
) -> WalkView
    decreases items,
{
    if items.len() == 0 {
        WalkView::empty()
    } else {
        walk_all(items.drop_last(), chain, id_width, own, at_root).followed_by(
            walk_one(items.last(), chain, id_width, own, at_root),
        )
    }
}

/// Whether a text stands in a list.
fn has_text(list: &Vec<String>, text: &str) -> (yes: bool)
    ensures
        yes == text_views(list@).contains(text@),
{
    let mut i: usize = 0;
    while i < list.len()
        invariant
            i <= list@.len(),
            forall|j: int| 0 <= j < i ==> (#[trigger] text_views(list@)[j]) != text@,
        decreases list@.len() - i,
    {
        proof {
            assert(text_views(list@)[i as int] == list@[i as int]@);
        }
        if equal_text(&list[i], text) {
            return true;
        }
        i = i + 1;
    }
    false
}

/// Whether the walk passes an entry over.
fn skipped(item: &DirItem, own: &Vec<String>, at_root: bool) -> (yes: bool)
    ensures
        yes == passes_over(*item, text_views(own@), at_root),
{
    if has_text(own, &item.path) {
        return true;
    }
    match &item.name {
        Some(name) => at_root && store_entry(name),
        None => false,
    }
}

/// Whether the walk looks into a directory at a path: one whose name is a
/// fanout level, and which is not the store's own. The entries of any other
/// directory make no difference to the walk.
pub fn enters(path: &str, name: &str, own: &Vec<String>, at_root: bool) -> (yes: bool)
    ensures
        yes == (!text_views(own@).contains(path@) && !(at_root && is_store_entry(name@))
            && from_hex(name@, 1) is Some),
{
    if has_text(own, path) || (at_root && store_entry(name)) {
        return false;
    }
    match parse_hex_byte(name) {
        Some(_) => true,
        None => false,
    }
}

/// What lies in a directory that is not entered makes no difference.
pub proof fn lemma_not_entered(
    item: DirItem,
    children: Vec<DirItem>,
    other: Vec<DirItem>,
    chain: Seq<u8>,
    id_width: nat,
    own: Seq<Seq<char>>,
    at_root: bool,
)
    requires
        item.kind == ItemKind::Dir(children),
        match item.name {
            Some(name) => own.contains(item.path@) || (at_root && is_store_entry(name@))
                || from_hex(name@, 1) is None,
            None => true,
        },
    ensures
        walk_one(item, chain, id_width, own, at_root) == walk_one(
            DirItem { kind: ItemKind::Dir(other), ..item },
            chain,
            id_width,
            own,
            at_root,
        ),
{
}

/// Adds an entry that is not part of the layout.
fn add_foreign(walk: &mut DiskWalk, path: &str, reason: String)
    ensures
        final(walk)@ == old(walk)@.followed_by(WalkView::foreign(path@, reason@)),
{
    let ghost before = walk@;
    walk.foreign.push(ForeignPath { path: path.to_owned(), reason });
    proof {
        assert(walk@ =~= before.followed_by(WalkView::foreign(path@, reason@)));
    }
}

/// Adds a block file.
fn add_file(walk: &mut DiskWalk, id: BlockId, depth: u8, size: u64, path: &str)
    ensures
        final(walk)@ == old(walk)@.followed_by(WalkView::file(id@, depth, size, path@)),
{
    let ghost before = walk@;
    walk.files.push(BlockFile { id, depth, size, path: path.to_owned() });
    proof {
        assert(walk@ =~= before.followed_by(WalkView::file(id@, depth, size, path@)));
    }
}

/// One directory level. `chain` is the byte sequence spelled by the directories
/// walked so far, which an accepted file's address must start with.
pub fn walk_dir(
    items: &Vec<DirItem>,
    chain: &Vec<u8>,
    id_width: usize,
    own: &Vec<String>,
    walk: &mut DiskWalk,
    at_root: bool,
)
    ensures
        final(walk)@ == old(walk)@.followed_by(
            walk_all(items@, chain@, id_width as nat, text_views(own@), at_root),
        ),
    decreases items@,
{
    let ghost start = walk@;
    let ghost names = text_views(own@);
    let ghost width = id_width as nat;
    let mut i: usize = 0;
    proof {
        assert(items@.subrange(0, 0) =~= Seq::<DirItem>::empty());
        assert(start.followed_by(WalkView::empty()) =~= start);
    }
    while i < items.len()
        invariant
            i <= items@.len(),
            names == text_views(own@),
            width == id_width as nat,
            walk@ == start.followed_by(
                walk_all(items@.subrange(0, i as int), chain@, width, names, at_root),
            ),
        decreases items@.len() - i,
    {
        let item = &items[i];
        let ghost so_far = walk@;
        let ghost init = walk_all(items@.subrange(0, i as int), chain@, width, names, at_root);
        proof {
            lemma_prefix(items@, i as int);
            assert(decreases_to!(items@ => items@[i as int]));
        }
        if skipped(item, own, at_root) {
            proof {
                assert(so_far.followed_by(WalkView::empty()) =~= so_far);
            }
        } else {
            match &item.name {
                None => {
                    add_foreign(
                        walk,
                        &item.path,
                        "name is not valid UTF-8, so it cannot be a block address".to_owned(),
                    );
                },
                Some(name) => match &item.kind {
                    ItemKind::Dir(children) => match parse_hex_byte(name) {
                        Some(byte) => {
                            let mut deeper: Vec<u8> = Vec::new();
                            deeper.extend_from_slice(chain);
                            deeper.push(byte);
                            proof {
                                assert(deeper@ =~= chain@ + seq![byte]);
                                assert(decreases_to!(items@[i as int] => children));
                                assert(decreases_to!(children => children@));
                            }
                            walk_dir(children, &deeper, id_width, own, walk, false);
                        },
                        None => {
                            let mut reason = "directory ".to_owned();
                            reason.append(name);
                            reason.append(
                                " is not a fanout level (expected two lowercase hex digits)",
                            );
                            add_foreign(walk, &item.path, reason);
                        },
                    },
                    ItemKind::Other => {
                        add_foreign(
                            walk,
                            &item.path,
                            "not a regular file or directory".to_owned(),
                        );
                    },
                    ItemKind::File(size) => match classify_file(name, chain, id_width) {
                        Ok(id) => {
                            add_file(walk, id, chain.len() as u8, *size, &item.path);
                        },
                        Err(reason) => {
                            add_foreign(walk, &item.path, reason);
                        },
                    },
                },
            }
        }
        proof {
            let one = walk_one(items@[i as int], chain@, width, names, at_root);
            assert(walk@ == so_far.followed_by(one));
            assert(start.followed_by(init).followed_by(one) =~= start.followed_by(
                init.followed_by(one),
            ));
        }
        i = i + 1;
    }
    proof {
        assert(items@.subrange(0, items@.len() as int) =~= items@);
    }
}

/// Walks the entries of the blocks root; of one that does not exist there are
/// none. `own` holds those of the store's own paths that exist, in the form in
/// which the entries give theirs.
///
/// The store's own entries are skipped, at the top level only: deeper down, an
/// entry by one of their names is reported foreign like anything else.
pub fn walk_disk<N: Store, B: Store>(
    ctx: &ScrubContext<'_, N, B>,
    items: &Vec<DirItem>,
    own: &Vec<String>,
) -> (walk: DiskWalk)
    ensures
        walk@ == walk_all(
            items@,
            Seq::empty(),
            ctx.shared.hasher.bytes() as nat,
            text_views(own@),
            true,
        ),
        items@.len() == 0 ==> walk@ == WalkView::empty(),
{
    let mut walk = DiskWalk::default();
    let chain: Vec<u8> = Vec::new();
    walk_dir(items, &chain, ctx.id_width(), own, &mut walk, true);
    proof {
        let all = walk_all(
            items@,
            Seq::empty(),
            ctx.shared.hasher.bytes() as nat,
            text_views(own@),
            true,
        );
        assert(chain@ =~= Seq::<u8>::empty());
        assert(WalkView::empty().followed_by(all) =~= all);
    }
    walk
}

/// Whether entries give their places: each named one lies in the directory it
/// was read from.
pub open spec fn placed(items: Seq<DirItem>, dir: Seq<char>) -> bool
    decreases items,
{
    if items.len() == 0 {
        true
    } else {
        placed(items.drop_last(), dir) && placed_one(items.last(), dir)
    }
}

/// Whether one entry gives its place, and so do the entries below it.
pub open spec fn placed_one(item: DirItem, dir: Seq<char>) -> bool
    decreases item,
{
    match item.name {
        None => true,
        Some(name) => {
            &&& item.path@ == path_join(dir, name@)
            &&& match item.kind {
                ItemKind::Dir(children) => placed(children@, item.path@),
                _ => true,
            }
        },
    }
}

/// Whether a file sits where its address and depth put it.
pub open spec fn at_block_path(f: FileView, id_width: nat, root: Seq<char>) -> bool {
    &&& f.id.len() == id_width
    &&& is_id_width(f.id.len())
    &&& 1 <= f.depth <= f.id.len()
    &&& f.path == block_path(f.id, f.depth as nat, root)
}

/// The directory chain below a root depends on the leading bytes alone.
proof fn lemma_fanout_prefix(a: Seq<u8>, b: Seq<u8>, n: nat, root: Seq<char>)
    requires
        n <= a.len(),
        n <= b.len(),
        forall|i: int| 0 <= i < n ==> a[i] == b[i],
    ensures
        fanout_dir(a, n, root) == fanout_dir(b, n, root),
    decreases n,
{
    if n > 0 {
        lemma_fanout_prefix(a, b, (n - 1) as nat, root);
    }
}

proof fn lemma_walk_one_placed(
    item: DirItem,
    chain: Seq<u8>,
    id_width: nat,
    own: Seq<Seq<char>>,
    at_root: bool,
    root: Seq<char>,
)
    requires
        placed_one(item, fanout_dir(chain, chain.len(), root)),
    ensures
        forall|i: int|
            0 <= i < walk_one(item, chain, id_width, own, at_root).files.len() ==> at_block_path(
                #[trigger] walk_one(item, chain, id_width, own, at_root).files[i],
                id_width,
                root,
            ),
    decreases item,
{
    if !passes_over(item, own, at_root) && item.name is Some {
        let name = item.name->Some_0@;
        match item.kind {
            ItemKind::Dir(children) => {
                if from_hex(name, 1) is Some {
                    let byte = from_hex(name, 1)->Some_0;
                    let deeper = chain + byte;
                    assert(byte =~= seq![deeper[deeper.len() - 1]]);
                    lemma_fanout_prefix(deeper, chain, chain.len(), root);
                    assert(fanout_dir(deeper, deeper.len(), root) == item.path@);
                    lemma_walk_all_placed(children@, deeper, id_width, own, false, root);
                    let below = walk_all(children@, deeper, id_width, own, false);
                    let one = walk_one(item, chain, id_width, own, at_root);
                    assert(one == below);
                    assert forall|i: int| 0 <= i < one.files.len() implies at_block_path(
                        #[trigger] one.files[i],
                        id_width,
                        root,
                    ) by {
                        assert(at_block_path(below.files[i], id_width, root));
                    }
                }
            },
            ItemKind::File(size) => {
                if classified(name, chain, id_width) is Ok {
                    let id = classified(name, chain, id_width)->Ok_0;
                    assert(chain.len() <= 32);
                    assert forall|i: int| 0 <= i < chain.len() implies id[i] == chain[i] by {
                        assert(id.subrange(0, chain.len() as int)[i] == chain[i]);
                    }
                    lemma_fanout_prefix(id, chain, chain.len(), root);
                    assert(clamped_depth(id, chain.len()) == chain.len());
                    assert(hex(id) == name);
                    assert(block_path(id, chain.len(), root) == item.path@);
                    let depth = chain.len() as u8;
                    assert(depth == chain.len());
                    let f = FileView { id, depth, size, path: item.path@ };
                    assert(at_block_path(f, id_width, root));
                    assert(walk_one(item, chain, id_width, own, at_root).files =~= seq![f]);
                }
            },
            ItemKind::Other => {},
        }
    }
}

proof fn lemma_walk_all_placed(
    items: Seq<DirItem>,
    chain: Seq<u8>,
    id_width: nat,
    own: Seq<Seq<char>>,
    at_root: bool,
    root: Seq<char>,
)
    requires
        placed(items, fanout_dir(chain, chain.len(), root)),
    ensures
        forall|i: int|
            0 <= i < walk_all(items, chain, id_width, own, at_root).files.len() ==> at_block_path(
                #[trigger] walk_all(items, chain, id_width, own, at_root).files[i],
                id_width,
                root,
            ),
    decreases items,
{
    if items.len() > 0 {
        let init = walk_all(items.drop_last(), chain, id_width, own, at_root);
        let one = walk_one(items.last(), chain, id_width, own, at_root);
        let all = walk_all(items, chain, id_width, own, at_root);
        lemma_walk_all_placed(items.drop_last(), chain, id_width, own, at_root, root);
        lemma_walk_one_placed(items.last(), chain, id_width, own, at_root, root);
        assert forall|i: int| 0 <= i < all.files.len() implies at_block_path(
            #[trigger] all.files[i],
            id_width,
            root,
        ) by {
            if i < init.files.len() {
                assert(all.files[i] == init.files[i]);
            } else {
                assert(all.files[i] == one.files[i - init.files.len()]);
            }
        }
    }
}

/// Every file that a walk of a directory tree accepts sits where its address
/// and depth put it: the path builder rebuilds the path it was found at.
pub proof fn lemma_walk_round_trips(
    items: Seq<DirItem>,
    id_width: nat,
    own: Seq<Seq<char>>,
    root: Seq<char>,
    i: int,
)
    requires
        placed(items, root),
        0 <= i < walk_all(items, Seq::empty(), id_width, own, true).files.len(),
    ensures
        at_block_path(
            walk_all(items, Seq::empty(), id_width, own, true).files[i],
            id_width,
            root,
        ),
{
    lemma_walk_all_placed(items, Seq::empty(), id_width, own, true, root);
}

/// Whether a path is that of an entry, or of one below an entry.
pub open spec fn lies_in(items: Seq<DirItem>, path: Seq<char>) -> bool
    decreases items,
{
    items.len() > 0 && (lies_in(items.drop_last(), path) || lies_at(items.last(), path))
}

/// Whether a path is that of this entry, or of one below it.
pub open spec fn lies_at(item: DirItem, path: Seq<char>) -> bool
    decreases item,
{
    ||| item.path@ == path
    ||| match item.kind {
        ItemKind::Dir(children) => lies_in(children@, path),
        _ => false,
    }
}

/// Whether no two entries of a directory tree have the same path.
pub open spec fn apart(items: Seq<DirItem>) -> bool
    decreases items,
{
    items.len() > 0 ==> {
        &&& apart(items.drop_last())
        &&& apart_below(items.last())
        &&& forall|path: Seq<char>| #[trigger]
            lies_in(items.drop_last(), path) ==> !lies_at(items.last(), path)
    }
}

/// Whether no two of an entry and those below it have the same path.
pub open spec fn apart_below(item: DirItem) -> bool
    decreases item,
{
    match item.kind {
        ItemKind::Dir(children) => apart(children@) && !lies_in(children@, item.path@),
        _ => true,
    }
}

impl WalkView {
    /// Whether the walk accepted or rejected nothing but what a set of paths
    /// holds.
    pub open spec fn within(self, paths: spec_fn(Seq<char>) -> bool) -> bool {
        &&& forall|i: int| 0 <= i < self.files.len() ==> paths((#[trigger] self.files[i]).path)
        &&& forall|i: int| 0 <= i < self.foreign.len() ==> paths((#[trigger] self.foreign[i]).path)
    }

    /// Whether no path was accepted and rejected, and none accepted or rejected
    /// twice.
    pub open spec fn decided_once(self) -> bool {
        &&& forall|i: int, j: int|
            0 <= i < self.files.len() && 0 <= j < self.foreign.len()
                ==> (#[trigger] self.files[i]).path != (#[trigger] self.foreign[j]).path
        &&& forall|i: int, j: int|
            0 <= i < j < self.files.len() ==> (#[trigger] self.files[i]).path != (
            #[trigger] self.files[j]).path
        &&& forall|i: int, j: int|
            0 <= i < j < self.foreign.len() ==> (#[trigger] self.foreign[i]).path != (
            #[trigger] self.foreign[j]).path
    }
}

proof fn lemma_walk_one_within(
    item: DirItem,
    chain: Seq<u8>,
    id_width: nat,
    own: Seq<Seq<char>>,
    at_root: bool,
)
    ensures
        walk_one(item, chain, id_width, own, at_root).within(|p: Seq<char>| lies_at(item, p)),
        apart_below(item) ==> walk_one(item, chain, id_width, own, at_root).decided_once(),
    decreases item,
{
    if !passes_over(item, own, at_root) && item.name is Some {
        if let ItemKind::Dir(children) = item.kind {
            if from_hex(item.name->Some_0@, 1) is Some {
                let deeper = chain + from_hex(item.name->Some_0@, 1)->Some_0;
                lemma_walk_within(children@, deeper, id_width, own, false);
            }
        }
    }
}

proof fn lemma_walk_within(
    items: Seq<DirItem>,
    chain: Seq<u8>,
    id_width: nat,
    own: Seq<Seq<char>>,
    at_root: bool,
)
    ensures
        walk_all(items, chain, id_width, own, at_root).within(|p: Seq<char>| lies_in(items, p)),
        apart(items) ==> walk_all(items, chain, id_width, own, at_root).decided_once(),
    decreases items,
{
    if items.len() > 0 {
        let a = walk_all(items.drop_last(), chain, id_width, own, at_root);
        let b = walk_one(items.last(), chain, id_width, own, at_root);
        let all = walk_all(items, chain, id_width, own, at_root);
        lemma_walk_within(items.drop_last(), chain, id_width, own, at_root);
        lemma_walk_one_within(items.last(), chain, id_width, own, at_root);
        assert forall|i: int| 0 <= i < all.files.len() implies lies_in(
            items,
            (#[trigger] all.files[i]).path,
        ) by {
            if i < a.files.len() {
                assert(lies_in(items.drop_last(), a.files[i].path));
            } else {
                assert(lies_at(items.last(), b.files[i - a.files.len()].path));
            }
        }
        assert forall|i: int| 0 <= i < all.foreign.len() implies lies_in(
            items,
            (#[trigger] all.foreign[i]).path,
        ) by {
            if i < a.foreign.len() {
                assert(lies_in(items.drop_last(), a.foreign[i].path));
            } else {
                assert(lies_at(items.last(), b.foreign[i - a.foreign.len()].path));
            }
        }
        if apart(items) {
            lemma_decided_once(items, a, b);
        }
    }
}

/// Walks over entries apart from each other decide on different paths.
proof fn lemma_decided_once(items: Seq<DirItem>, a: WalkView, b: WalkView)
    requires
        items.len() > 0,
        apart(items),
        a.within(|p: Seq<char>| lies_in(items.drop_last(), p)),
        b.within(|p: Seq<char>| lies_at(items.last(), p)),
        a.decided_once(),
        b.decided_once(),
    ensures
        a.followed_by(b).decided_once(),
{
    let all = a.followed_by(b);
    let (n, m) = (a.files.len() as int, a.foreign.len() as int);
    assert forall|i: int|
        0 <= i < all.files.len() implies #[trigger] all.files[i] == if i < n {
        a.files[i]
    } else {
        b.files[i - n]
    } by {}
    assert forall|i: int|
        0 <= i < all.foreign.len() implies #[trigger] all.foreign[i] == if i < m {
        a.foreign[i]
    } else {
        b.foreign[i - m]
    } by {}
    assert forall|i: int| 0 <= i < n implies !lies_at(
        items.last(),
        (#[trigger] a.files[i]).path,
    ) by {
        assert(lies_in(items.drop_last(), a.files[i].path));
    }
    assert forall|i: int| 0 <= i < m implies !lies_at(
        items.last(),
        (#[trigger] a.foreign[i]).path,
    ) by {
        assert(lies_in(items.drop_last(), a.foreign[i].path));
    }
}

/// A walk decides once on every entry of a tree whose entries have paths of their
/// own: no path is both a block file and foreign, and none is listed twice. It
/// lists nothing but entries of the tree.
pub proof fn lemma_walk_decides_once(items: Seq<DirItem>, id_width: nat, own: Seq<Seq<char>>)
    requires
        apart(items),
    ensures
        walk_all(items, Seq::empty(), id_width, own, true).decided_once(),
        walk_all(items, Seq::empty(), id_width, own, true).within(
            |path: Seq<char>| lies_in(items, path),
        ),
{
    lemma_walk_within(items, Seq::empty(), id_width, own, true);
}

/// Whether the walk of some entries comes upon an entry, under a directory chain
/// and perhaps directly under the root.
pub open spec fn reaches(
    items: Seq<DirItem>,
    chain: Seq<u8>,
    own: Seq<Seq<char>>,
    at_root: bool,
    item: DirItem,
    place: (Seq<u8>, bool),
) -> bool
    decreases items,
{
    items.len() > 0 && (reaches(items.drop_last(), chain, own, at_root, item, place)
        || reaches_one(items.last(), chain, own, at_root, item, place))
}

/// Whether the walk of one entry comes upon an entry: that one, or one below it.
pub open spec fn reaches_one(
    entry: DirItem,
    chain: Seq<u8>,
    own: Seq<Seq<char>>,
    at_root: bool,
    item: DirItem,
    place: (Seq<u8>, bool),
) -> bool
    decreases entry,
{
    ||| entry == item && place == (chain, at_root)
    ||| !passes_over(entry, own, at_root) && match (entry.name, entry.kind) {
        (Some(name), ItemKind::Dir(children)) => match from_hex(name@, 1) {
            Some(byte) => reaches(children@, chain + byte, own, false, item, place),
            None => false,
        },
        _ => false,
    }
}

impl WalkView {
    /// Whether another walk found all that this one did.
    pub open spec fn found_in(self, all: WalkView) -> bool {
        &&& forall|f: FileView| #[trigger] self.files.contains(f) ==> all.files.contains(f)
        &&& forall|f: ForeignView| #[trigger] self.foreign.contains(f) ==> all.foreign.contains(f)
    }
}

proof fn lemma_found_in_both(a: WalkView, b: WalkView)
    ensures
        a.found_in(a.followed_by(b)),
        b.found_in(a.followed_by(b)),
{
    let all = a.followed_by(b);
    assert forall|f: FileView| #[trigger] a.files.contains(f) implies all.files.contains(f) by {
        let i = choose|i: int| 0 <= i < a.files.len() && a.files[i] == f;
        assert(all.files[i] == f);
    }
    assert forall|f: FileView| #[trigger] b.files.contains(f) implies all.files.contains(f) by {
        let i = choose|i: int| 0 <= i < b.files.len() && b.files[i] == f;
        assert(all.files[a.files.len() + i] == f);
    }
    assert forall|f: ForeignView| #[trigger] a.foreign.contains(f) implies all.foreign.contains(
        f,
    ) by {
        let i = choose|i: int| 0 <= i < a.foreign.len() && a.foreign[i] == f;
        assert(all.foreign[i] == f);
    }
    assert forall|f: ForeignView| #[trigger] b.foreign.contains(f) implies all.foreign.contains(
        f,
    ) by {
        let i = choose|i: int| 0 <= i < b.foreign.len() && b.foreign[i] == f;
        assert(all.foreign[a.foreign.len() + i] == f);
    }
}

proof fn lemma_walk_one_takes_in(
    entry: DirItem,
    chain: Seq<u8>,
    id_width: nat,
    own: Seq<Seq<char>>,
    at_root: bool,
    item: DirItem,
    place: (Seq<u8>, bool),
)
    requires
        reaches_one(entry, chain, own, at_root, item, place),
    ensures
        walk_one(item, place.0, id_width, own, place.1).found_in(
            walk_one(entry, chain, id_width, own, at_root),
        ),
    decreases entry,
{
    if !(entry == item && place == (chain, at_root)) {
        if let (Some(name), ItemKind::Dir(children)) = (entry.name, entry.kind) {
            let deeper = chain + from_hex(name@, 1)->Some_0;
            lemma_walk_all_takes_in(children@, deeper, id_width, own, false, item, place);
        }
    }
}

proof fn lemma_walk_all_takes_in(
    items: Seq<DirItem>,
    chain: Seq<u8>,
    id_width: nat,
    own: Seq<Seq<char>>,
    at_root: bool,
    item: DirItem,
    place: (Seq<u8>, bool),
)
    requires
        reaches(items, chain, own, at_root, item, place),
    ensures
        walk_one(item, place.0, id_width, own, place.1).found_in(
            walk_all(items, chain, id_width, own, at_root),
        ),
    decreases items,
{
    let init = items.drop_last();
    lemma_found_in_both(
        walk_all(init, chain, id_width, own, at_root),
        walk_one(items.last(), chain, id_width, own, at_root),
    );
    if reaches(init, chain, own, at_root, item, place) {
        lemma_walk_all_takes_in(init, chain, id_width, own, at_root, item, place);
    } else {
        lemma_walk_one_takes_in(items.last(), chain, id_width, own, at_root, item, place);
    }
}

/// Every file that a walk comes upon and does not pass over is decided by its name
/// and the directories above it: one that spells an address with those directories
/// as its prefix is a block file of its size at that depth, and not foreign; any
/// other is foreign, and no block file. So is one that lies directly under the
/// root, one under another address's directories, and one whose name is not
/// lowercase hex of the right width.
pub proof fn lemma_walk_decides(
    items: Seq<DirItem>,
    id_width: nat,
    own: Seq<Seq<char>>,
    item: DirItem,
    place: (Seq<u8>, bool),
    name: String,
    size: u64,
)
    requires
        apart(items),
        reaches(items, Seq::empty(), own, true, item, place),
        !passes_over(item, own, place.1),
        item.name == Some(name),
        item.kind == ItemKind::File(size),
    ensures
        ({
            let walk = walk_all(items, Seq::empty(), id_width, own, true);
            let (chain, path) = (place.0, item.path@);
            match classified(name@, chain, id_width) {
                Ok(id) => {
                    &&& walk.files.contains(FileView { id, depth: chain.len() as u8, size, path })
                    &&& forall|i: int|
                        0 <= i < walk.foreign.len() ==> (#[trigger] walk.foreign[i]).path != path
                },
                Err(reason) => {
                    &&& walk.foreign.contains(ForeignView { path, reason })
                    &&& forall|i: int|
                        0 <= i < walk.files.len() ==> (#[trigger] walk.files[i]).path != path
                },
            }
        }),
        place.0.len() == 0 ==> classified(name@, place.0, id_width) is Err,
        from_hex(name@, id_width) is None ==> classified(name@, place.0, id_width) is Err,
        from_hex(name@, id_width) matches Some(id) ==> !starts_with(id, place.0) ==> classified(
            name@,
            place.0,
            id_width,
        ) is Err,
{
    let walk = walk_all(items, Seq::empty(), id_width, own, true);
    let one = walk_one(item, place.0, id_width, own, place.1);
    lemma_walk_all_takes_in(items, Seq::empty(), id_width, own, true, item, place);
    lemma_walk_decides_once(items, id_width, own);
    match classified(name@, place.0, id_width) {
        Ok(id) => {
            let f = FileView { id, depth: place.0.len() as u8, size, path: item.path@ };
            assert(one.files =~= seq![f]);
            assert(one.files[0] == f);
            assert(one.files.contains(f));
            let k = choose|k: int| 0 <= k < walk.files.len() && walk.files[k] == f;
            assert(walk.files[k].path == item.path@);
        },
        Err(reason) => {
            let f = ForeignView { path: item.path@, reason };
            assert(one.foreign =~= seq![f]);
            assert(one.foreign[0] == f);
            assert(one.foreign.contains(f));
            let k = choose|k: int| 0 <= k < walk.foreign.len() && walk.foreign[k] == f;
            assert(walk.foreign[k].path == item.path@);
        },
    }
}

/// The walk passes over the store's own metadata wherever it is, and directly under
/// the root the four entries by these names; and nothing else.
pub proof fn lemma_passes_over(item: DirItem, own: Seq<Seq<char>>, at_root: bool)
    ensures
        passes_over(item, own, at_root) <==> own.contains(item.path@) || (at_root && (item.name
            matches Some(name) && (name@ == ".tmp"@ || name@ == ".quarantine"@ || name@ == ".db"@
            || name@ == ".store-id"@))),
{
}

/// A file is a block file of the store exactly where its name is the lowercase hex of
/// an address of the store's width, 16 or 32 bytes, that begins with the bytes of
/// the directories above it, of which there is one at least.
pub proof fn lemma_classified(name: Seq<char>, chain: Seq<u8>, id_width: nat, id: Seq<u8>)
    ensures
        classified(name, chain, id_width) == Ok::<Seq<u8>, Seq<char>>(id) <==> {
            &&& name == hex(id)
            &&& id.len() == id_width
            &&& id_width == 16 || id_width == 32
            &&& chain.len() > 0
            &&& chain.is_prefix_of(id)
        },
{
    if name == hex(id) && id.len() == id_width {
        lemma_from_hex(id);
    }
    if chain.len() <= id.len() && chain.is_prefix_of(id) {
        assert(id.subrange(0, chain.len() as int) =~= chain);
    }
}

/// What the walk makes of an entry, by what the entry is: nothing where it is passed
/// over; a rejection where its name is no text, where it is neither file nor
/// directory, and where it is a directory whose name is not a byte in lowercase hex;
/// the walk of its entries, one byte further down, for any other directory; and for
/// a file one acceptance, of its size and the number of directories above it, or one
/// rejection.
pub proof fn lemma_walk_entry(
    item: DirItem,
    chain: Seq<u8>,
    id_width: nat,
    own: Seq<Seq<char>>,
    at_root: bool,
    byte: u8,
)
    ensures
        ({
            let walk = walk_one(item, chain, id_width, own, at_root);
            let rejected = walk.files.len() == 0 && walk.foreign.len() == 1
                && walk.foreign[0].path == item.path@;
            if passes_over(item, own, at_root) {
                walk.files.len() == 0 && walk.foreign.len() == 0
            } else {
                match (item.name, item.kind) {
                    (None, _) => rejected,
                    (_, ItemKind::Other) => rejected,
                    (Some(name), ItemKind::Dir(children)) => {
                        &&& name@ == hex(seq![byte]) ==> walk == walk_all(
                            children@,
                            chain.push(byte),
                            id_width,
                            own,
                            false,
                        )
                        &&& (forall|b: u8| name@ != #[trigger] hex(seq![b])) ==> rejected
                    },
                    (Some(name), ItemKind::File(size)) => match classified(
                        name@,
                        chain,
                        id_width,
                    ) {
                        Ok(id) => walk.foreign.len() == 0 && walk.files.len() == 1 && walk.files[0]
                            == (FileView {
                            id,
                            depth: chain.len() as u8,
                            size,
                            path: item.path@,
                        }),
                        Err(_) => rejected,
                    },
                }
            }
        }),
{
    if let (Some(name), ItemKind::Dir(children)) = (item.name, item.kind) {
        if name@ == hex(seq![byte]) {
            lemma_from_hex(seq![byte]);
            assert(chain.push(byte) =~= chain + seq![byte]);
        }
        if let Some(bytes) = from_hex(name@, 1) {
            assert(bytes =~= seq![bytes[0]]);
            assert(name@ == hex(seq![bytes[0]]));
        }
    }
}

/// A walk lists what it makes of each entry behind what it made of those before.
pub proof fn lemma_walk_grows(
    items: Seq<DirItem>,
    item: DirItem,
    chain: Seq<u8>,
    id_width: nat,
    own: Seq<Seq<char>>,
    at_root: bool,
)
    ensures
        ({
            let before = walk_all(items, chain, id_width, own, at_root);
            let one = walk_one(item, chain, id_width, own, at_root);
            let walk = walk_all(items.push(item), chain, id_width, own, at_root);
            &&& walk.files == before.files + one.files
            &&& walk.foreign == before.foreign + one.foreign
        }),
        walk_all(Seq::empty(), chain, id_width, own, at_root).files.len() == 0,
        walk_all(Seq::empty(), chain, id_width, own, at_root).foreign.len() == 0,
{
    assert(items.push(item).drop_last() =~= items);
}

} // verus!
