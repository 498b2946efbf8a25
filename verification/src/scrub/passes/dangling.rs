//! Records whose file is not where they say it is.

use vstd::prelude::*;
use vstd::string::*;

use crate::metastore::block::{block_disk_path, block_path, Block, BlockId};
use crate::metastore::codec::id_views;
use crate::metastore::traits::{Store, TransactionBackend};
use crate::scrub::disk::{DiskWalk, FileView};
use crate::scrub::findings::{
    add_finding, copy_holders, finding_views, holder_views, Finding, FindingClass, FindingView,
    HolderRef,
};
use crate::scrub::holders::{
    holders_naming, holders_of, names_holders, HolderEntry, HolderEnumerationError,
};
use crate::scrub::id_map::{key_order, lists_keys, IdMap};
use crate::scrub::passes::disk_sweep::{file_finding, seen_at};
use crate::scrub::records::RecordWalk;
use crate::scrub::trees::lemma_prefix;
use crate::scrub::ScrubContext;
use crate::text::{dec, equal_text, hex, lemma_hex_injective, put_dec, put_len_dec};

verus! {

/// The depths other than its own at which a block is on disk, in walk order.
pub open spec fn elsewhere(files: Seq<FileView>, id: Seq<u8>, depth: u8) -> Seq<u8>
    decreases files.len(),
{
    if files.len() == 0 {
        Seq::empty()
    } else {
        let init = elsewhere(files.drop_last(), id, depth);
        if files.last().id == id && files.last().depth != depth {
            init.push(files.last().depth)
        } else {
            init
        }
    }
}

/// Depths, joined by a comma.
pub open spec fn depth_list(depths: Seq<u8>) -> Seq<char>
    decreases depths.len(),
{
    if depths.len() == 0 {
        Seq::empty()
    } else if depths.len() == 1 {
        dec(depths[0] as nat)
    } else {
        depth_list(depths.drop_last()) + ", "@ + dec(depths.last() as nat)
    }
}

/// What is wrong with a record, given whether its own file is there.
///
/// A record already flagged degraded is known damage awaiting a heal. One whose
/// file is missing can adopt a copy at another depth; without such a copy its
/// bytes are gone.
pub open spec fn dangling(
    id: Seq<u8>,
    block: Block,
    present: bool,
    files: Seq<FileView>,
    root: Seq<char>,
) -> Option<FindingView> {
    let path = block_path(id, block.depth as nat, root);
    let other = elsewhere(files, id, block.depth);
    if block.degraded() {
        let state = if present {
            "a file is present at that path, so the next PUT of this content will heal it"@
        } else {
            "no file, as expected of a degraded record"@
        };
        Some(
            FindingView::new(
                FindingClass::DegradedRecord,
                "record flagged degraded, rc "@ + dec(block.rc as nat)
                    + " (holders still accounted for); "@ + state,
            ).with_block(id).with_path(path),
        )
    } else if present {
        None
    } else if other.len() == 0 {
        Some(
            FindingView::new(
                FindingClass::DanglingRecord,
                "no file at depth "@ + dec(block.depth as nat)
                    + ", and the id is nowhere else on disk: the bytes are gone. Every holder below is damaged, and until this record is repaired it poisons dedup -- a later PUT of the same content bumps this record instead of writing the file, committing another damaged object"@,
            ).with_block(id).with_path(path),
        )
    } else {
        Some(
            FindingView::new(
                FindingClass::AdoptableDanglingRecord,
                "no file at depth "@ + dec(block.depth as nat)
                    + ", but the id is on disk at depth "@ + depth_list(other)
                    + ": adoptable once the file is re-hashed"@,
            ).with_block(id).with_path(path),
        )
    }
}

/// Whether the file of the record at some place is there; beyond the end of the
/// list it is not.
pub open spec fn present_at(present: Seq<bool>, i: int) -> bool {
    i < present.len() && present[i]
}

/// What is wrong with records, in order.
pub open spec fn dangling_all(
    ids: Seq<Seq<u8>>,
    records: Map<Seq<u8>, Block>,
    present: Seq<bool>,
    files: Seq<FileView>,
    root: Seq<char>,
) -> Seq<FindingView>
    decreases ids.len(),
{
    if ids.len() == 0 {
        Seq::empty()
    } else {
        let init = dangling_all(ids.drop_last(), records, present, files, root);
        let here = present_at(present, ids.len() - 1);
        match dangling(ids.last(), records[ids.last()], here, files, root) {
            Some(finding) => init.push(finding),
            None => init,
        }
    }
}

/// The blocks whose bytes are gone, in order.
pub open spec fn gone(
    ids: Seq<Seq<u8>>,
    records: Map<Seq<u8>, Block>,
    present: Seq<bool>,
    files: Seq<FileView>,
) -> Seq<Seq<u8>>
    decreases ids.len(),
{
    if ids.len() == 0 {
        Seq::empty()
    } else {
        let init = gone(ids.drop_last(), records, present, files);
        let block = records[ids.last()];
        if !block.degraded() && !present_at(present, ids.len() - 1) && elsewhere(
            files,
            ids.last(),
            block.depth,
        ).len() == 0 {
            init.push(ids.last())
        } else {
            init
        }
    }
}

/// Where each record's own file is, in the order of the records.
pub open spec fn own_paths_of(
    ids: Seq<Seq<u8>>,
    records: Map<Seq<u8>, Block>,
    root: Seq<char>,
) -> Seq<Seq<char>> {
    ids.map_values(|id: Seq<u8>| block_path(id, records[id].depth as nat, root))
}

/// The path of each record's own file, in the order of the records. Whether
/// there is a file at each of them is what the sweep asks for.
pub fn record_paths(records: &RecordWalk, root: &str) -> (paths: Vec<String>)
    ensures
        paths@.map_values(|p: String| p@) == own_paths_of(
            key_order(records.records@),
            records.records@,
            root@,
        ),
{
    let ghost blocks = records.records@;
    let n: usize = records.records.len();
    let ghost ids = records.records.order();
    let ghost want = own_paths_of(ids, blocks, root@);
    let mut paths: Vec<String> = Vec::new();
    let mut i: usize = 0;
    while i < n
        invariant
            i <= n,
            n == ids.len(),
            ids == records.records.order(),
            blocks == records.records@,
            want == own_paths_of(ids, blocks, root@),
            paths@.len() == i,
            forall|j: int| 0 <= j < i ==> (#[trigger] paths@[j])@ == want[j],
        decreases n - i,
    {
        let id = records.records.key_at(i);
        let depth: u8 = records.records.value_at(i).depth();
        paths.push(block_disk_path(&id, depth, root.to_owned()));
        i = i + 1;
    }
    proof {
        assert(paths@.map_values(|p: String| p@) =~= want);
    }
    paths
}

/// The depths other than its own at which a block is on disk, in walk order.
pub fn find_elsewhere(disk: &DiskWalk, id: &BlockId, depth: u8) -> (depths: Vec<u8>)
    ensures
        depths@ == elsewhere(disk@.files, id@, depth),
{
    let ghost files = disk@.files;
    let mut depths: Vec<u8> = Vec::new();
    let mut i: usize = 0;
    proof {
        assert(files.subrange(0, 0) =~= Seq::<FileView>::empty());
    }
    while i < disk.files.len()
        invariant
            i <= disk.files@.len(),
            files == disk@.files,
            depths@ == elsewhere(files.subrange(0, i as int), id@, depth),
        decreases disk.files@.len() - i,
    {
        proof {
            lemma_prefix(files, i as int);
            assert(files[i as int] == disk.files@[i as int]@);
        }
        if disk.files[i].depth != depth && disk.files[i].id.same(id) {
            depths.push(disk.files[i].depth);
        }
        i = i + 1;
    }
    proof {
        assert(files.subrange(0, files.len() as int) =~= files);
    }
    depths
}

/// Appends depths, joined by a comma.
fn put_depths(out: &mut String, depths: &Vec<u8>)
    ensures
        final(out)@ == old(out)@ + depth_list(depths@),
{
    let ghost start = out@;
    let mut i: usize = 0;
    proof {
        assert(depths@.subrange(0, 0) =~= Seq::<u8>::empty());
        assert(start + depth_list(Seq::empty()) =~= start);
    }
    while i < depths.len()
        invariant
            i <= depths@.len(),
            out@ == start + depth_list(depths@.subrange(0, i as int)),
        decreases depths@.len() - i,
    {
        proof {
            lemma_prefix(depths@, i as int);
            assert(depths@.subrange(0, i + 1)[0] == depths@[0]);
        }
        if i > 0 {
            out.append(", ");
        }
        put_dec(out, depths[i] as u64);
        proof {
            assert(out@ =~= start + depth_list(depths@.subrange(0, i + 1)));
        }
        i = i + 1;
    }
    proof {
        assert(depths@.subrange(0, depths@.len() as int) =~= depths@);
    }
}

/// What is wrong with a record, given whether its own file is there.
fn check_record(id: &BlockId, block: &Block, present: bool, disk: &DiskWalk, root: &str) -> (out:
    Option<Finding>)
    ensures
        match out {
            Some(finding) => dangling(id@, *block, present, disk@.files, root@) == Some(finding@),
            None => dangling(id@, *block, present, disk@.files, root@) is None,
        },
{
    let path = block_disk_path(id, block.depth(), root.to_owned());
    if block.is_degraded() {
        let mut text = "record flagged degraded, rc ".to_owned();
        put_len_dec(&mut text, block.rc());
        text.append(" (holders still accounted for); ");
        if present {
            text.append(
                "a file is present at that path, so the next PUT of this content will heal it",
            );
        } else {
            text.append("no file, as expected of a degraded record");
        }
        return Some(
            Finding::new(FindingClass::DegradedRecord, text).with_block(id).with_path(&path),
        );
    }
    if present {
        return None;
    }
    let depths = find_elsewhere(disk, id, block.depth());
    let mut text = "no file at depth ".to_owned();
    put_dec(&mut text, block.depth() as u64);
    if depths.len() == 0 {
        text.append(
            ", and the id is nowhere else on disk: the bytes are gone. Every holder below is damaged, and until this record is repaired it poisons dedup -- a later PUT of the same content bumps this record instead of writing the file, committing another damaged object",
        );
        Some(Finding::new(FindingClass::DanglingRecord, text).with_block(id).with_path(&path))
    } else {
        text.append(", but the id is on disk at depth ");
        put_depths(&mut text, &depths);
        text.append(": adoptable once the file is re-hashed");
        Some(
            Finding::new(FindingClass::AdoptableDanglingRecord, text).with_block(id).with_path(
                &path,
            ),
        )
    }
}

/// Whether a finding is about the lost bytes of a block.
pub open spec fn names_gone(f: FindingView, id: Seq<u8>) -> bool {
    f.class is DanglingRecord && f.block == Some(hex(id))
}

/// A finding with the holders of the lost block it names, where it names one of
/// the given blocks and that has holders.
pub open spec fn with_radius(
    f: FindingView,
    blocks: Seq<Seq<u8>>,
    holders: Seq<HolderEntry>,
) -> FindingView {
    if exists|id: Seq<u8>| #[trigger]
        names_gone(f, id) && blocks.contains(id) && holders_naming(holders, id).len() > 0 {
        let id = choose|id: Seq<u8>| #[trigger]
            names_gone(f, id) && blocks.contains(id) && holders_naming(holders, id).len() > 0;
        f.with_holders(holders_naming(holders, id))
    } else {
        f
    }
}

/// A finding on a lost block with the reason why its holders are not known.
pub open spec fn without_radius(f: FindingView, e: HolderEnumerationError) -> FindingView {
    if f.class is DanglingRecord {
        FindingView {
            evidence: f.evidence + " (blast radius unavailable: "@ + e.text() + ")"@,
            ..f
        }
    } else {
        f
    }
}

/// Findings with the holders of the lost blocks they name.
pub open spec fn with_radii(
    list: Seq<FindingView>,
    blocks: Seq<Seq<u8>>,
    holders: Seq<HolderEntry>,
) -> Seq<FindingView> {
    list.map_values(|f: FindingView| with_radius(f, blocks, holders))
}

/// Findings with the reason why the holders of lost blocks are not known.
pub open spec fn without_radii(list: Seq<FindingView>, e: HolderEnumerationError) -> Seq<
    FindingView,
> {
    list.map_values(|f: FindingView| without_radius(f, e))
}

/// Whether findings got their holders, or the reason why these are not known.
/// With no lost block there is nothing to fill in.
pub open spec fn radius_attached<N: Store, B: Store>(
    ctx: ScrubContext<'_, N, B>,
    blocks: Seq<Seq<u8>>,
    before: Seq<FindingView>,
    after: Seq<FindingView>,
) -> bool {
    if blocks.len() == 0 {
        after == before
    } else {
        ||| ctx.listed() && (ctx.holders() matches Ok(holders) && after == with_radii(
            before,
            blocks,
            holders,
        ))
        ||| exists|e: HolderEnumerationError| #[trigger]
            ctx.refused(e) && after == without_radii(before, e)
    }
}

/// The holders of the lost block that a finding names.
fn radius_of(finding: &Finding, radius: &IdMap<Vec<HolderRef>>) -> (out: Option<Vec<HolderRef>>)
    ensures
        match out {
            Some(holders) => exists|id: Seq<u8>| #[trigger]
                names_gone(finding@, id) && radius@.contains_key(id) && holder_views(holders@)
                    == holder_views(radius@[id]@),
            None => forall|id: Seq<u8>| #[trigger]
                names_gone(finding@, id) ==> !radius@.contains_key(id),
        },
{
    if finding.class != FindingClass::DanglingRecord {
        return None;
    }
    match &finding.block {
        None => None,
        Some(block) => {
            let n: usize = radius.len();
            let ghost ids = radius.order();
            let mut i: usize = 0;
            while i < n
                invariant
                    i <= n,
                    n == ids.len(),
                    ids == radius.order(),
                    finding@.block == Some(block@),
                    finding@.class is DanglingRecord,
                    forall|j: int| 0 <= j < i ==> block@ != hex(#[trigger] ids[j]),
                decreases n - i,
            {
                let id = radius.key_at(i);
                if equal_text(&id.to_hex(), block) {
                    let holders = copy_holders(radius.value_at(i));
                    proof {
                        assert(names_gone(finding@, id@));
                    }
                    return Some(holders);
                }
                i = i + 1;
            }
            proof {
                assert forall|id: Seq<u8>| #[trigger] names_gone(
                    finding@,
                    id,
                ) implies !radius@.contains_key(id) by {
                    if radius@.contains_key(id) {
                        assert(ids.contains(id));
                        let j = choose|j: int| 0 <= j < ids.len() && ids[j] == id;
                        assert(block@ != hex(ids[j]));
                    }
                }
            }
            None
        },
    }
}

/// Fills in the holders of every lost block, in one walk.
///
/// If the holder set cannot be closed the radius is unavailable, and a dangling
/// record is no less dangling for it.
pub fn attach_blast_radius<N: Store, B: Store>(
    ctx: &ScrubContext<'_, N, B>,
    unrecoverable: &Vec<BlockId>,
    findings: Vec<Finding>,
) -> (out: Vec<Finding>)
    ensures
        radius_attached(
            *ctx,
            id_views(unrecoverable@),
            finding_views(findings@),
            finding_views(out@),
        ),
{
    if unrecoverable.len() == 0 {
        return findings;
    }
    let ghost blocks = id_views(unrecoverable@);
    let ghost all = finding_views(findings@);
    let mut out: Vec<Finding> = Vec::new();
    let mut i: usize = 0;
    proof {
        assert(finding_views(out@) =~= Seq::<FindingView>::empty());
    }
    match holders_of(ctx, unrecoverable) {
        Ok(radius) => {
            let ghost holders = ctx.holders()->Ok_0;
            let ghost want = with_radii(all, blocks, holders);
            proof {
                assert(want.subrange(0, 0) =~= Seq::<FindingView>::empty());
            }
            while i < findings.len()
                invariant
                    i <= findings@.len(),
                    all == finding_views(findings@),
                    want == with_radii(all, blocks, holders),
                    names_holders(radius@, blocks, holders),
                    finding_views(out@) == want.subrange(0, i as int),
                decreases findings@.len() - i,
            {
                let mut finding = findings[i].copy();
                let ghost f = finding@;
                proof {
                    assert(f == all[i as int]);
                }
                match radius_of(&findings[i], &radius) {
                    Some(list) => {
                        proof {
                            let id = choose|id: Seq<u8>| #[trigger]
                                names_gone(f, id) && radius@.contains_key(id) && holder_views(list@)
                                    == holder_views(radius@[id]@);
                            assert(blocks.contains(id) && holders_naming(holders, id).len() > 0);
                            assert forall|other: Seq<u8>| #[trigger] names_gone(
                                f,
                                other,
                            ) implies other == id by {
                                lemma_hex_injective(other, id);
                            }
                            assert(with_radius(f, blocks, holders) == f.with_holders(
                                holder_views(list@),
                            ));
                        }
                        finding = finding.with_holders(list);
                    },
                    None => {
                        proof {
                            assert forall|id: Seq<u8>| !(#[trigger] names_gone(f, id)
                                && blocks.contains(id) && holders_naming(holders, id).len()
                                > 0) by {
                                if names_gone(f, id) {
                                    assert(!radius@.contains_key(id));
                                }
                            }
                            assert(with_radius(f, blocks, holders) == f);
                        }
                    },
                }
                add_finding(&mut out, finding);
                proof {
                    assert(want[i as int] == finding@);
                    assert(want.subrange(0, i + 1) =~= want.subrange(0, i as int).push(finding@));
                }
                i = i + 1;
            }
            proof {
                assert(want.subrange(0, want.len() as int) =~= want);
            }
        },
        Err(e) => {
            let ghost want = without_radii(all, e);
            let reason = e.to_string();
            proof {
                assert(want.subrange(0, 0) =~= Seq::<FindingView>::empty());
            }
            while i < findings.len()
                invariant
                    i <= findings@.len(),
                    all == finding_views(findings@),
                    want == without_radii(all, e),
                    reason@ == e.text(),
                    finding_views(out@) == want.subrange(0, i as int),
                decreases findings@.len() - i,
            {
                let mut finding = findings[i].copy();
                let ghost f = finding@;
                proof {
                    assert(f == all[i as int]);
                }
                if finding.class == FindingClass::DanglingRecord {
                    let mut text = finding.evidence.as_str().to_owned();
                    text.append(" (blast radius unavailable: ");
                    text.append(&reason);
                    text.append(")");
                    finding.evidence = text;
                }
                proof {
                    assert(finding@ =~= without_radius(f, e));
                }
                add_finding(&mut out, finding);
                proof {
                    assert(want[i as int] == finding@);
                    assert(want.subrange(0, i + 1) =~= want.subrange(0, i as int).push(finding@));
                }
                i = i + 1;
            }
            proof {
                assert(want.subrange(0, want.len() as int) =~= want);
                assert(ctx.refused(e));
            }
        },
    }
    out
}

/// Checks every record against the file it names.
///
/// `present` says, in the order of the records, whether there is a file at the
/// path that [`record_paths`] gives. What a miss means depends on what else is
/// on disk: a copy at another depth can be adopted; without one the bytes are
/// gone, every holder is damaged, and the holders are named.
pub fn dangling_sweep<N: Store, B: Store>(
    ctx: &ScrubContext<'_, N, B>,
    records: &RecordWalk,
    disk: &DiskWalk,
    present: &Vec<bool>,
) -> (out: Vec<Finding>)
    ensures
        radius_attached(
            *ctx,
            gone(key_order(records.records@), records.records@, present@, disk@.files),
            dangling_all(
                key_order(records.records@),
                records.records@,
                present@,
                disk@.files,
                ctx.shared.blocks_root@,
            ),
            finding_views(out@),
        ),
        lists_keys(key_order(records.records@), records.records@),
{
    let ghost blocks = records.records@;
    let ghost files = disk@.files;
    let root = ctx.blocks_root();
    let mut findings: Vec<Finding> = Vec::new();
    let mut unrecoverable: Vec<BlockId> = Vec::new();
    let n: usize = records.records.len();
    let ghost ids = records.records.order();
    let mut i: usize = 0;
    proof {
        assert(ids.subrange(0, 0) =~= Seq::<Seq<u8>>::empty());
        assert(finding_views(findings@) =~= Seq::<FindingView>::empty());
        assert(id_views(unrecoverable@) =~= Seq::<Seq<u8>>::empty());
    }
    while i < n
        invariant
            i <= n,
            n == ids.len(),
            ids == records.records.order(),
            blocks == records.records@,
            files == disk@.files,
            finding_views(findings@) == dangling_all(
                ids.subrange(0, i as int),
                blocks,
                present@,
                files,
                root@,
            ),
            id_views(unrecoverable@) == gone(ids.subrange(0, i as int), blocks, present@, files),
        decreases n - i,
    {
        let id = records.records.key_at(i);
        let block = records.records.value_at(i);
        let here = i < present.len() && present[i];
        proof {
            lemma_prefix(ids, i as int);
        }
        match check_record(&id, block, here, disk, root) {
            Some(finding) => {
                if finding.class == FindingClass::DanglingRecord {
                    let ghost before = unrecoverable@;
                    unrecoverable.push(id);
                    proof {
                        assert(id_views(unrecoverable@) =~= id_views(before).push(id@));
                    }
                }
                add_finding(&mut findings, finding);
            },
            None => {},
        }
        i = i + 1;
    }
    proof {
        assert(ids.subrange(0, ids.len() as int) =~= ids);
    }
    attach_blast_radius(ctx, &unrecoverable, findings)
}

/// The finding on a lost block names its holders, all of them and each once.
pub proof fn lemma_radius_named(
    f: FindingView,
    id: Seq<u8>,
    blocks: Seq<Seq<u8>>,
    holders: Seq<HolderEntry>,
)
    requires
        names_gone(f, id),
        blocks.contains(id),
        f.holders.len() == 0,
    ensures
        with_radius(f, blocks, holders).holders == holders_naming(holders, id),
{
    assert forall|other: Seq<u8>| #[trigger] names_gone(f, other) implies other == id by {
        lemma_hex_injective(other, id);
    }
    if holders_naming(holders, id).len() == 0 {
        assert(f.holders =~= holders_naming(holders, id));
    }
}

proof fn lemma_elsewhere_some(files: Seq<FileView>, id: Seq<u8>, depth: u8, i: int)
    requires
        0 <= i < files.len(),
        files[i].id == id,
        files[i].depth != depth,
    ensures
        elsewhere(files, id, depth).len() > 0,
    decreases files.len(),
{
    if i < files.len() - 1 {
        assert(files.drop_last()[i] == files[i]);
        lemma_elsewhere_some(files.drop_last(), id, depth, i);
    }
}

/// One file, one finding: a copy at another depth than its record names is
/// reported as a duplicate where the record's own file is there, and as a copy
/// to adopt where it is not; never as both.
pub proof fn lemma_one_artifact(
    files: Seq<FileView>,
    i: int,
    records: Map<Seq<u8>, Block>,
    root: Seq<char>,
)
    requires
        0 <= i < files.len(),
        records.contains_key(files[i].id),
        records[files[i].id].depth != files[i].depth,
        !records[files[i].id].degraded(),
    ensures
        ({
            let id = files[i].id;
            let block = records[id];
            let present = seen_at(files, id, block.depth);
            let duplicate = file_finding(files[i], files, records);
            let adoptable = dangling(id, block, present, files, root);
            if present {
                (duplicate matches Some(f) && f.class is OffDepthFile) && adoptable is None
            } else {
                duplicate is None && (adoptable matches Some(f)
                    && f.class is AdoptableDanglingRecord)
            }
        }),
{
    lemma_elsewhere_some(files, files[i].id, records[files[i].id].depth, i);
}

/// The sweep asks for one file per record, in their order: the one at the record's own
/// path.
pub proof fn lemma_asked_paths(
    ids: Seq<Seq<u8>>,
    records: Map<Seq<u8>, Block>,
    root: Seq<char>,
    i: int,
)
    requires
        0 <= i < ids.len(),
    ensures
        own_paths_of(ids, records, root).len() == ids.len(),
        own_paths_of(ids, records, root)[i] == block_path(
            ids[i],
            records[ids[i]].depth as nat,
            root,
        ),
{
}

} // verus!
