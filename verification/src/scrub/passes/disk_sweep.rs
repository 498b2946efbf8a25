//! What is on disk that the records do not account for.

use vstd::prelude::*;
use vstd::string::*;

use crate::metastore::block::{Block, BlockId};
use crate::scrub::disk::{BlockFile, DiskWalk, FileView, ForeignView, WalkView};
use crate::scrub::findings::{add_finding, finding_views, Finding, FindingClass, FindingView};
use crate::scrub::records::RecordWalk;
use crate::scrub::trees::lemma_prefix;
use crate::text::{dec, put_dec, put_len_dec};

verus! {

/// Whether the walk saw the file of a block at a depth.
pub open spec fn seen_at(files: Seq<FileView>, id: Seq<u8>, depth: u8) -> bool {
    exists|i: int| 0 <= i < files.len() && (#[trigger] files[i]).id == id && files[i].depth == depth
}

/// What is wrong with a block file, if anything is.
///
/// A copy at another depth than its record names is a duplicate only if the
/// record's own file is there; otherwise it is the copy that the record can
/// adopt, and is reported as that.
pub open spec fn file_finding(
    file: FileView,
    files: Seq<FileView>,
    records: Map<Seq<u8>, Block>,
) -> Option<FindingView> {
    if !records.contains_key(file.id) {
        Some(
            FindingView::new(
                FindingClass::OrphanFile,
                dec(file.size as nat) + " bytes at depth "@ + dec(file.depth as nat)
                    + ", no record"@,
            ).with_block(file.id).with_path(file.path),
        )
    } else {
        let block = records[file.id];
        if block.depth != file.depth {
            if seen_at(files, file.id, block.depth) {
                Some(
                    FindingView::new(
                        FindingClass::OffDepthFile,
                        "file at depth "@ + dec(file.depth as nat)
                            + ", but the record names depth "@ + dec(block.depth as nat)
                            + " and its file is there: unreferenced duplicate"@,
                    ).with_block(file.id).with_path(file.path),
                )
            } else {
                None
            }
        } else if block.size != file.size {
            Some(
                FindingView::new(
                    FindingClass::SizeMismatch,
                    "file is "@ + dec(file.size as nat) + " bytes, record says "@ + dec(
                        block.size as nat,
                    ) + ": the block is not what the record describes"@,
                ).with_block(file.id).with_path(file.path),
            )
        } else {
            None
        }
    }
}

/// What is wrong with block files, in order.
pub open spec fn file_findings(
    list: Seq<FileView>,
    files: Seq<FileView>,
    records: Map<Seq<u8>, Block>,
) -> Seq<FindingView>
    decreases list.len(),
{
    if list.len() == 0 {
        Seq::empty()
    } else {
        let init = file_findings(list.drop_last(), files, records);
        match file_finding(list.last(), files, records) {
            Some(finding) => init.push(finding),
            None => init,
        }
    }
}

/// What a disk sweep finds: the block files that are not accounted for, then
/// everything foreign.
pub open spec fn swept(walk: WalkView, records: Map<Seq<u8>, Block>) -> Seq<FindingView> {
    file_findings(walk.files, walk.files, records) + walk.foreign.map_values(
        |f: ForeignView| f.finding(),
    )
}

/// Whether the walk saw the file of a block at a depth.
pub fn sees(disk: &DiskWalk, id: &BlockId, depth: u8) -> (yes: bool)
    ensures
        yes == seen_at(disk@.files, id@, depth),
{
    let mut i: usize = 0;
    while i < disk.files.len()
        invariant
            i <= disk.files@.len(),
            forall|j: int|
                0 <= j < i ==> !((#[trigger] disk@.files[j]).id == id@ && disk@.files[j].depth
                    == depth),
        decreases disk.files@.len() - i,
    {
        proof {
            assert(disk@.files[i as int] == disk.files@[i as int]@);
        }
        if disk.files[i].depth == depth && disk.files[i].id.same(id) {
            return true;
        }
        i = i + 1;
    }
    false
}

/// What is wrong with a block file, if anything is.
fn check_file(file: &BlockFile, disk: &DiskWalk, records: &RecordWalk) -> (out: Option<Finding>)
    ensures
        match out {
            Some(finding) => file_finding(file@, disk@.files, records.records@) == Some(finding@),
            None => file_finding(file@, disk@.files, records.records@) is None,
        },
{
    match records.records.get(&file.id) {
        None => {
            let mut text = String::new();
            put_dec(&mut text, file.size);
            text.append(" bytes at depth ");
            put_dec(&mut text, file.depth as u64);
            text.append(", no record");
            proof {
                assert(text@ =~= dec(file.size as nat) + " bytes at depth "@ + dec(
                    file.depth as nat,
                ) + ", no record"@);
            }
            Some(
                Finding::new(FindingClass::OrphanFile, text).with_block(&file.id).with_path(
                    &file.path,
                ),
            )
        },
        Some(block) => {
            if block.depth() != file.depth {
                if !sees(disk, &file.id, block.depth()) {
                    return None;
                }
                let mut text = "file at depth ".to_owned();
                put_dec(&mut text, file.depth as u64);
                text.append(", but the record names depth ");
                put_dec(&mut text, block.depth() as u64);
                text.append(" and its file is there: unreferenced duplicate");
                Some(
                    Finding::new(FindingClass::OffDepthFile, text).with_block(&file.id).with_path(
                        &file.path,
                    ),
                )
            } else if block.size() as u64 != file.size {
                let mut text = "file is ".to_owned();
                put_dec(&mut text, file.size);
                text.append(" bytes, record says ");
                put_len_dec(&mut text, block.size());
                text.append(": the block is not what the record describes");
                Some(
                    Finding::new(FindingClass::SizeMismatch, text).with_block(&file.id).with_path(
                        &file.path,
                    ),
                )
            } else {
                None
            }
        },
    }
}

/// Compares the files on disk with the records that should name them.
///
/// The size check applies only to the file at the record's own depth, which is
/// the one reads resolve to.
pub fn disk_sweep(disk: &DiskWalk, records: &RecordWalk) -> (findings: Vec<Finding>)
    ensures
        finding_views(findings@) == swept(disk@, records.records@),
{
    let ghost files = disk@.files;
    let ghost blocks = records.records@;
    let mut findings: Vec<Finding> = Vec::new();
    let mut i: usize = 0;
    proof {
        assert(files.subrange(0, 0) =~= Seq::<FileView>::empty());
        assert(finding_views(findings@) =~= Seq::<FindingView>::empty());
    }
    while i < disk.files.len()
        invariant
            i <= disk.files@.len(),
            files == disk@.files,
            blocks == records.records@,
            finding_views(findings@) == file_findings(files.subrange(0, i as int), files, blocks),
        decreases disk.files@.len() - i,
    {
        proof {
            lemma_prefix(files, i as int);
            assert(files[i as int] == disk.files@[i as int]@);
        }
        match check_file(&disk.files[i], disk, records) {
            Some(finding) => {
                add_finding(&mut findings, finding);
            },
            None => {},
        }
        i = i + 1;
    }
    let ghost first = finding_views(findings@);
    let ghost others = disk@.foreign.map_values(|f: ForeignView| f.finding());
    let mut j: usize = 0;
    proof {
        assert(files.subrange(0, files.len() as int) =~= files);
        assert(first + others.subrange(0, 0) =~= first);
    }
    while j < disk.foreign.len()
        invariant
            j <= disk.foreign@.len(),
            others == disk@.foreign.map_values(|f: ForeignView| f.finding()),
            finding_views(findings@) == first + others.subrange(0, j as int),
        decreases disk.foreign@.len() - j,
    {
        let finding = disk.foreign[j].to_finding();
        add_finding(&mut findings, finding);
        proof {
            assert(disk@.foreign[j as int] == disk.foreign@[j as int]@);
            assert(others[j as int] == finding@);
            assert((first + others.subrange(0, j as int)).push(finding@) =~= first
                + others.subrange(0, j + 1));
        }
        j = j + 1;
    }
    proof {
        assert(others.subrange(0, others.len() as int) =~= others);
    }
    findings
}

} // verus!
