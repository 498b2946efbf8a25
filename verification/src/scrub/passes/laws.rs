//! What the passes find, said of the records and files they look at.

use vstd::prelude::*;
use vstd::utf8::*;

use super::buckets::{reports_stranded, reports_tree, stranded};
use super::corruption::rotten;
use super::dangling::{
    dangling, dangling_all, depth_list, elsewhere, gone, lemma_radius_named, names_gone, radius_attached,
};
use super::disk_sweep::{file_finding, file_findings, swept};
use super::multipart::{
    age_text, bad_part, bytes_held, lists_uploads, orphan_findings, parts_held, reports_uploads,
    upload_findings, uploads_in, Triple,
};
use super::recount::{miscount, miscounts, recounted, unheld, unheld_all};
use crate::answers::{
    answers, answers_at, lemma_answers_grow, lemma_item_asked, lemma_items_apart,
    lemma_place_answered,
};
use crate::bytes::{ascending, bytes_lt, lemma_bytes_lt_irreflexive};
use crate::cas::multipart::decode_part;
use crate::hasher::{blake3_digest, Hasher};
use crate::metastore::block::{block_path, clamp_width, decode_block, Block};
use crate::metastore::errors::FsError;
use crate::metastore::meta_store::MetaStore;
use crate::metastore::traits::{listing, lookup, tree_of, Entries, Rows, Store, TransactionBackend};
use crate::metastore::upload_record::decode_upload;
use crate::scrub::disk::{FileView, WalkView};
use crate::scrub::findings::{
    storage_key_text, FindingClass, FindingView, HolderView, Severity,
};
use crate::scrub::holders::{holders_naming, HolderEntry, HolderEnumerationError, Undecodable};
use crate::scrub::id_map::{key_order, lists_keys};
use crate::scrub::records::{bad_record, bad_records, good_records};
use crate::scrub::trees::lemma_prefix;
use crate::scrub::ScrubContext;
use crate::text::{dec, dec_int, hex, lemma_hex_injective, text_lt};

verus! {

/// A block file is found intact exactly where it could be read and the leading
/// bytes of the digest of all it holds, 16 or 32 of them, are its name. Any other
/// is a CRITICAL finding that names block and path, however long the file is.
pub proof fn lemma_scrub_verdict(
    hasher: Hasher,
    file: FileView,
    content: Result<Seq<u8>, Seq<char>>,
)
    ensures
        hasher is Blake3W16 ==> (rotten(hasher, file, content) is None <==> (content matches Ok(
            bytes,
        ) && blake3_digest(bytes).subrange(0, 16) == file.id)),
        hasher is Blake3W32 ==> (rotten(hasher, file, content) is None <==> (content matches Ok(
            bytes,
        ) && blake3_digest(bytes).subrange(0, 32) == file.id)),
        rotten(hasher, file, content) matches Some(f) ==> {
            &&& f.class is CorruptBlock
            &&& f.severity is Critical
            &&& f.block == Some(hex(file.id))
            &&& f.path == Some(file.path)
            &&& f.holders.len() == 0
        },
        content matches Ok(bytes) ==> (rotten(hasher, file, content) matches Some(f)
            ==> f.evidence == dec(bytes.len()) + " bytes hash to "@ + hex(
            blake3_digest(bytes).subrange(
                0,
                if hasher is Blake3W16 {
                    16
                } else {
                    32
                },
            ),
        ) + ", but the file is filed under "@ + hex(file.id)),
        content matches Err(e) ==> (rotten(hasher, file, content) matches Some(f) && f.evidence
            == "could not be read, so it cannot be verified: "@ + e),
{
}

proof fn lemma_file_findings_answer(
    list: Seq<FileView>,
    files: Seq<FileView>,
    records: Map<Seq<u8>, Block>,
)
    ensures
        answers(
            file_findings(list, files, records),
            list.len() as int,
            |i: int| file_finding(list[i], files, records) is Some,
            |i: int, f: FindingView| file_finding(list[i], files, records) == Some(f),
        ),
{
    let n = list.len() as int;
    let asked = |i: int| file_finding(list[i], files, records) is Some;
    let fits = |i: int, f: FindingView| file_finding(list[i], files, records) == Some(f);
    let grown = |i: int| file_findings(list.subrange(0, i), files, records);
    assert forall|i: int| 0 <= i < n implies if asked(i) {
        &&& (#[trigger] grown(i + 1)) == grown(i).push(grown(i + 1).last())
        &&& fits(i, grown(i + 1).last())
    } else {
        grown(i + 1) == grown(i)
    } by {
        lemma_prefix(list, i);
    }
    assert(list.subrange(0, 0) =~= Seq::<FileView>::empty());
    lemma_answers_grow(grown, n, asked, fits);
    assert(list.subrange(0, n) =~= list);
}

/// Whether a block file is not what the records say of it: no record names its
/// block; or the record's own file is there too, at another depth; or it is the
/// record's own file, and has another size.
pub open spec fn is_off(
    file: FileView,
    files: Seq<FileView>,
    records: Map<Seq<u8>, Block>,
) -> bool {
    ||| !records.contains_key(file.id)
    ||| records[file.id].depth == file.depth && records[file.id].size != file.size
    ||| records[file.id].depth != file.depth && exists|j: int|
        0 <= j < files.len() && (#[trigger] files[j]).id == file.id && files[j].depth
            == records[file.id].depth
}

/// A disk sweep has one finding for each block file that is not what the records
/// say of it, in the order of the walk, and behind those one for each foreign
/// entry: and nothing else. A file without a record is an orphan; one at another
/// depth than the record's, where that file is there too, a duplicate; one at the
/// record's own depth, of any other size than the record's, damage.
pub proof fn lemma_sweep_reports(walk: WalkView, records: Map<Seq<u8>, Block>) -> (n: int)
    ensures
        0 <= n <= swept(walk, records).len(),
        answers(
            swept(walk, records).subrange(0, n),
            walk.files.len() as int,
            |i: int| is_off(walk.files[i], walk.files, records),
            |i: int, f: FindingView|
                {
                    let file = walk.files[i];
                    &&& f.block == Some(hex(file.id))
                    &&& f.path == Some(file.path)
                    &&& f.holders.len() == 0
                    &&& if !records.contains_key(file.id) {
                        f.class is OrphanFile && f.severity is Info
                    } else if records[file.id].depth != file.depth {
                        f.class is OffDepthFile && f.severity is Info
                    } else {
                        &&& f.class is SizeMismatch
                        &&& f.severity is Critical
                        &&& f.evidence == "file is "@ + dec(file.size as nat)
                            + " bytes, record says "@ + dec(records[file.id].size as nat)
                            + ": the block is not what the record describes"@
                    }
                },
        ),
        swept(walk, records).len() == n + walk.foreign.len(),
        forall|i: int|
            0 <= i < walk.foreign.len() ==> {
                let f = #[trigger] swept(walk, records)[n + i];
                &&& f.class is ForeignFile
                &&& f.severity is Warn
                &&& f.path == Some(walk.foreign[i].path)
                &&& f.evidence == walk.foreign[i].reason
                &&& f.block is None
            },
{
    let files = walk.files;
    let found = file_findings(files, files, records);
    let n = found.len() as int;
    let all = swept(walk, records);
    assert(all.subrange(0, n) =~= found);
    lemma_file_findings_answer(files, files, records);
    let asked = |i: int| file_finding(files[i], files, records) is Some;
    let fits = |i: int, f: FindingView| file_finding(files[i], files, records) == Some(f);
    let off = |i: int| is_off(walk.files[i], walk.files, records);
    let says = |i: int, f: FindingView|
        {
            let file = walk.files[i];
            &&& f.block == Some(hex(file.id))
            &&& f.path == Some(file.path)
            &&& f.holders.len() == 0
            &&& if !records.contains_key(file.id) {
                f.class is OrphanFile && f.severity is Info
            } else if records[file.id].depth != file.depth {
                f.class is OffDepthFile && f.severity is Info
            } else {
                &&& f.class is SizeMismatch
                &&& f.severity is Critical
                &&& f.evidence == "file is "@ + dec(file.size as nat) + " bytes, record says "@
                    + dec(records[file.id].size as nat)
                    + ": the block is not what the record describes"@
            }
        };
    let at = choose|at: Seq<int>| #[trigger] answers_at(found, files.len() as int, asked, fits, at);
    assert forall|k: int| 0 <= k < at.len() implies 0 <= (#[trigger] at[k]) < files.len() && off(
        at[k],
    ) && says(at[k], found[k]) by {
        assert(asked(at[k]) && fits(at[k], found[k]));
    }
    assert forall|i: int| 0 <= i < files.len() && #[trigger] off(i) implies at.contains(i) by {
        assert(asked(i));
    }
    assert(answers_at(all.subrange(0, n), files.len() as int, off, says, at));
    n
}

/// A block file at its record's own depth is reported as damaged exactly where its
/// size is another than the record's, longer or shorter: where it is, some finding
/// says so of that block and path; and a finding that says so of a block and path
/// is about such a file.
pub proof fn lemma_size_mismatch(walk: WalkView, records: Map<Seq<u8>, Block>)
    ensures
        forall|i: int|
            0 <= i < walk.files.len() && records.contains_key((#[trigger] walk.files[i]).id)
                && records[walk.files[i].id].depth == walk.files[i].depth
                && records[walk.files[i].id].size != walk.files[i].size ==> exists|k: int|
                {
                    &&& 0 <= k < swept(walk, records).len()
                    &&& (#[trigger] swept(walk, records)[k]).class is SizeMismatch
                    &&& swept(walk, records)[k].block == Some(hex(walk.files[i].id))
                    &&& swept(walk, records)[k].path == Some(walk.files[i].path)
                },
        forall|k: int|
            0 <= k < swept(walk, records).len() && (#[trigger] swept(walk, records)[k]).class
                is SizeMismatch ==> exists|i: int|
                {
                    &&& 0 <= i < walk.files.len()
                    &&& swept(walk, records)[k].block == Some(hex((#[trigger] walk.files[i]).id))
                    &&& swept(walk, records)[k].path == Some(walk.files[i].path)
                    &&& records.contains_key(walk.files[i].id)
                    &&& records[walk.files[i].id].depth == walk.files[i].depth
                    &&& records[walk.files[i].id].size != walk.files[i].size
                },
{
    assert forall|i: int|
        0 <= i < walk.files.len() && records.contains_key((#[trigger] walk.files[i]).id)
            && records[walk.files[i].id].depth == walk.files[i].depth
            && records[walk.files[i].id].size != walk.files[i].size implies exists|k: int|
        {
            &&& 0 <= k < swept(walk, records).len()
            &&& (#[trigger] swept(walk, records)[k]).class is SizeMismatch
            &&& swept(walk, records)[k].block == Some(hex(walk.files[i].id))
            &&& swept(walk, records)[k].path == Some(walk.files[i].path)
        } by {
        let k = lemma_file_reported(walk, records, i);
        assert(swept(walk, records)[k].class is SizeMismatch);
    }
    assert forall|k: int|
        0 <= k < swept(walk, records).len() && (#[trigger] swept(walk, records)[k]).class
            is SizeMismatch implies exists|i: int|
        {
            &&& 0 <= i < walk.files.len()
            &&& swept(walk, records)[k].block == Some(hex((#[trigger] walk.files[i]).id))
            &&& swept(walk, records)[k].path == Some(walk.files[i].path)
            &&& records.contains_key(walk.files[i].id)
            &&& records[walk.files[i].id].depth == walk.files[i].depth
            &&& records[walk.files[i].id].size != walk.files[i].size
        } by {
        let i = lemma_finding_of_file(walk, records, k);
        assert(swept(walk, records)[k].block == Some(hex(walk.files[i].id)));
    }
}

proof fn lemma_file_reported(walk: WalkView, records: Map<Seq<u8>, Block>, i: int) -> (k: int)
    requires
        0 <= i < walk.files.len(),
        file_finding(walk.files[i], walk.files, records) is Some,
    ensures
        0 <= k < swept(walk, records).len(),
        file_finding(walk.files[i], walk.files, records) == Some(swept(walk, records)[k]),
{
    let files = walk.files;
    lemma_file_findings_answer(files, files, records);
    let k = lemma_place_answered(
        file_findings(files, files, records),
        files.len() as int,
        |i: int| file_finding(files[i], files, records) is Some,
        |i: int, f: FindingView| file_finding(files[i], files, records) == Some(f),
        i,
    );
    assert(swept(walk, records)[k] == file_findings(files, files, records)[k]);
    k
}

proof fn lemma_finding_of_file(walk: WalkView, records: Map<Seq<u8>, Block>, k: int) -> (i: int)
    requires
        0 <= k < swept(walk, records).len(),
        !(swept(walk, records)[k].class is ForeignFile),
    ensures
        0 <= i < walk.files.len(),
        file_finding(walk.files[i], walk.files, records) == Some(swept(walk, records)[k]),
{
    let files = walk.files;
    let found = file_findings(files, files, records);
    if k >= found.len() {
        let f = walk.foreign[k - found.len()];
        assert(swept(walk, records)[k] == f.finding());
    }
    lemma_file_findings_answer(files, files, records);
    let i = lemma_item_asked(
        found,
        files.len() as int,
        |i: int| file_finding(files[i], files, records) is Some,
        |i: int, f: FindingView| file_finding(files[i], files, records) == Some(f),
        k,
    );
    assert(swept(walk, records)[k] == found[k]);
    i
}

proof fn lemma_miscounts_answer(
    ids: Seq<Seq<u8>>,
    expected: Map<Seq<u8>, u64>,
    records: Map<Seq<u8>, Block>,
)
    ensures
        answers(
            miscounts(ids, expected, records),
            ids.len() as int,
            |i: int| miscount(ids[i], expected[ids[i]], records) is Some,
            |i: int, y: FindingView| miscount(ids[i], expected[ids[i]], records) == Some(y),
        ),
{
    let n = ids.len() as int;
    let asked = |i: int| miscount(ids[i], expected[ids[i]], records) is Some;
    let fits = |i: int, y: FindingView| miscount(ids[i], expected[ids[i]], records) == Some(y);
    let grown = |i: int| miscounts(ids.subrange(0, i), expected, records);
    assert forall|i: int| 0 <= i < n implies if asked(i) {
        &&& (#[trigger] grown(i + 1)) == grown(i).push(grown(i + 1).last())
        &&& fits(i, grown(i + 1).last())
    } else {
        grown(i + 1) == grown(i)
    } by {
        lemma_prefix(ids, i);
    }
    assert(ids.subrange(0, 0) =~= Seq::<Seq<u8>>::empty());
    lemma_answers_grow(grown, n, asked, fits);
    assert(ids.subrange(0, n) =~= ids);
}

proof fn lemma_unheld_answer(
    ids: Seq<Seq<u8>>,
    expected: Map<Seq<u8>, u64>,
    records: Map<Seq<u8>, Block>,
)
    ensures
        answers(
            unheld_all(ids, expected, records),
            ids.len() as int,
            |i: int| unheld(ids[i], records[ids[i]], expected) is Some,
            |i: int, y: FindingView| unheld(ids[i], records[ids[i]], expected) == Some(y),
        ),
{
    let n = ids.len() as int;
    let asked = |i: int| unheld(ids[i], records[ids[i]], expected) is Some;
    let fits = |i: int, y: FindingView| unheld(ids[i], records[ids[i]], expected) == Some(y);
    let grown = |i: int| unheld_all(ids.subrange(0, i), expected, records);
    assert forall|i: int| 0 <= i < n implies if asked(i) {
        &&& (#[trigger] grown(i + 1)) == grown(i).push(grown(i + 1).last())
        &&& fits(i, grown(i + 1).last())
    } else {
        grown(i + 1) == grown(i)
    } by {
        lemma_prefix(ids, i);
    }
    assert(ids.subrange(0, 0) =~= Seq::<Seq<u8>>::empty());
    lemma_answers_grow(grown, n, asked, fits);
    assert(ids.subrange(0, n) =~= ids);
}

/// Whether some finding of a class is about a block.
pub open spec fn has_finding(list: Seq<FindingView>, class: FindingClass, id: Seq<u8>) -> bool {
    exists|k: int|
        0 <= k < list.len() && (#[trigger] list[k]).class == class && list[k].block == Some(hex(id))
}

/// The block that a recount's finding is about, and which of the two comparisons
/// it comes from.
proof fn lemma_recount_source(expected: Map<Seq<u8>, u64>, records: Map<Seq<u8>, Block>, k: int) -> (
    id: Seq<u8>)
    requires
        lists_keys(key_order(expected), expected),
        lists_keys(key_order(records), records),
        0 <= k < recounted(expected, records).len(),
    ensures
        ({
            let f = recounted(expected, records)[k];
            if k < miscounts(key_order(expected), expected, records).len() {
                expected.contains_key(id) && miscount(id, expected[id], records) == Some(f)
            } else {
                records.contains_key(id) && unheld(id, records[id], expected) == Some(f)
            }
        }),
{
    let (a, b) = (key_order(expected), key_order(records));
    let first = miscounts(a, expected, records);
    let second = unheld_all(b, expected, records);
    if k < first.len() {
        lemma_miscounts_answer(a, expected, records);
        let i = lemma_item_asked(
            first,
            a.len() as int,
            |i: int| miscount(a[i], expected[a[i]], records) is Some,
            |i: int, y: FindingView| miscount(a[i], expected[a[i]], records) == Some(y),
            k,
        );
        assert(a.contains(a[i]));
        assert(recounted(expected, records)[k] == first[k]);
        a[i]
    } else {
        lemma_unheld_answer(b, expected, records);
        let i = lemma_item_asked(
            second,
            b.len() as int,
            |i: int| unheld(b[i], records[b[i]], expected) is Some,
            |i: int, y: FindingView| unheld(b[i], records[b[i]], expected) == Some(y),
            k - first.len(),
        );
        assert(b.contains(b[i]));
        assert(recounted(expected, records)[k] == second[k - first.len()]);
        b[i]
    }
}

proof fn lemma_recount_held(expected: Map<Seq<u8>, u64>, records: Map<Seq<u8>, Block>, id: Seq<u8>)
    -> (k: int)
    requires
        lists_keys(key_order(expected), expected),
        expected.contains_key(id),
        miscount(id, expected[id], records) is Some,
    ensures
        0 <= k < recounted(expected, records).len(),
        miscount(id, expected[id], records) == Some(recounted(expected, records)[k]),
{
    let a = key_order(expected);
    assert(a.contains(id));
    let i = choose|i: int| 0 <= i < a.len() && a[i] == id;
    lemma_miscounts_answer(a, expected, records);
    let k = lemma_place_answered(
        miscounts(a, expected, records),
        a.len() as int,
        |i: int| miscount(a[i], expected[a[i]], records) is Some,
        |i: int, y: FindingView| miscount(a[i], expected[a[i]], records) == Some(y),
        i,
    );
    assert(recounted(expected, records)[k] == miscounts(a, expected, records)[k]);
    k
}

proof fn lemma_recount_unheld(
    expected: Map<Seq<u8>, u64>,
    records: Map<Seq<u8>, Block>,
    id: Seq<u8>,
) -> (k: int)
    requires
        lists_keys(key_order(records), records),
        records.contains_key(id),
        unheld(id, records[id], expected) is Some,
    ensures
        0 <= k < recounted(expected, records).len(),
        unheld(id, records[id], expected) == Some(recounted(expected, records)[k]),
{
    let b = key_order(records);
    let first = miscounts(key_order(expected), expected, records);
    assert(b.contains(id));
    let i = choose|i: int| 0 <= i < b.len() && b[i] == id;
    lemma_unheld_answer(b, expected, records);
    let k = lemma_place_answered(
        unheld_all(b, expected, records),
        b.len() as int,
        |i: int| unheld(b[i], records[b[i]], expected) is Some,
        |i: int, y: FindingView| unheld(b[i], records[b[i]], expected) == Some(y),
        i,
    );
    assert(recounted(expected, records)[first.len() + k] == unheld_all(b, expected, records)[k]);
    first.len() + k
}

/// A recount reports a block exactly where its record does not count what the
/// holders reference. A block that is referenced and has no record is reported as
/// missing one; one whose record counts more than is referenced, or that nothing
/// references, as counted too high; one whose record counts less, as counted too
/// low. No record and too low are CRITICAL, too high is not.
pub proof fn lemma_recount_reports(expected: Map<Seq<u8>, u64>, records: Map<Seq<u8>, Block>)
    requires
        lists_keys(key_order(expected), expected),
        lists_keys(key_order(records), records),
    ensures
        forall|id: Seq<u8>| #[trigger]
            has_finding(
                recounted(expected, records),
                FindingClass::MissingBlockRecord,
                id,
            ) <==> expected.contains_key(id) && !records.contains_key(id),
        forall|id: Seq<u8>| #[trigger]
            has_finding(
                recounted(expected, records),
                FindingClass::RefcountUnderCount,
                id,
            ) <==> expected.contains_key(id) && records.contains_key(id) && records[id].rc
                < expected[id],
        forall|id: Seq<u8>| #[trigger]
            has_finding(
                recounted(expected, records),
                FindingClass::RefcountOverCount,
                id,
            ) <==> records.contains_key(id) && (expected.contains_key(id) ==> records[id].rc
                > expected[id]),
        forall|k: int|
            0 <= k < recounted(expected, records).len() ==> {
                let f = #[trigger] recounted(expected, records)[k];
                &&& f.path is None
                &&& f.holders.len() == 0
                &&& f.severity == (if f.class is RefcountOverCount {
                    Severity::Info
                } else {
                    Severity::Critical
                })
                &&& f.class is RefcountOverCount || f.class is RefcountUnderCount || f.class
                    is MissingBlockRecord
            },
{
    let found = recounted(expected, records);
    assert forall|id: Seq<u8>| #[trigger] has_finding(
        found,
        FindingClass::MissingBlockRecord,
        id,
    ) <==> expected.contains_key(id) && !records.contains_key(id) by {
        if has_finding(found, FindingClass::MissingBlockRecord, id) {
            let k = choose|k: int|
                0 <= k < found.len() && (#[trigger] found[k]).class
                    == FindingClass::MissingBlockRecord && found[k].block == Some(hex(id));
            let of = lemma_recount_source(expected, records, k);
            lemma_hex_injective(of, id);
        }
        if expected.contains_key(id) && !records.contains_key(id) {
            let k = lemma_recount_held(expected, records, id);
            assert(found[k].class is MissingBlockRecord);
        }
    }
    assert forall|id: Seq<u8>| #[trigger] has_finding(
        found,
        FindingClass::RefcountUnderCount,
        id,
    ) <==> expected.contains_key(id) && records.contains_key(id) && records[id].rc
        < expected[id] by {
        if has_finding(found, FindingClass::RefcountUnderCount, id) {
            let k = choose|k: int|
                0 <= k < found.len() && (#[trigger] found[k]).class
                    == FindingClass::RefcountUnderCount && found[k].block == Some(hex(id));
            let of = lemma_recount_source(expected, records, k);
            lemma_hex_injective(of, id);
        }
        if expected.contains_key(id) && records.contains_key(id) && records[id].rc < expected[id] {
            let k = lemma_recount_held(expected, records, id);
            assert(found[k].class is RefcountUnderCount);
        }
    }
    assert forall|id: Seq<u8>| #[trigger] has_finding(
        found,
        FindingClass::RefcountOverCount,
        id,
    ) <==> records.contains_key(id) && (expected.contains_key(id) ==> records[id].rc
        > expected[id]) by {
        if has_finding(found, FindingClass::RefcountOverCount, id) {
            let k = choose|k: int|
                0 <= k < found.len() && (#[trigger] found[k]).class
                    == FindingClass::RefcountOverCount && found[k].block == Some(hex(id));
            let of = lemma_recount_source(expected, records, k);
            lemma_hex_injective(of, id);
        }
        if records.contains_key(id) && (expected.contains_key(id) ==> records[id].rc
            > expected[id]) {
            if expected.contains_key(id) {
                let k = lemma_recount_held(expected, records, id);
                assert(found[k].class is RefcountOverCount);
            } else {
                let k = lemma_recount_unheld(expected, records, id);
                assert(found[k].class is RefcountOverCount);
            }
        }
    }
    assert forall|k: int| 0 <= k < found.len() implies ({
        let f = #[trigger] found[k];
        &&& f.path is None
        &&& f.holders.len() == 0
        &&& f.severity == (if f.class is RefcountOverCount {
            Severity::Info
        } else {
            Severity::Critical
        })
        &&& f.class is RefcountOverCount || f.class is RefcountUnderCount || f.class
            is MissingBlockRecord
    }) by {
        let of = lemma_recount_source(expected, records, k);
    }
}

/// A recount has one finding for a block at most, and its text gives the two
/// counts that it compared.
pub proof fn lemma_recount_once(
    expected: Map<Seq<u8>, u64>,
    records: Map<Seq<u8>, Block>,
    k: int,
    l: int,
)
    requires
        lists_keys(key_order(expected), expected),
        lists_keys(key_order(records), records),
        0 <= k < l < recounted(expected, records).len(),
    ensures
        recounted(expected, records)[k].block != recounted(expected, records)[l].block,
        exists|id: Seq<u8>|
            {
                let f = recounted(expected, records)[k];
                &&& f.block == Some(#[trigger] hex(id))
                &&& f.class is MissingBlockRecord ==> f.evidence == dec(expected[id] as nat)
                    + " holder reference(s), but no block record"@
                &&& f.class is RefcountUnderCount ==> f.evidence == "record rc "@ + dec(
                    records[id].rc as nat,
                ) + ", holders "@ + dec(expected[id] as nat) + ": "@ + dec(
                    (expected[id] - records[id].rc) as nat,
                )
                    + " reference(s) unaccounted, so the block can be freed while they still point at it"@
                &&& f.class is RefcountOverCount && expected.contains_key(id) ==> f.evidence
                    == "record rc "@ + dec(records[id].rc as nat) + ", holders "@ + dec(
                    expected[id] as nat,
                ) + ": "@ + dec((records[id].rc - expected[id]) as nat) + " reference(s) leaked"@
            },
{
    let (a, b) = (key_order(expected), key_order(records));
    let first = miscounts(a, expected, records);
    let second = unheld_all(b, expected, records);
    let found = recounted(expected, records);
    let x = lemma_recount_source(expected, records, k);
    let y = lemma_recount_source(expected, records, l);
    assert(found[k].block == Some(hex(x)));
    if hex(x) == hex(y) {
        lemma_hex_injective(x, y);
        if l < first.len() {
            lemma_miscounts_answer(a, expected, records);
            let (i, j) = lemma_items_apart(
                first,
                a.len() as int,
                |i: int| miscount(a[i], expected[a[i]], records) is Some,
                |i: int, y: FindingView| miscount(a[i], expected[a[i]], records) == Some(y),
                k,
                l,
            );
            assert(found[k] == first[k] && found[l] == first[l]);
            lemma_ascending_apart(a, i, j);
            assert(found[k].block == Some(hex(a[i])));
            assert(found[l].block == Some(hex(a[j])));
            lemma_hex_injective(a[i], x);
            lemma_hex_injective(a[j], x);
        } else if k >= first.len() {
            lemma_unheld_answer(b, expected, records);
            let (i, j) = lemma_items_apart(
                second,
                b.len() as int,
                |i: int| unheld(b[i], records[b[i]], expected) is Some,
                |i: int, y: FindingView| unheld(b[i], records[b[i]], expected) == Some(y),
                k - first.len(),
                l - first.len(),
            );
            assert(found[k] == second[k - first.len()] && found[l] == second[l - first.len()]);
            lemma_ascending_apart(b, i, j);
            assert(found[k].block == Some(hex(b[i])));
            assert(found[l].block == Some(hex(b[j])));
            lemma_hex_injective(b[i], x);
            lemma_hex_injective(b[j], x);
        }
    }
}

proof fn lemma_ascending_apart(keys: Seq<Seq<u8>>, i: int, j: int)
    requires
        ascending(keys),
        0 <= i < j < keys.len(),
    ensures
        keys[i] != keys[j],
{
    assert(bytes_lt(keys[i], keys[j]));
    lemma_bytes_lt_irreflexive(keys[i]);
}

/// The dangling sweep has one finding for each record that is flagged degraded or
/// whose file is not there, and none for any other. A flagged record is known
/// damage; one whose block was seen at another depth can adopt that copy; any other
/// has lost its bytes, which is CRITICAL.
pub proof fn lemma_dangling_reports(
    ids: Seq<Seq<u8>>,
    records: Map<Seq<u8>, Block>,
    present: Seq<bool>,
    files: Seq<FileView>,
    root: Seq<char>,
)
    ensures
        answers(
            dangling_all(ids, records, present, files, root),
            ids.len() as int,
            |i: int| records[ids[i]].degraded() || !(i < present.len() && present[i]),
            |i: int, y: FindingView| {
                &&& y.block == Some(hex(ids[i]))
                &&& y.path == Some(block_path(ids[i], records[ids[i]].depth as nat, root))
                &&& y.holders.len() == 0
                &&& if records[ids[i]].degraded() {
                    y.class is DegradedRecord && y.severity is Info
                } else if exists|j: int|
                    0 <= j < files.len() && (#[trigger] files[j]).id == ids[i] && files[j].depth
                        != records[ids[i]].depth {
                    y.class is AdoptableDanglingRecord && y.severity is Info
                } else {
                    y.class is DanglingRecord && y.severity is Critical
                }
            },
        ),
{
    let n = ids.len() as int;
    let asked = |i: int| records[ids[i]].degraded() || !(i < present.len() && present[i]);
    let fits = |i: int, y: FindingView| {
                &&& y.block == Some(hex(ids[i]))
                &&& y.path == Some(block_path(ids[i], records[ids[i]].depth as nat, root))
                &&& y.holders.len() == 0
                &&& if records[ids[i]].degraded() {
                    y.class is DegradedRecord && y.severity is Info
                } else if exists|j: int|
                    0 <= j < files.len() && (#[trigger] files[j]).id == ids[i] && files[j].depth
                        != records[ids[i]].depth {
                    y.class is AdoptableDanglingRecord && y.severity is Info
                } else {
                    y.class is DanglingRecord && y.severity is Critical
                }
            };
    let grown = |i: int| dangling_all(ids.subrange(0, i), records, present, files, root);
    assert forall|i: int| 0 <= i < n implies if asked(i) {
        &&& (#[trigger] grown(i + 1)) == grown(i).push(grown(i + 1).last())
        &&& fits(i, grown(i + 1).last())
    } else {
        grown(i + 1) == grown(i)
    } by {
        lemma_prefix(ids, i);
        lemma_copies(files, ids[i], records[ids[i]].depth);
    }
    assert(ids.subrange(0, 0) =~= Seq::<Seq<u8>>::empty());
    lemma_answers_grow(grown, n, asked, fits);
    assert(ids.subrange(0, n) =~= ids);
}

/// The blocks whose bytes are gone are those of the records that are not flagged,
/// whose file is not there and whose block was seen nowhere else.
pub proof fn lemma_gone(
    ids: Seq<Seq<u8>>,
    records: Map<Seq<u8>, Block>,
    present: Seq<bool>,
    files: Seq<FileView>,
)
    ensures
        answers(
            gone(ids, records, present, files),
            ids.len() as int,
            |i: int| !records[ids[i]].degraded() && !(i < present.len() && present[i]) && !(exists|j: int|
                0 <= j < files.len() && (#[trigger] files[j]).id == ids[i] && files[j].depth
                    != records[ids[i]].depth),
            |i: int, y: Seq<u8>| y == ids[i],
        ),
{
    let n = ids.len() as int;
    let asked = |i: int| !records[ids[i]].degraded() && !(i < present.len() && present[i]) && !(exists|j: int|
                0 <= j < files.len() && (#[trigger] files[j]).id == ids[i] && files[j].depth
                    != records[ids[i]].depth);
    let fits = |i: int, y: Seq<u8>| y == ids[i];
    let grown = |i: int| gone(ids.subrange(0, i), records, present, files);
    assert forall|i: int| 0 <= i < n implies if asked(i) {
        &&& (#[trigger] grown(i + 1)) == grown(i).push(grown(i + 1).last())
        &&& fits(i, grown(i + 1).last())
    } else {
        grown(i + 1) == grown(i)
    } by {
        lemma_prefix(ids, i);
        lemma_copies(files, ids[i], records[ids[i]].depth);
    }
    assert(ids.subrange(0, 0) =~= Seq::<Seq<u8>>::empty());
    lemma_answers_grow(grown, n, asked, fits);
    assert(ids.subrange(0, n) =~= ids);
}

/// The holders of a block are those whose records list it, each once, in the order
/// of the walk.
pub proof fn lemma_holders_named(
    holders: Seq<HolderEntry>,
    id: Seq<u8>,
)
    ensures
        answers(
            holders_naming(holders, id),
            holders.len() as int,
            |i: int| holders[i].blocks.contains(id),
            |i: int, y: HolderView| y == holders[i].holder,
        ),
{
    let n = holders.len() as int;
    let asked = |i: int| holders[i].blocks.contains(id);
    let fits = |i: int, y: HolderView| y == holders[i].holder;
    let grown = |i: int| holders_naming(holders.subrange(0, i), id);
    assert forall|i: int| 0 <= i < n implies if asked(i) {
        &&& (#[trigger] grown(i + 1)) == grown(i).push(grown(i + 1).last())
        &&& fits(i, grown(i + 1).last())
    } else {
        grown(i + 1) == grown(i)
    } by {
        lemma_prefix(holders, i);
    }
    assert(holders.subrange(0, 0) =~= Seq::<HolderEntry>::empty());
    lemma_answers_grow(grown, n, asked, fits);
    assert(holders.subrange(0, n) =~= holders);
}

/// What the dangling sweep says of each record stays as it is when holders are
/// filled in: as many findings, of the same classes, blocks and paths. Where the
/// holders could be enumerated, the finding on a lost block names those that list
/// it, and no other finding names any.
pub proof fn lemma_radius_reports<N: Store, B: Store>(
    ctx: ScrubContext<'_, N, B>,
    blocks: Seq<Seq<u8>>,
    before: Seq<FindingView>,
    after: Seq<FindingView>,
    holders: Seq<HolderEntry>,
    k: int,
)
    requires
        radius_attached(ctx, blocks, before, after),
        0 <= k < before.len(),
        before[k].holders.len() == 0,
    ensures
        after.len() == before.len(),
        after[k].class == before[k].class,
        after[k].severity == before[k].severity,
        after[k].block == before[k].block,
        after[k].path == before[k].path,
        !(before[k].class is DanglingRecord) ==> after[k] == before[k],
        ctx.healthy() && ctx.holders() == Ok::<Seq<HolderEntry>, Undecodable>(holders) ==> {
            &&& after[k].evidence == before[k].evidence
            &&& forall|id: Seq<u8>|
                before[k].class is DanglingRecord && before[k].block == Some(#[trigger] hex(id))
                    && blocks.contains(id) ==> after[k].holders == holders_naming(holders, id)
        },
{
    assert forall|id: Seq<u8>|
        ctx.healthy() && ctx.holders() == Ok::<Seq<HolderEntry>, Undecodable>(holders)
            && before[k].class is DanglingRecord && before[k].block == Some(#[trigger] hex(id))
            && blocks.contains(id) implies after[k].holders == holders_naming(holders, id) by {
        assert(names_gone(before[k], id));
        lemma_radius_named(before[k], id, blocks, holders);
    }
    assert forall|id: Seq<u8>| names_gone(before[k], id) implies before[k].class
        is DanglingRecord by {}
}

/// There is a depth elsewhere exactly where there is a file elsewhere.
proof fn lemma_copies(files: Seq<FileView>, id: Seq<u8>, depth: u8)
    ensures
        elsewhere(files, id, depth).len() > 0 <==> exists|j: int|
            0 <= j < files.len() && (#[trigger] files[j]).id == id && files[j].depth != depth,
    decreases files.len(),
{
    if files.len() > 0 {
        let init = files.drop_last();
        lemma_copies(init, id, depth);
        assert(files.last() == files[files.len() - 1]);
        if elsewhere(init, id, depth).len() > 0 {
            let j = choose|j: int|
                0 <= j < init.len() && (#[trigger] init[j]).id == id && init[j].depth != depth;
            assert(files[j] == init[j]);
        }
        if exists|j: int|
            0 <= j < files.len() && (#[trigger] files[j]).id == id && files[j].depth != depth {
            let j = choose|j: int|
                0 <= j < files.len() && (#[trigger] files[j]).id == id && files[j].depth != depth;
            if j < init.len() {
                assert(init[j] == files[j]);
            }
        }
    }
}

/// The record walk has a CRITICAL finding for each entry whose key is no address or
/// whose value is no block record, once, in key order; and for no other.
pub proof fn lemma_bad_records_reports(
    rows: Seq<(Seq<u8>, Seq<u8>)>,
)
    ensures
        answers(
            bad_records(rows),
            rows.len() as int,
            |i: int| !(rows[i].0.len() == 16 || rows[i].0.len() == 32) || decode_block(rows[i].1) is Err,
            |i: int, y: FindingView| {
                &&& y.class is UndecodableBlockRecord
                &&& y.severity is Critical
                &&& y.path is None
                &&& y.holders.len() == 0
                &&& y.block == (if rows[i].0.len() == 16 || rows[i].0.len() == 32 {
                    Some(hex(rows[i].0))
                } else {
                    None
                })
            },
        ),
{
    let n = rows.len() as int;
    let asked = |i: int| !(rows[i].0.len() == 16 || rows[i].0.len() == 32) || decode_block(rows[i].1) is Err;
    let fits = |i: int, y: FindingView| {
                &&& y.class is UndecodableBlockRecord
                &&& y.severity is Critical
                &&& y.path is None
                &&& y.holders.len() == 0
                &&& y.block == (if rows[i].0.len() == 16 || rows[i].0.len() == 32 {
                    Some(hex(rows[i].0))
                } else {
                    None
                })
            };
    let grown = |i: int| bad_records(rows.subrange(0, i));
    assert forall|i: int| 0 <= i < n implies if asked(i) {
        &&& (#[trigger] grown(i + 1)) == grown(i).push(grown(i + 1).last())
        &&& fits(i, grown(i + 1).last())
    } else {
        grown(i + 1) == grown(i)
    } by {
        lemma_prefix(rows, i);
    }
    assert(rows.subrange(0, 0) =~= Seq::<(Seq<u8>, Seq<u8>)>::empty());
    lemma_answers_grow(grown, n, asked, fits);
    assert(rows.subrange(0, n) =~= rows);
}

/// The record walk keeps every entry whose key is an address and whose value is a
/// block record, as that record; and no other.
pub proof fn lemma_records_kept(entries: Entries, key: Seq<u8>, block: Block)
    ensures
        good_records(entries).contains_key(key) && good_records(entries)[key] == block <==> {
            &&& entries.contains_key(key)
            &&& key.len() == 16 || key.len() == 32
            &&& decode_block(entries[key]) == Ok::<Block, FsError>(block)
        },
{
}

/// A part record is reported as an orphan exactly where no upload exists by its
/// bucket, key and upload id; each once, under the key it is filed under.
pub proof fn lemma_orphan_parts_reports(
    rows: Seq<(Seq<u8>, Seq<u8>)>,
    uploads: Map<Triple, int>,
)
    ensures
        answers(
            orphan_findings(rows, uploads),
            rows.len() as int,
            |i: int| (decode_part(rows[i].1) matches Ok(part) && !uploads.contains_key(
                (part.bucket, part.key, part.upload_id),
            )),
            |i: int, y: FindingView| (decode_part(rows[i].1) matches Ok(part) && y.class
                is OrphanPart && y.severity is Info && y.block is None && y.path == Some(
                storage_key_text(rows[i].0),
            ) && y.holders.len() == 0 && y.evidence == "part "@ + dec_int(part.part_number)
                + " of upload "@ + part.upload_id + " ("@ + part.bucket + "/"@ + part.key + "): "@
                + dec(part.size)
                + " byte(s) held by a part record whose upload record does not exist, so nothing can complete or abort it. The daemon's GC reaps these on its next sweep; --repair reaps this one"@),
        ),
{
    let n = rows.len() as int;
    let asked = |i: int| (decode_part(rows[i].1) matches Ok(part) && !uploads.contains_key(
                (part.bucket, part.key, part.upload_id),
            ));
    let fits = |i: int, y: FindingView| (decode_part(rows[i].1) matches Ok(part) && y.class
                is OrphanPart && y.severity is Info && y.block is None && y.path == Some(
                storage_key_text(rows[i].0),
            ) && y.holders.len() == 0 && y.evidence == "part "@ + dec_int(part.part_number)
                + " of upload "@ + part.upload_id + " ("@ + part.bucket + "/"@ + part.key + "): "@
                + dec(part.size)
                + " byte(s) held by a part record whose upload record does not exist, so nothing can complete or abort it. The daemon's GC reaps these on its next sweep; --repair reaps this one"@);
    let grown = |i: int| orphan_findings(rows.subrange(0, i), uploads);
    assert forall|i: int| 0 <= i < n implies if asked(i) {
        &&& (#[trigger] grown(i + 1)) == grown(i).push(grown(i + 1).last())
        &&& fits(i, grown(i + 1).last())
    } else {
        grown(i + 1) == grown(i)
    } by {
        lemma_prefix(rows, i);
    }
    assert(rows.subrange(0, 0) =~= Seq::<(Seq<u8>, Seq<u8>)>::empty());
    lemma_answers_grow(grown, n, asked, fits);
    assert(rows.subrange(0, n) =~= rows);
}

/// An upload record makes its upload exist, by bucket, key and upload id, as of the
/// time that the record gives, and takes no other away; without records there are
/// none. A record that does not decode refuses them all, the first one does.
pub proof fn lemma_upload_exists(rows: Seq<(Seq<u8>, Seq<u8>)>, row: (Seq<u8>, Seq<u8>))
    ensures
        uploads_in(Seq::empty()) == Ok::<Map<Triple, int>, Undecodable>(Map::empty()),
        uploads_in(rows) matches Ok(found) ==> match decode_upload(row.1) {
            Ok(u) => uploads_in(rows.push(row)) == Ok::<Map<Triple, int>, Undecodable>(
                found.insert((u.bucket, u.key, u.upload_id), u.created_at),
            ),
            Err(damage) => uploads_in(rows.push(row)) == Err::<Map<Triple, int>, Undecodable>(
                Undecodable { tree: "_UPLOADS"@, key: row.0, damage },
            ),
        },
        uploads_in(rows) is Err ==> uploads_in(rows.push(row)) == uploads_in(rows),
        bad_part(Seq::empty()) is None,
        bad_part(rows) is Some ==> bad_part(rows.push(row)) == bad_part(rows),
        bad_part(rows) is None ==> match decode_part(row.1) {
            Ok(_) => bad_part(rows.push(row)) is None,
            Err(damage) => bad_part(rows.push(row)) == Some(
                Undecodable { tree: "_MULTIPART_PARTS"@, key: row.0, damage },
            ),
        },
{
    assert(rows.push(row).drop_last() =~= rows);
}

/// A part record adds itself and its bytes to the upload it names, by bucket, key
/// and upload id, and nothing to any other; a row that does not decode adds
/// nothing.
pub proof fn lemma_part_tallied(
    rows: Seq<(Seq<u8>, Seq<u8>)>,
    row: (Seq<u8>, Seq<u8>),
    triple: Triple,
)
    ensures
        parts_held(Seq::empty(), triple) == 0,
        bytes_held(Seq::empty(), triple) == 0,
        decode_part(row.1) matches Ok(p) ==> {
            let own = (p.bucket, p.key, p.upload_id) == triple;
            &&& parts_held(rows.push(row), triple) == parts_held(rows, triple) + if own {
                1nat
            } else {
                0nat
            }
            &&& bytes_held(rows.push(row), triple) == bytes_held(rows, triple) + if own {
                p.size
            } else {
                0nat
            }
        },
        decode_part(row.1) is Err ==> parts_held(rows.push(row), triple) == parts_held(rows, triple)
            && bytes_held(rows.push(row), triple) == bytes_held(rows, triple),
{
    assert(rows.push(row).drop_last() =~= rows);
}

/// A report on uploads has one INFO finding for each upload that exists, in the
/// order of bucket, key and upload id, which gives its age, its parts and their
/// bytes; and behind those the orphan parts.
pub proof fn lemma_uploads_reported(
    uploads: Map<Triple, int>,
    parts: Seq<(Seq<u8>, Seq<u8>)>,
    now: int,
    found: Seq<FindingView>,
) -> (order: Seq<Triple>)
    requires
        reports_uploads(uploads, parts, now, found),
    ensures
        forall|t: Triple| #[trigger] order.contains(t) <==> uploads.contains_key(t),
        forall|i: int, j: int|
            0 <= i < j < order.len() ==> {
                let (a, b) = (#[trigger] order[i], #[trigger] order[j]);
                ||| text_lt(a.0, b.0)
                ||| a.0 == b.0 && text_lt(a.1, b.1)
                ||| a.0 == b.0 && a.1 == b.1 && text_lt(a.2, b.2)
            },
        found.len() == order.len() + orphan_findings(parts, uploads).len(),
        forall|i: int|
            0 <= i < order.len() ==> {
                let f = #[trigger] found[i];
                let t = order[i];
                let age = now - uploads[t];
                &&& f.class is MultipartUpload
                &&& f.severity is Info
                &&& f.block is None
                &&& f.path is None
                &&& parts_held(parts, t) <= u64::MAX && bytes_held(parts, t) <= u64::MAX && i64::MIN
                    <= age <= i64::MAX ==> f.evidence == "upload "@ + t.2 + " of "@ + t.0 + "/"@
                    + t.1 + ": started "@ + age_text(age) + " ago, "@ + dec(parts_held(parts, t))
                    + " part(s), "@ + dec(bytes_held(parts, t)) + " byte(s) held"@
            },
        forall|i: int|
            0 <= i < orphan_findings(parts, uploads).len() ==> found[order.len() + i]
                == #[trigger] orphan_findings(parts, uploads)[i],
{
    choose|order: Seq<Triple>| #[trigger]
        lists_uploads(order, uploads) && found == upload_findings(order, uploads, parts, now)
            + orphan_findings(parts, uploads)
}

/// On a store that answers the report on uploads is refused over damage alone: an
/// upload record or a part record does not decode.
pub proof fn lemma_upload_refusal<N: Store, B: Store>(
    ctx: ScrubContext<'_, N, B>,
    e: HolderEnumerationError,
) -> (key: Seq<u8>)
    requires
        ctx.shared.meta.store.healthy(),
        ctx.upload_report_refused(e),
        ctx.uploads_listed(),
    ensures
        ({
            let rows = ctx.shared.meta.store.committed();
            ||| lookup(rows, "_UPLOADS"@, key) matches Some(raw) && decode_upload(raw) is Err
            ||| lookup(rows, "_MULTIPART_PARTS"@, key) matches Some(raw) && decode_part(raw) is Err
        }),
{
    let rows = ctx.shared.meta.store.committed();
    let list = listing(tree_of(rows, "_UPLOADS"@));
    if uploads_in(list) is Err {
        let i = lemma_uploads_refused(list);
        assert(tree_of(rows, "_UPLOADS"@).contains_key(list[i].0));
        list[i].0
    } else {
        let parts = listing(tree_of(rows, "_MULTIPART_PARTS"@));
        let i = lemma_parts_refused(parts);
        assert(tree_of(rows, "_MULTIPART_PARTS"@).contains_key(parts[i].0));
        parts[i].0
    }
}

proof fn lemma_uploads_refused(rows: Seq<(Seq<u8>, Seq<u8>)>) -> (i: int)
    requires
        uploads_in(rows) is Err,
    ensures
        0 <= i < rows.len(),
        decode_upload(rows[i].1) is Err,
    decreases rows.len(),
{
    if uploads_in(rows.drop_last()) is Err {
        lemma_uploads_refused(rows.drop_last())
    } else {
        rows.len() - 1
    }
}

proof fn lemma_parts_refused(rows: Seq<(Seq<u8>, Seq<u8>)>) -> (i: int)
    requires
        bad_part(rows) is Some,
    ensures
        0 <= i < rows.len(),
        decode_part(rows[i].1) is Err,
    decreases rows.len(),
{
    if bad_part(rows.drop_last()) is Some {
        lemma_parts_refused(rows.drop_last())
    } else {
        rows.len() - 1
    }
}

/// An object tree is stranded exactly where it exists, its name is not one of the
/// store's own, and no bucket row is filed under its name.
pub proof fn lemma_stranded(names: Set<Seq<char>>, rows: Rows, name: Seq<char>)
    ensures
        stranded(names, rows).contains(name) <==> {
            &&& names.contains(name)
            &&& !(name.len() > 0 && name[0] == '_')
            &&& !rows.contains_key(("_BUCKETS"@, encode_utf8(name)))
        },
{
}

/// The bucket pass has one WARN finding for each stranded tree, in the order of the
/// names, which gives the number of its objects where the store counts them.
pub proof fn lemma_stranded_reported<S: Store>(
    namespace: MetaStore<S>,
    trees: Seq<Seq<char>>,
    found: Seq<FindingView>,
    i: int,
)
    requires
        reports_stranded(namespace, trees, found),
        0 <= i < trees.len(),
    ensures
        found.len() == trees.len(),
        found[i].class is HalfDeletedBucket,
        found[i].severity is Warn,
        found[i].block is None,
        found[i].path is None,
        namespace.store.healthy() ==> found[i].evidence == "object tree "@ + trees[i]
            + " has no _BUCKETS row: a bucket teardown that did not finish. It still holds "@ + dec(
            tree_of(namespace.store.committed(), trees[i]).dom().len(),
        ) + " object record(s), and their block references are still counted"@,
{
    assert(reports_tree(namespace, trees[i], found[i]));
}

/// An age is given in whole days from a day on, else in whole hours from an hour on,
/// else in whole minutes from a minute on, else in seconds; a time that is still to
/// come the same way behind a minus.
pub proof fn lemma_age_units(seconds: nat)
    requires
        seconds <= i64::MAX,
    ensures
        seconds < 60 ==> age_text(seconds as int) == dec(seconds) + " second(s)"@,
        60 <= seconds < 3600 ==> age_text(seconds as int) == dec(seconds / 60) + " minute(s)"@,
        3600 <= seconds < 86400 ==> age_text(seconds as int) == dec(seconds / 3600)
            + " hour(s)"@,
        86400 <= seconds ==> age_text(seconds as int) == dec(seconds / 86400) + " day(s)"@,
        seconds > 0 ==> age_text(-seconds) == "-"@ + age_text(seconds as int),
{
    assert(Seq::<char>::empty() + age_text(seconds as int) =~= age_text(seconds as int));
    let rest = if seconds >= 86400 {
        dec(seconds / 86400) + " day(s)"@
    } else if seconds >= 3600 {
        dec(seconds / 3600) + " hour(s)"@
    } else if seconds >= 60 {
        dec(seconds / 60) + " minute(s)"@
    } else {
        dec(seconds) + " second(s)"@
    };
    assert(Seq::<char>::empty() + rest =~= rest);
}

/// What a finding on a file, on a record without holders, on a record without a file
/// and on an entry that is no record says of it: the numbers are those of the file,
/// the record and the entry.
pub proof fn lemma_evidence(
    file: FileView,
    files: Seq<FileView>,
    records: Map<Seq<u8>, Block>,
    expected: Map<Seq<u8>, u64>,
    id: Seq<u8>,
    b: Block,
    present: bool,
    root: Seq<char>,
    entry: (Seq<u8>, Seq<u8>),
)
    ensures
        file_finding(file, files, records) matches Some(f) ==> {
            &&& f.class is OrphanFile ==> f.evidence == dec(file.size as nat) + " bytes at depth "@
                + dec(file.depth as nat) + ", no record"@
            &&& f.class is OffDepthFile ==> f.evidence == "file at depth "@ + dec(file.depth as nat)
                + ", but the record names depth "@ + dec(records[file.id].depth as nat)
                + " and its file is there: unreferenced duplicate"@
        },
        unheld(id, b, expected) matches Some(f) ==> f.evidence == "record rc "@ + dec(b.rc as nat)
            + ", holders 0: nothing references this block"@,
        dangling(id, b, present, files, root) matches Some(f) ==> {
            &&& f.class is DegradedRecord ==> f.evidence == "record flagged degraded, rc "@ + dec(
                b.rc as nat,
            ) + " (holders still accounted for); "@ + (if present {
                "a file is present at that path, so the next PUT of this content will heal it"@
            } else {
                "no file, as expected of a degraded record"@
            })
            &&& f.class is AdoptableDanglingRecord ==> f.evidence == "no file at depth "@ + dec(
                b.depth as nat,
            ) + ", but the id is on disk at depth "@ + depth_list(elsewhere(files, id, b.depth))
                + ": adoptable once the file is re-hashed"@
            &&& f.class is DanglingRecord ==> ("no file at depth "@ + dec(
                b.depth as nat,
            )).is_prefix_of(f.evidence)
        },
        bad_record(entry) matches Some(f) ==> match decode_block(entry.1) {
            Err(e) if entry.0.len() == 16 || entry.0.len() == 32 => f.evidence
                == "block record does not decode: "@ + e.text(),
            _ => f.evidence == "block key "@ + hex(entry.0) + " is not an address of this store: "@
                + FsError::InvalidIdWidth(clamp_width(entry.0.len())).text(),
        },
{
}

/// Depths are listed in order, joined by commas.
pub proof fn lemma_depths_listed(depths: Seq<u8>, last: u8)
    ensures
        depth_list(Seq::empty()) == Seq::<char>::empty(),
        depth_list(seq![last]) == dec(last as nat),
        depths.len() > 0 ==> depth_list(depths.push(last)) == depth_list(depths) + ", "@ + dec(
            last as nat,
        ),
{
    assert(depths.push(last).drop_last() =~= depths);
}

} // verus!
