//! The in-flight multipart uploads, and the age rendering they need.

use vstd::prelude::*;
use vstd::string::*;

use crate::cas::multipart::{decode_part, MultiPart, PartView};
use crate::clock::unix_now;
use crate::metastore::errors::FsError;
use crate::metastore::meta_store::{MULTIPART_PARTS_TREE, UPLOADS_TREE};
use crate::metastore::traits::{
    is_listed, listing, pairs, tree_of, KeyValuePairs, Store, TransactionBackend,
};
use crate::metastore::upload_record::{decode_upload, UploadRecord, UploadView};
use crate::scrub::findings::{
    add_finding, add_findings, finding_views, storage_key_text, Finding, FindingClass, FindingView,
};
use crate::scrub::holders::{counted, HolderEnumerationError, Undecodable};
use crate::scrub::report::order::{lemma_text_total, lemma_text_transitive};
use crate::scrub::trees::{lemma_prefix, tree_rows};
use crate::scrub::ScrubContext;
use crate::text::{dec, dec_int, equal_text, put_dec, put_dec_int, put_len_dec, text_below, text_lt};

verus! {

/// What a part record and an upload record both name, and the only thing that
/// joins them: bucket, key and upload id.
pub type Triple = (Seq<char>, Seq<char>, Seq<char>);

/// The order of triples: by bucket, then key, then upload id.
pub open spec fn triple_lt(a: Triple, b: Triple) -> bool {
    if a.0 != b.0 {
        text_lt(a.0, b.0)
    } else if a.1 != b.1 {
        text_lt(a.1, b.1)
    } else {
        text_lt(a.2, b.2)
    }
}

proof fn lemma_triple_total(a: Triple, b: Triple)
    ensures
        triple_lt(a, b) || triple_lt(b, a) || a == b,
        !(triple_lt(a, b) && triple_lt(b, a)),
        !triple_lt(a, a),
{
    lemma_text_total(a.0, b.0);
    lemma_text_total(a.1, b.1);
    lemma_text_total(a.2, b.2);
    lemma_text_total(b.2, a.2);
    lemma_text_total(a.2, a.2);
}

proof fn lemma_triple_transitive(a: Triple, b: Triple, c: Triple)
    requires
        triple_lt(a, b),
        triple_lt(b, c),
    ensures
        triple_lt(a, c),
{
    lemma_text_total(a.0, b.0);
    lemma_text_total(b.0, c.0);
    if a.0 != b.0 && b.0 != c.0 {
        lemma_text_transitive(a.0, b.0, c.0);
        lemma_text_total(a.0, c.0);
    } else if a.0 == b.0 && b.0 == c.0 {
        lemma_text_total(a.1, b.1);
        lemma_text_total(b.1, c.1);
        if a.1 != b.1 && b.1 != c.1 {
            lemma_text_transitive(a.1, b.1, c.1);
            lemma_text_total(a.1, c.1);
        } else if a.1 == b.1 && b.1 == c.1 {
            lemma_text_transitive(a.2, b.2, c.2);
        }
    }
}

/// What an upload record names.
pub open spec fn upload_triple(u: UploadView) -> Triple {
    (u.bucket, u.key, u.upload_id)
}

/// What a part record names.
pub open spec fn part_triple(p: PartView) -> Triple {
    (p.bucket, p.key, p.upload_id)
}

/// The uploads that exist and when each was started, or the first record that
/// does not decode. Of two records of one upload the later row counts.
pub open spec fn uploads_in(rows: Seq<(Seq<u8>, Seq<u8>)>) -> Result<Map<Triple, int>, Undecodable>
    decreases rows.len(),
{
    if rows.len() == 0 {
        Ok(Map::empty())
    } else {
        match uploads_in(rows.drop_last()) {
            Err(why) => Err(why),
            Ok(found) => match decode_upload(rows.last().1) {
                Err(damage) => Err(Undecodable { tree: UPLOADS_TREE@, key: rows.last().0, damage }),
                Ok(u) => Ok(found.insert(upload_triple(u), u.created_at)),
            },
        }
    }
}

/// The first part record that does not decode, if there is one.
pub open spec fn bad_part(rows: Seq<(Seq<u8>, Seq<u8>)>) -> Option<Undecodable>
    decreases rows.len(),
{
    if rows.len() == 0 {
        None
    } else {
        match bad_part(rows.drop_last()) {
            Some(why) => Some(why),
            None => match decode_part(rows.last().1) {
                Err(damage) => Some(
                    Undecodable { tree: MULTIPART_PARTS_TREE@, key: rows.last().0, damage },
                ),
                Ok(_) => None,
            },
        }
    }
}

/// How many parts of an upload there are.
pub open spec fn parts_held(rows: Seq<(Seq<u8>, Seq<u8>)>, triple: Triple) -> nat
    decreases rows.len(),
{
    if rows.len() == 0 {
        0
    } else {
        let init = parts_held(rows.drop_last(), triple);
        match decode_part(rows.last().1) {
            Ok(part) => if part_triple(part) == triple {
                init + 1
            } else {
                init
            },
            Err(_) => init,
        }
    }
}

/// How many bytes the parts of an upload hold.
pub open spec fn bytes_held(rows: Seq<(Seq<u8>, Seq<u8>)>, triple: Triple) -> nat
    decreases rows.len(),
{
    if rows.len() == 0 {
        0
    } else {
        let init = bytes_held(rows.drop_last(), triple);
        match decode_part(rows.last().1) {
            Ok(part) => if part_triple(part) == triple {
                init + part.size
            } else {
                init
            },
            Err(_) => init,
        }
    }
}

/// The finding on a part record whose upload record does not exist.
pub open spec fn orphan_finding(key: Seq<u8>, part: PartView) -> FindingView {
    FindingView::new(
        FindingClass::OrphanPart,
        "part "@ + dec_int(part.part_number) + " of upload "@ + part.upload_id + " ("@ + part.bucket
            + "/"@ + part.key + "): "@ + dec(part.size)
            + " byte(s) held by a part record whose upload record does not exist, so nothing can complete or abort it. The daemon's GC reaps these on its next sweep; --repair reaps this one"@,
    ).with_path(storage_key_text(key))
}

/// The findings on part records whose upload record does not exist, in key
/// order.
pub open spec fn orphan_findings(
    rows: Seq<(Seq<u8>, Seq<u8>)>,
    uploads: Map<Triple, int>,
) -> Seq<FindingView>
    decreases rows.len(),
{
    if rows.len() == 0 {
        Seq::empty()
    } else {
        let init = orphan_findings(rows.drop_last(), uploads);
        match decode_part(rows.last().1) {
            Ok(part) => if uploads.contains_key(part_triple(part)) {
                init
            } else {
                init.push(orphan_finding(rows.last().0, part))
            },
            Err(_) => init,
        }
    }
}

/// A number of seconds as a machine holds it.
pub open spec fn clamped_seconds(n: int) -> int {
    if n < i64::MIN {
        i64::MIN as int
    } else if n > i64::MAX {
        i64::MAX as int
    } else {
        n
    }
}

/// An age in seconds, for a person: days above a day, hours above an hour,
/// minutes above a minute, seconds below that. A negative age is shown as such.
pub open spec fn age_text(seconds: int) -> Seq<char> {
    let magnitude = (if seconds >= 0 {
        seconds
    } else if seconds == i64::MIN {
        i64::MAX as int
    } else {
        -seconds
    }) as nat;
    (if seconds < 0 {
        "-"@
    } else {
        Seq::empty()
    }) + (if magnitude >= 86_400 {
        dec(magnitude / 86_400) + " day(s)"@
    } else if magnitude >= 3_600 {
        dec(magnitude / 3_600) + " hour(s)"@
    } else if magnitude >= 60 {
        dec(magnitude / 60) + " minute(s)"@
    } else {
        dec(magnitude) + " second(s)"@
    })
}

/// The finding on an upload, which holds so many parts and bytes.
pub open spec fn upload_finding(
    triple: Triple,
    created_at: int,
    parts: u64,
    bytes: u64,
    now: int,
) -> FindingView {
    FindingView::new(
        FindingClass::MultipartUpload,
        "upload "@ + triple.2 + " of "@ + triple.0 + "/"@ + triple.1 + ": started "@ + age_text(
            clamped_seconds(now - created_at),
        ) + " ago, "@ + dec(parts as nat) + " part(s), "@ + dec(bytes as nat) + " byte(s) held"@,
    )
}

/// Whether triples ascend and are those of the uploads.
pub open spec fn lists_uploads(order: Seq<Triple>, uploads: Map<Triple, int>) -> bool {
    &&& forall|i: int, j: int|
        0 <= i < j < order.len() ==> triple_lt(#[trigger] order[i], #[trigger] order[j])
    &&& forall|triple: Triple| #[trigger] order.contains(triple) <==> uploads.contains_key(triple)
}

/// The findings on uploads, in the given order.
pub open spec fn upload_findings(
    order: Seq<Triple>,
    uploads: Map<Triple, int>,
    parts: Seq<(Seq<u8>, Seq<u8>)>,
    now: int,
) -> Seq<FindingView> {
    order.map_values(
        |triple: Triple|
            upload_finding(
                triple,
                uploads[triple],
                counted(parts_held(parts, triple)),
                counted(bytes_held(parts, triple)),
                now,
            ),
    )
}

/// Whether findings report the uploads in the order of their triples, and then
/// the part records that no upload owns.
pub open spec fn reports_uploads(
    uploads: Map<Triple, int>,
    parts: Seq<(Seq<u8>, Seq<u8>)>,
    now: int,
    findings: Seq<FindingView>,
) -> bool {
    exists|order: Seq<Triple>| #[trigger]
        lists_uploads(order, uploads) && findings == upload_findings(order, uploads, parts, now)
            + orphan_findings(parts, uploads)
}

/// An upload that exists, and what its parts hold.
#[derive(Debug)]
pub struct Upload {
    /// Bucket the upload targets.
    pub bucket: String,
    /// Key the upload targets.
    pub key: String,
    /// The upload's id.
    pub upload_id: String,
    /// When it was started, in seconds since the epoch.
    pub created_at: i64,
    /// How many parts it has.
    pub parts: u64,
    /// How many bytes they hold.
    pub bytes: u64,
}

impl Upload {
    /// What the upload's records name.
    pub open spec fn triple(self) -> Triple {
        (self.bucket@, self.key@, self.upload_id@)
    }
}

/// What uploads name.
pub open spec fn triples(list: Seq<Upload>) -> Seq<Triple> {
    list.map_values(|u: Upload| u.triple())
}

/// Whether a list holds the uploads that exist, in the order of their triples.
pub open spec fn holds_uploads(list: Seq<Upload>, uploads: Map<Triple, int>) -> bool {
    &&& lists_uploads(triples(list), uploads)
    &&& forall|i: int|
        0 <= i < list.len() ==> uploads[(#[trigger] list[i]).triple()] == list[i].created_at
}

/// Whether no parts were counted yet.
pub open spec fn untallied(list: Seq<Upload>) -> bool {
    forall|i: int| 0 <= i < list.len() ==> (#[trigger] list[i]).parts == 0 && list[i].bytes == 0
}

/// Whether `a` stands before `b`: the order of triples.
fn triple_below(a: (&str, &str, &str), b: (&str, &str, &str)) -> (below: bool)
    ensures
        below == triple_lt((a.0@, a.1@, a.2@), (b.0@, b.1@, b.2@)),
{
    if !equal_text(a.0, b.0) {
        return text_below(a.0, b.0);
    }
    if !equal_text(a.1, b.1) {
        return text_below(a.1, b.1);
    }
    text_below(a.2, b.2)
}

/// The place of an upload in a list, or where it would stand.
fn upload_place(list: &Vec<Upload>, bucket: &str, key: &str, upload_id: &str) -> (at: usize)
    requires
        forall|i: int, j: int|
            0 <= i < j < list@.len() ==> triple_lt(
                #[trigger] triples(list@)[i],
                #[trigger] triples(list@)[j],
            ),
    ensures
        at <= list@.len(),
        forall|i: int|
            0 <= i < at ==> triple_lt(#[trigger] triples(list@)[i], (bucket@, key@, upload_id@)),
        forall|i: int|
            at <= i < list@.len() ==> !triple_lt(
                #[trigger] triples(list@)[i],
                (bucket@, key@, upload_id@),
            ),
{
    let ghost all = triples(list@);
    let ghost triple = (bucket@, key@, upload_id@);
    let mut low: usize = 0;
    let mut high: usize = list.len();
    while low < high
        invariant
            low <= high <= list@.len(),
            all == triples(list@),
            triple == (bucket@, key@, upload_id@),
            forall|i: int, j: int|
                0 <= i < j < list@.len() ==> triple_lt(#[trigger] all[i], #[trigger] all[j]),
            forall|i: int| 0 <= i < low ==> triple_lt(#[trigger] all[i], triple),
            forall|i: int| high <= i < list@.len() ==> !triple_lt(#[trigger] all[i], triple),
        decreases high - low,
    {
        let mid: usize = low + (high - low) / 2;
        let u = &list[mid];
        let ghost here = all[mid as int];
        if triple_below((&u.bucket, &u.key, &u.upload_id), (bucket, key, upload_id)) {
            proof {
                assert forall|i: int| 0 <= i < mid + 1 implies triple_lt(
                    #[trigger] all[i],
                    triple,
                ) by {
                    if i < mid {
                        lemma_triple_transitive(all[i], here, triple);
                    }
                }
            }
            low = mid + 1;
        } else {
            proof {
                assert forall|i: int| mid <= i < list@.len() implies !triple_lt(
                    #[trigger] all[i],
                    triple,
                ) by {
                    if i > mid && triple_lt(all[i], triple) {
                        lemma_triple_transitive(here, all[i], triple);
                    }
                }
            }
            high = mid;
        }
    }
    low
}

/// The index of an upload in a list.
pub fn find_upload(list: &Vec<Upload>, bucket: &str, key: &str, upload_id: &str) -> (at: Option<
    usize,
>)
    requires
        forall|i: int, j: int|
            0 <= i < j < list@.len() ==> triple_lt(
                #[trigger] triples(list@)[i],
                #[trigger] triples(list@)[j],
            ),
    ensures
        match at {
            Some(at) => at < list@.len() && list@[at as int].triple() == (
                bucket@,
                key@,
                upload_id@,
            ),
            None => !triples(list@).contains((bucket@, key@, upload_id@)),
        },
{
    let at: usize = upload_place(list, bucket, key, upload_id);
    if at < list.len() {
        let u = &list[at];
        if equal_text(&u.bucket, bucket) && equal_text(&u.key, key) && equal_text(
            &u.upload_id,
            upload_id,
        ) {
            return Some(at);
        }
    }
    proof {
        let all = triples(list@);
        let triple = (bucket@, key@, upload_id@);
        assert forall|i: int| 0 <= i < all.len() implies #[trigger] all[i] != triple by {
            lemma_triple_total(all[i], triple);
            if i > at {
                assert(triple_lt(all[at as int], all[i]));
            }
        }
    }
    None
}

/// Notes an upload that exists. Of two records of one upload the later counts.
fn note_upload(list: &mut Vec<Upload>, record: UploadRecord, Ghost(uploads): Ghost<
    Map<Triple, int>,
>)
    requires
        holds_uploads(old(list)@, uploads),
        untallied(old(list)@),
    ensures
        holds_uploads(
            final(list)@,
            uploads.insert(upload_triple(record@), record.created_at as int),
        ),
        untallied(final(list)@),
{
    let ghost before = list@;
    let ghost all = triples(list@);
    let ghost triple = upload_triple(record@);
    let ghost want = uploads.insert(triple, record.created_at as int);
    let at: usize = upload_place(list, &record.bucket, &record.key, &record.upload_id);
    let found = find_upload(list, &record.bucket, &record.key, &record.upload_id);
    let created_at: i64 = record.created_at;
    let upload = Upload {
        bucket: record.bucket,
        key: record.key,
        upload_id: record.upload_id,
        created_at,
        parts: 0,
        bytes: 0,
    };
    match found {
        Some(i) => {
            list.set(i, upload);
            proof {
                assert(triples(list@) =~= all);
                assert(all.contains(all[i as int]));
                assert forall|t: Triple| #[trigger] all.contains(t) <==> want.contains_key(t) by {}
                assert forall|j: int| 0 <= j < list@.len() implies want[(
                #[trigger] list@[j]).triple()] == list@[j].created_at by {
                    if j != i {
                        assert(list@[j] == before[j]);
                        assert(all[j] == before[j].triple());
                        assert(all[i as int] == triple);
                        lemma_triple_total(all[i as int], all[i as int]);
                        if j < i {
                            assert(triple_lt(all[j], all[i as int]));
                        } else {
                            assert(triple_lt(all[i as int], all[j]));
                        }
                    }
                }
            }
        },
        None => {
            proof {
                assert forall|i: int| at <= i < all.len() implies triple_lt(
                    triple,
                    #[trigger] all[i],
                ) by {
                    lemma_triple_total(all[i], triple);
                    assert(all.contains(all[i]));
                }
            }
            list.insert(at, upload);
            proof {
                let after = triples(list@);
                assert(after =~= all.insert(at as int, triple));
                assert forall|i: int, j: int| 0 <= i < j < after.len() implies triple_lt(
                    #[trigger] after[i],
                    #[trigger] after[j],
                ) by {
                    let bi = if i < at { i } else { i - 1 };
                    let bj = if j < at { j } else { j - 1 };
                    if i != at && j != at {
                        assert(triple_lt(all[bi], all[bj]));
                    } else if i == at {
                        assert(triple_lt(triple, all[bj]));
                    } else {
                        assert(triple_lt(all[bi], triple));
                    }
                }
                assert forall|t: Triple| #[trigger] after.contains(t) <==> want.contains_key(t) by {
                    if all.contains(t) {
                        let b = choose|b: int| 0 <= b < all.len() && all[b] == t;
                        let i = if b < at { b } else { b + 1 };
                        assert(after[i] == t);
                    }
                    if t == triple {
                        assert(after[at as int] == t);
                    }
                    if after.contains(t) {
                        let i = choose|i: int| 0 <= i < after.len() && after[i] == t;
                        if i < at {
                            assert(all[i] == t);
                        } else if i > at {
                            assert(all[i - 1] == t);
                        }
                    }
                }
                assert forall|j: int| 0 <= j < list@.len() implies want[(
                #[trigger] list@[j]).triple()] == list@[j].created_at by {
                    if j != at {
                        let b = if j < at { j } else { j - 1 };
                        assert(list@[j] == before[b]);
                        assert(all[b] == before[b].triple());
                        assert(all.contains(all[b]));
                    }
                }
            }
        },
    }
}

proof fn lemma_uploads_stop(rows: Seq<(Seq<u8>, Seq<u8>)>, n: int)
    requires
        0 <= n <= rows.len(),
        uploads_in(rows.subrange(0, n)) is Err,
    ensures
        uploads_in(rows) == uploads_in(rows.subrange(0, n)),
    decreases rows.len() - n,
{
    if n == rows.len() {
        assert(rows.subrange(0, n) =~= rows);
    } else {
        lemma_prefix(rows, n);
        lemma_uploads_stop(rows, n + 1);
    }
}

proof fn lemma_bad_part_stop(rows: Seq<(Seq<u8>, Seq<u8>)>, n: int)
    requires
        0 <= n <= rows.len(),
        bad_part(rows.subrange(0, n)) is Some,
    ensures
        bad_part(rows) == bad_part(rows.subrange(0, n)),
    decreases rows.len() - n,
{
    if n == rows.len() {
        assert(rows.subrange(0, n) =~= rows);
    } else {
        lemma_prefix(rows, n);
        lemma_bad_part_stop(rows, n + 1);
    }
}

/// Reads the upload records: the uploads that exist, in the order of their
/// triples. Both records name their triple in their value, and keys are never
/// parsed.
pub fn read_uploads(rows: &KeyValuePairs) -> (out: Result<Vec<Upload>, (usize, FsError)>)
    ensures
        match out {
            Ok(list) => uploads_in(pairs(rows@)) matches Ok(uploads) && holds_uploads(
                list@,
                uploads,
            ) && untallied(list@),
            Err((i, damage)) => i < rows@.len() && uploads_in(pairs(rows@)) == Err::<
                Map<Triple, int>,
                Undecodable,
            >(Undecodable { tree: UPLOADS_TREE@, key: rows@[i as int].0@, damage }),
        },
{
    let ghost all = pairs(rows@);
    let mut list: Vec<Upload> = Vec::new();
    let mut i: usize = 0;
    proof {
        assert(all.subrange(0, 0) =~= Seq::<(Seq<u8>, Seq<u8>)>::empty());
        assert(triples(list@) =~= Seq::<Triple>::empty());
        assert(holds_uploads(list@, Map::empty()));
    }
    while i < rows.len()
        invariant
            i <= rows@.len(),
            all == pairs(rows@),
            uploads_in(all.subrange(0, i as int)) is Ok,
            holds_uploads(list@, uploads_in(all.subrange(0, i as int))->Ok_0),
            untallied(list@),
        decreases rows@.len() - i,
    {
        proof {
            lemma_prefix(all, i as int);
            assert(all[i as int] == (rows@[i as int].0@, rows@[i as int].1@));
        }
        match UploadRecord::try_from(&rows[i].1) {
            Err(damage) => {
                proof {
                    lemma_uploads_stop(all, i + 1);
                }
                return Err((i, damage));
            },
            Ok(record) => {
                let ghost uploads = uploads_in(all.subrange(0, i as int))->Ok_0;
                note_upload(&mut list, record, Ghost(uploads));
            },
        }
        i = i + 1;
    }
    proof {
        assert(all.subrange(0, all.len() as int) =~= all);
    }
    Ok(list)
}

/// Whether the parts among some rows are counted at the uploads that own them.
pub open spec fn tallied(list: Seq<Upload>, rows: Seq<(Seq<u8>, Seq<u8>)>) -> bool {
    forall|i: int|
        0 <= i < list.len() ==> (#[trigger] list[i]).parts == counted(
            parts_held(rows, list[i].triple()),
        ) && list[i].bytes == counted(bytes_held(rows, list[i].triple()))
}

/// Adds to a count, as far as a machine can hold it.
fn add_counted(a: u64, b: u64) -> (sum: u64)
    ensures
        sum == counted((a + b) as nat),
{
    if a <= u64::MAX - b {
        a + b
    } else {
        u64::MAX
    }
}

/// Counts a part at the upload that owns it.
fn tally(list: &mut Vec<Upload>, at: usize, size: usize)
    requires
        at < old(list)@.len(),
    ensures
        final(list)@.len() == old(list)@.len(),
        forall|i: int|
            0 <= i < old(list)@.len() && i != at ==> final(list)@[i] == old(list)@[i],
        final(list)@[at as int].triple() == old(list)@[at as int].triple(),
        final(list)@[at as int].created_at == old(list)@[at as int].created_at,
        final(list)@[at as int].parts == counted((old(list)@[at as int].parts + 1) as nat),
        final(list)@[at as int].bytes == counted((old(list)@[at as int].bytes + size) as nat),
{
    let mut upload = Upload {
        bucket: String::new(),
        key: String::new(),
        upload_id: String::new(),
        created_at: 0,
        parts: 0,
        bytes: 0,
    };
    list.set_and_swap(at, &mut upload);
    upload.parts = add_counted(upload.parts, 1);
    upload.bytes = add_counted(upload.bytes, size as u64);
    list.set_and_swap(at, &mut upload);
}

/// The finding on a part record whose upload record does not exist. The key is
/// carried whole: that is the only address a record under an old form of key
/// has.
fn report_orphan(key: &[u8], part: &MultiPart) -> (finding: Finding)
    ensures
        finding@ == orphan_finding(key@, part@),
{
    let mut text = "part ".to_owned();
    put_dec_int(&mut text, part.part_number);
    text.append(" of upload ");
    text.append(&part.upload_id);
    text.append(" (");
    text.append(&part.bucket);
    text.append("/");
    text.append(&part.key);
    text.append("): ");
    put_len_dec(&mut text, part.size);
    text.append(
        " byte(s) held by a part record whose upload record does not exist, so nothing can complete or abort it. The daemon's GC reaps these on its next sweep; --repair reaps this one",
    );
    Finding::new(FindingClass::OrphanPart, text).with_storage_key(key)
}

/// Counts the parts at the uploads that own them, and reports those that no
/// upload owns.
fn tally_parts(
    rows: &KeyValuePairs,
    list: &mut Vec<Upload>,
    Ghost(uploads): Ghost<Map<Triple, int>>,
) -> (out: Result<Vec<Finding>, HolderEnumerationError>)
    requires
        holds_uploads(old(list)@, uploads),
        untallied(old(list)@),
    ensures
        match out {
            Ok(orphans) => {
                &&& bad_part(pairs(rows@)) is None
                &&& holds_uploads(final(list)@, uploads)
                &&& triples(final(list)@) == triples(old(list)@)
                &&& tallied(final(list)@, pairs(rows@))
                &&& finding_views(orphans@) == orphan_findings(pairs(rows@), uploads)
            },
            Err(e) => bad_part(pairs(rows@)) matches Some(why) && e.refuses(why),
        },
{
    let ghost all = pairs(rows@);
    let ghost names = triples(list@);
    let mut orphans: Vec<Finding> = Vec::new();
    let mut i: usize = 0;
    proof {
        assert(all.subrange(0, 0) =~= Seq::<(Seq<u8>, Seq<u8>)>::empty());
        assert(finding_views(orphans@) =~= Seq::<FindingView>::empty());
    }
    while i < rows.len()
        invariant
            i <= rows@.len(),
            all == pairs(rows@),
            names == triples(old(list)@),
            names == triples(list@),
            holds_uploads(list@, uploads),
            bad_part(all.subrange(0, i as int)) is None,
            tallied(list@, all.subrange(0, i as int)),
            finding_views(orphans@) == orphan_findings(all.subrange(0, i as int), uploads),
        decreases rows@.len() - i,
    {
        let ghost before = list@;
        let ghost so_far = all.subrange(0, i as int);
        let ghost next = all.subrange(0, i + 1);
        proof {
            lemma_prefix(all, i as int);
            assert(all[i as int] == (rows@[i as int].0@, rows@[i as int].1@));
        }
        match MultiPart::try_from(&rows[i].1) {
            Err(damage) => {
                proof {
                    lemma_bad_part_stop(all, i + 1);
                }
                return Err(
                    HolderEnumerationError::undecodable(MULTIPART_PARTS_TREE, &rows[i].0, damage),
                );
            },
            Ok(part) => {
                let ghost triple = part_triple(part@);
                match find_upload(list, &part.bucket, &part.key, &part.upload_id) {
                    None => {
                        proof {
                            assert(!uploads.contains_key(triple));
                            assert forall|j: int| 0 <= j < list@.len() implies (
                            #[trigger] list@[j]).triple() != triple by {
                                assert(names[j] == list@[j].triple());
                                assert(names.contains(names[j]));
                            }
                            assert(tallied(list@, next));
                        }
                        add_finding(&mut orphans, report_orphan(&rows[i].0, &part));
                    },
                    Some(at) => {
                        proof {
                            assert(names[at as int] == triple);
                            assert(names.contains(triple));
                            assert(uploads.contains_key(triple));
                        }
                        tally(list, at, part.size);
                        proof {
                            assert(triples(list@) =~= names);
                            assert forall|j: int| 0 <= j < list@.len() implies (
                            #[trigger] list@[j]).parts == counted(
                                parts_held(next, list@[j].triple()),
                            ) && list@[j].bytes == counted(
                                bytes_held(next, list@[j].triple()),
                            ) by {
                                assert(before[j].parts == counted(
                                    parts_held(so_far, before[j].triple()),
                                ));
                                assert(names[j] == before[j].triple());
                                if j != at {
                                    lemma_triple_total(names[j], names[j]);
                                    if j < at {
                                        assert(triple_lt(names[j], names[at as int]));
                                    } else {
                                        assert(triple_lt(names[at as int], names[j]));
                                    }
                                }
                            }
                            assert forall|j: int| 0 <= j < list@.len() implies uploads[(
                            #[trigger] list@[j]).triple()] == list@[j].created_at by {
                                assert(uploads[before[j].triple()] == before[j].created_at);
                            }
                        }
                    },
                }
            },
        }
        i = i + 1;
    }
    proof {
        assert(all.subrange(0, all.len() as int) =~= all);
    }
    Ok(orphans)
}

/// An age in seconds, for a person.
///
/// Coarse on purpose: the number an operator acts on is measured in days. A
/// record stamped in the future is reported as a negative age rather than
/// clamped to zero, so the skew is visible.
pub fn humanize_age(seconds: i64) -> (text: String)
    ensures
        text@ == age_text(seconds as int),
{
    let mut text = String::new();
    let magnitude: u64 = if seconds >= 0 {
        seconds as u64
    } else {
        text.append("-");
        if seconds == i64::MIN {
            i64::MAX as u64
        } else {
            (-seconds) as u64
        }
    };
    let ghost sign = text@;
    if magnitude >= 86_400 {
        put_dec(&mut text, magnitude / 86_400);
        text.append(" day(s)");
    } else if magnitude >= 3_600 {
        put_dec(&mut text, magnitude / 3_600);
        text.append(" hour(s)");
    } else if magnitude >= 60 {
        put_dec(&mut text, magnitude / 60);
        text.append(" minute(s)");
    } else {
        put_dec(&mut text, magnitude);
        text.append(" second(s)");
    }
    proof {
        assert(text@ =~= age_text(seconds as int));
    }
    text
}

/// The seconds from one time to another, as far as a machine can hold them.
fn seconds_between(from: i64, to: i64) -> (seconds: i64)
    ensures
        seconds == clamped_seconds(to - from),
{
    let wide: i128 = to as i128 - from as i128;
    if wide > i64::MAX as i128 {
        i64::MAX
    } else if wide < i64::MIN as i128 {
        i64::MIN
    } else {
        wide as i64
    }
}

/// The finding on an upload.
fn report_upload(upload: &Upload, now: i64) -> (finding: Finding)
    ensures
        finding@ == upload_finding(
            upload.triple(),
            upload.created_at as int,
            upload.parts,
            upload.bytes,
            now as int,
        ),
{
    let mut text = "upload ".to_owned();
    text.append(&upload.upload_id);
    text.append(" of ");
    text.append(&upload.bucket);
    text.append("/");
    text.append(&upload.key);
    text.append(": started ");
    text.append(&humanize_age(seconds_between(upload.created_at, now)));
    text.append(" ago, ");
    put_dec(&mut text, upload.parts);
    text.append(" part(s), ");
    put_dec(&mut text, upload.bytes);
    text.append(" byte(s) held");
    Finding::new(FindingClass::MultipartUpload, text)
}

impl<'a, N: Store, B: Store> ScrubContext<'a, N, B> {
    /// The upload records, in key order.
    pub open spec fn upload_rows(&self) -> Seq<(Seq<u8>, Seq<u8>)> {
        listing(tree_of(self.shared.meta.store.committed(), UPLOADS_TREE@))
    }

    /// The part records, in key order.
    pub open spec fn part_rows(&self) -> Seq<(Seq<u8>, Seq<u8>)> {
        listing(tree_of(self.shared.meta.store.committed(), MULTIPART_PARTS_TREE@))
    }

    /// Whether the upload records and the part records each have a listing.
    pub open spec fn uploads_listed(&self) -> bool {
        &&& is_listed(tree_of(self.shared.meta.store.committed(), UPLOADS_TREE@))
        &&& is_listed(tree_of(self.shared.meta.store.committed(), MULTIPART_PARTS_TREE@))
    }

    /// Whether a report on uploads was refused for a reason there is: an upload
    /// or part record that does not decode, or a store that does not answer.
    pub open spec fn upload_report_refused(&self, e: HolderEnumerationError) -> bool {
        match e {
            HolderEnumerationError::Store { .. } => !self.shared.meta.store.healthy(),
            HolderEnumerationError::UndecodableRecord { .. } => match uploads_in(
                self.upload_rows(),
            ) {
                Err(why) => e.refuses(why),
                Ok(_) => bad_part(self.part_rows()) matches Some(why) && e.refuses(why),
            },
        }
    }
}

/// What the in-flight uploads are holding at a time, and which part records no
/// upload owns.
///
/// An upload exists where its record does. Each is reported with its age and
/// with the parts and bytes it holds, also where it has no parts yet. A part
/// record whose upload does not exist holds its blocks with nothing left that
/// can complete or abort it.
///
/// A part or upload record that does not decode refuses the report: without the
/// full set of upload records a live part cannot be told from an orphan.
pub fn multipart_report_at<N: Store, B: Store>(ctx: &ScrubContext<'_, N, B>, now: i64) -> (out:
    Result<Vec<Finding>, HolderEnumerationError>)
    ensures
        match out {
            Ok(findings) => {
                &&& uploads_in(ctx.upload_rows()) matches Ok(uploads)
                &&& bad_part(ctx.part_rows()) is None
                &&& reports_uploads(
                    uploads,
                    ctx.part_rows(),
                    now as int,
                    finding_views(findings@),
                )
                &&& ctx.uploads_listed()
            },
            Err(e) => ctx.upload_report_refused(e),
        },
{
    let meta = ctx.shared().meta_store();
    let rows = match tree_rows(meta, UPLOADS_TREE) {
        Ok(rows) => rows,
        Err(source) => {
            return Err(HolderEnumerationError::unread(UPLOADS_TREE, source));
        },
    };
    let mut list = match read_uploads(&rows) {
        Ok(list) => list,
        Err((i, damage)) => {
            return Err(HolderEnumerationError::undecodable(UPLOADS_TREE, &rows[i].0, damage));
        },
    };
    let ghost uploads = uploads_in(ctx.upload_rows())->Ok_0;
    let parts = match tree_rows(meta, MULTIPART_PARTS_TREE) {
        Ok(parts) => parts,
        Err(source) => {
            return Err(HolderEnumerationError::unread(MULTIPART_PARTS_TREE, source));
        },
    };
    let orphans = match tally_parts(&parts, &mut list, Ghost(uploads)) {
        Ok(orphans) => orphans,
        Err(e) => {
            return Err(e);
        },
    };
    let ghost order = triples(list@);
    let ghost want = upload_findings(order, uploads, ctx.part_rows(), now as int);
    let mut findings: Vec<Finding> = Vec::new();
    let mut i: usize = 0;
    proof {
        assert(finding_views(findings@) =~= want.subrange(0, 0));
    }
    while i < list.len()
        invariant
            i <= list@.len(),
            order == triples(list@),
            holds_uploads(list@, uploads),
            tallied(list@, ctx.part_rows()),
            want == upload_findings(order, uploads, ctx.part_rows(), now as int),
            finding_views(findings@) == want.subrange(0, i as int),
        decreases list@.len() - i,
    {
        let finding = report_upload(&list[i], now);
        proof {
            assert(order[i as int] == list@[i as int].triple());
            assert(want[i as int] == finding@);
            assert(want.subrange(0, i + 1) =~= want.subrange(0, i as int).push(finding@));
        }
        add_finding(&mut findings, finding);
        i = i + 1;
    }
    proof {
        assert(want.subrange(0, want.len() as int) =~= want);
        assert(lists_uploads(order, uploads));
    }
    add_findings(&mut findings, orphans);
    Ok(findings)
}

/// What the in-flight uploads are holding now, and which part records no upload
/// owns. Ages are measured against the wall clock that stamped the upload
/// records.
pub fn multipart_report<N: Store, B: Store>(ctx: &ScrubContext<'_, N, B>) -> (out: Result<
    Vec<Finding>,
    HolderEnumerationError,
>)
    ensures
        match out {
            Ok(findings) => {
                &&& uploads_in(ctx.upload_rows()) matches Ok(uploads)
                &&& bad_part(ctx.part_rows()) is None
                &&& exists|now: int| #[trigger]
                    reports_uploads(uploads, ctx.part_rows(), now, finding_views(findings@))
                &&& ctx.uploads_listed()
            },
            Err(e) => ctx.upload_report_refused(e),
        },
{
    let now: i64 = unix_now();
    multipart_report_at(ctx, now)
}

} // verus!
