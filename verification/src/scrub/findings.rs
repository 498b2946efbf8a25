//! What a scrub reports: one finding per thing that is wrong, or per thing an
//! operator should see before repairing.

use vstd::prelude::*;
use vstd::slice::slice_to_vec;
use vstd::string::*;
use vstd::utf8::*;

use crate::metastore::block::BlockId;
use crate::text::{copy_opt, dec_int, hex, hex_text, opt_text, put_dec_int, utf8_text};

verus! {

/// How bad a finding is.
///
/// Ordered: `Info < Warn < Critical`, so a report can sort by severity and a
/// run's exit code is a function of the maximum.
#[derive(Debug, Clone, Copy, PartialEq, Eq, PartialOrd, Ord, Structural)]
pub enum Severity {
    /// Expected leakage, or information an operator asked for.
    Info,
    /// An inconsistency that is not loss and not loss-risk.
    Warn,
    /// Loss or loss-risk: an under-count, an unrecoverable block, corruption, a
    /// partial holder set, a dirty post-repair recount.
    Critical,
}

impl Severity {
    /// The place of a severity in the order.
    pub open spec fn rank(self) -> nat {
        match self {
            Severity::Info => 0,
            Severity::Warn => 1,
            Severity::Critical => 2,
        }
    }

    /// The place of a severity in the order.
    pub fn level(self) -> (rank: u8)
        ensures
            rank == self.rank(),
    {
        match self {
            Severity::Info => 0,
            Severity::Warn => 1,
            Severity::Critical => 2,
        }
    }

    /// The word a report shows.
    pub open spec fn label(self) -> Seq<char> {
        match self {
            Severity::Info => "INFO"@,
            Severity::Warn => "WARN"@,
            Severity::Critical => "CRITICAL"@,
        }
    }

    /// The word a report shows.
    pub fn label_text(self) -> (text: &'static str)
        ensures
            text@ == self.label(),
    {
        match self {
            Severity::Info => "INFO",
            Severity::Warn => "WARN",
            Severity::Critical => "CRITICAL",
        }
    }
}

/// What kind of thing was found.
#[derive(Debug, Clone, Copy, PartialEq, Eq, PartialOrd, Ord, Structural)]
pub enum FindingClass {
    /// The record's rc is higher than the walked holder count.
    RefcountOverCount,
    /// The record's rc is lower than the walked holder count: a premature free
    /// waiting to happen.
    RefcountUnderCount,
    /// A holder references a block that has no record at all.
    MissingBlockRecord,
    /// A block record that does not decode.
    UndecodableBlockRecord,
    /// A block file no record references.
    OrphanFile,
    /// A file whose id has a record, but at a different depth.
    OffDepthFile,
    /// Something under the blocks root that is not part of the layout.
    ForeignFile,
    /// A block file whose size does not match its record's.
    SizeMismatch,
    /// A record whose file is missing and cannot be adopted.
    DanglingRecord,
    /// A record whose file is missing but whose id exists elsewhere on disk.
    AdoptableDanglingRecord,
    /// A record already flagged degraded: known damage awaiting a heal.
    DegradedRecord,
    /// A block file whose bytes do not hash to the address it is filed under.
    CorruptBlock,
    /// An object tree with no bucket row: a teardown that crashed halfway.
    HalfDeletedBucket,
    /// An in-flight multipart upload.
    MultipartUpload,
    /// A part record whose upload record does not exist.
    OrphanPart,
    /// The holder set could not be closed, so no recount was run.
    HolderEnumerationFailed,
    /// The checks that must come back clean after a repair did not.
    PostRepairRecountDirty,
}

impl FindingClass {
    /// The place of a class in the order of a report.
    pub open spec fn rank(self) -> nat {
        match self {
            FindingClass::RefcountOverCount => 0,
            FindingClass::RefcountUnderCount => 1,
            FindingClass::MissingBlockRecord => 2,
            FindingClass::UndecodableBlockRecord => 3,
            FindingClass::OrphanFile => 4,
            FindingClass::OffDepthFile => 5,
            FindingClass::ForeignFile => 6,
            FindingClass::SizeMismatch => 7,
            FindingClass::DanglingRecord => 8,
            FindingClass::AdoptableDanglingRecord => 9,
            FindingClass::DegradedRecord => 10,
            FindingClass::CorruptBlock => 11,
            FindingClass::HalfDeletedBucket => 12,
            FindingClass::MultipartUpload => 13,
            FindingClass::OrphanPart => 14,
            FindingClass::HolderEnumerationFailed => 15,
            FindingClass::PostRepairRecountDirty => 16,
        }
    }

    /// The place of a class in the order of a report.
    pub fn index(self) -> (rank: usize)
        ensures
            rank == self.rank(),
    {
        match self {
            FindingClass::RefcountOverCount => 0,
            FindingClass::RefcountUnderCount => 1,
            FindingClass::MissingBlockRecord => 2,
            FindingClass::UndecodableBlockRecord => 3,
            FindingClass::OrphanFile => 4,
            FindingClass::OffDepthFile => 5,
            FindingClass::ForeignFile => 6,
            FindingClass::SizeMismatch => 7,
            FindingClass::DanglingRecord => 8,
            FindingClass::AdoptableDanglingRecord => 9,
            FindingClass::DegradedRecord => 10,
            FindingClass::CorruptBlock => 11,
            FindingClass::HalfDeletedBucket => 12,
            FindingClass::MultipartUpload => 13,
            FindingClass::OrphanPart => 14,
            FindingClass::HolderEnumerationFailed => 15,
            FindingClass::PostRepairRecountDirty => 16,
        }
    }

    /// Every class, in the order of a report.
    pub fn all() -> (list: [FindingClass; 17])
        ensures
            forall|i: int| 0 <= i < 17 ==> (#[trigger] list@[i]).rank() == i,
    {
        [
            FindingClass::RefcountOverCount,
            FindingClass::RefcountUnderCount,
            FindingClass::MissingBlockRecord,
            FindingClass::UndecodableBlockRecord,
            FindingClass::OrphanFile,
            FindingClass::OffDepthFile,
            FindingClass::ForeignFile,
            FindingClass::SizeMismatch,
            FindingClass::DanglingRecord,
            FindingClass::AdoptableDanglingRecord,
            FindingClass::DegradedRecord,
            FindingClass::CorruptBlock,
            FindingClass::HalfDeletedBucket,
            FindingClass::MultipartUpload,
            FindingClass::OrphanPart,
            FindingClass::HolderEnumerationFailed,
            FindingClass::PostRepairRecountDirty,
        ]
    }

    /// The name this class carries in every rendering.
    pub open spec fn name(self) -> Seq<char> {
        match self {
            FindingClass::RefcountOverCount => "refcount_over_count"@,
            FindingClass::RefcountUnderCount => "refcount_under_count"@,
            FindingClass::MissingBlockRecord => "missing_block_record"@,
            FindingClass::UndecodableBlockRecord => "undecodable_block_record"@,
            FindingClass::OrphanFile => "orphan_file"@,
            FindingClass::OffDepthFile => "off_depth_file"@,
            FindingClass::ForeignFile => "foreign_file"@,
            FindingClass::SizeMismatch => "size_mismatch"@,
            FindingClass::DanglingRecord => "dangling_record"@,
            FindingClass::AdoptableDanglingRecord => "adoptable_dangling_record"@,
            FindingClass::DegradedRecord => "degraded_record"@,
            FindingClass::CorruptBlock => "corrupt_block"@,
            FindingClass::HalfDeletedBucket => "half_deleted_bucket"@,
            FindingClass::MultipartUpload => "multipart_upload"@,
            FindingClass::OrphanPart => "orphan_part"@,
            FindingClass::HolderEnumerationFailed => "holder_enumeration_failed"@,
            FindingClass::PostRepairRecountDirty => "post_repair_recount_dirty"@,
        }
    }

    /// The name this class carries in every rendering.
    pub fn as_str(self) -> (text: &'static str)
        ensures
            text@ == self.name(),
    {
        match self {
            FindingClass::RefcountOverCount => "refcount_over_count",
            FindingClass::RefcountUnderCount => "refcount_under_count",
            FindingClass::MissingBlockRecord => "missing_block_record",
            FindingClass::UndecodableBlockRecord => "undecodable_block_record",
            FindingClass::OrphanFile => "orphan_file",
            FindingClass::OffDepthFile => "off_depth_file",
            FindingClass::ForeignFile => "foreign_file",
            FindingClass::SizeMismatch => "size_mismatch",
            FindingClass::DanglingRecord => "dangling_record",
            FindingClass::AdoptableDanglingRecord => "adoptable_dangling_record",
            FindingClass::DegradedRecord => "degraded_record",
            FindingClass::CorruptBlock => "corrupt_block",
            FindingClass::HalfDeletedBucket => "half_deleted_bucket",
            FindingClass::MultipartUpload => "multipart_upload",
            FindingClass::OrphanPart => "orphan_part",
            FindingClass::HolderEnumerationFailed => "holder_enumeration_failed",
            FindingClass::PostRepairRecountDirty => "post_repair_recount_dirty",
        }
    }

    /// The severity this class carries unless a pass says otherwise: expected
    /// leakage and information are INFO, inconsistencies that lose nothing are
    /// WARN, and everything else is CRITICAL.
    pub open spec fn severity(self) -> Severity {
        if self is RefcountOverCount || self is OrphanFile || self is OffDepthFile
            || self is AdoptableDanglingRecord || self is DegradedRecord || self is MultipartUpload
            || self is OrphanPart {
            Severity::Info
        } else if self is ForeignFile || self is HalfDeletedBucket {
            Severity::Warn
        } else {
            Severity::Critical
        }
    }

    /// The severity this class carries unless a pass says otherwise.
    pub fn default_severity(self) -> (severity: Severity)
        ensures
            severity == self.severity(),
    {
        match self {
            FindingClass::RefcountOverCount
            | FindingClass::OrphanFile
            | FindingClass::OffDepthFile
            | FindingClass::AdoptableDanglingRecord
            | FindingClass::DegradedRecord
            | FindingClass::MultipartUpload
            | FindingClass::OrphanPart => Severity::Info,
            FindingClass::ForeignFile | FindingClass::HalfDeletedBucket => Severity::Warn,
            FindingClass::RefcountUnderCount
            | FindingClass::MissingBlockRecord
            | FindingClass::UndecodableBlockRecord
            | FindingClass::SizeMismatch
            | FindingClass::DanglingRecord
            | FindingClass::CorruptBlock
            | FindingClass::HolderEnumerationFailed
            | FindingClass::PostRepairRecountDirty => Severity::Critical,
        }
    }
}

/// Something that references a block: the blast radius of damage to it.
#[derive(Debug, PartialEq, Eq)]
pub enum HolderRef {
    /// An object record in a bucket tree.
    Object { bucket: String, key: String },
    /// A part record of an upload that has not completed.
    Part { bucket: String, key: String, upload_id: String, part_number: i64 },
}

/// What a holder reference states.
#[verifier::ext_equal]
pub ghost enum HolderView {
    Object(Seq<char>, Seq<char>),
    Part(Seq<char>, Seq<char>, Seq<char>, int),
}

impl View for HolderRef {
    type V = HolderView;

    open spec fn view(&self) -> HolderView {
        match self {
            HolderRef::Object { bucket, key } => HolderView::Object(bucket@, key@),
            HolderRef::Part { bucket, key, upload_id, part_number } => HolderView::Part(
                bucket@,
                key@,
                upload_id@,
                *part_number as int,
            ),
        }
    }
}

impl HolderView {
    /// One line, for the text report.
    pub open spec fn text(self) -> Seq<char> {
        match self {
            HolderView::Object(bucket, key) => "object "@ + bucket + "/"@ + key,
            HolderView::Part(bucket, key, upload_id, part_number) => "part "@ + dec_int(part_number)
                + " of upload "@ + upload_id + " ("@ + bucket + "/"@ + key + ")"@,
        }
    }
}

/// Holder references by what they state.
pub open spec fn holder_views(list: Seq<HolderRef>) -> Seq<HolderView> {
    list.map_values(|h: HolderRef| h@)
}

impl HolderRef {
    /// One line, for the text report.
    pub fn to_string(&self) -> (out: String)
        ensures
            out@ == self@.text(),
    {
        match self {
            HolderRef::Object { bucket, key } => {
                let mut out = "object ".to_owned();
                out.append(bucket);
                out.append("/");
                out.append(key);
                out
            },
            HolderRef::Part { bucket, key, upload_id, part_number } => {
                let mut out = "part ".to_owned();
                put_dec_int(&mut out, *part_number);
                out.append(" of upload ");
                out.append(upload_id);
                out.append(" (");
                out.append(bucket);
                out.append("/");
                out.append(key);
                out.append(")");
                out
            },
        }
    }

    /// A copy of the reference.
    pub fn copy(&self) -> (out: HolderRef)
        ensures
            out@ == self@,
    {
        match self {
            HolderRef::Object { bucket, key } => HolderRef::Object {
                bucket: bucket.as_str().to_owned(),
                key: key.as_str().to_owned(),
            },
            HolderRef::Part { bucket, key, upload_id, part_number } => HolderRef::Part {
                bucket: bucket.as_str().to_owned(),
                key: key.as_str().to_owned(),
                upload_id: upload_id.as_str().to_owned(),
                part_number: *part_number,
            },
        }
    }
}

/// Copies holder references.
pub fn copy_holders(list: &Vec<HolderRef>) -> (out: Vec<HolderRef>)
    ensures
        holder_views(out@) == holder_views(list@),
{
    let mut out: Vec<HolderRef> = Vec::new();
    let mut i: usize = 0;
    while i < list.len()
        invariant
            i <= list@.len(),
            out@.len() == i,
            forall|j: int| 0 <= j < i ==> (#[trigger] out@[j])@ == list@[j]@,
        decreases list@.len() - i,
    {
        out.push(list[i].copy());
        i = i + 1;
    }
    proof {
        assert(holder_views(out@) =~= holder_views(list@));
    }
    out
}

/// One thing the scrub found.
#[derive(Debug, PartialEq, Eq)]
pub struct Finding {
    /// How bad it is.
    pub severity: Severity,
    /// What kind of thing it is.
    pub class: FindingClass,
    /// The block this is about, as lowercase hex, when it is about one.
    pub block: Option<String>,
    /// The path or record key this is about, when it is about one.
    pub path: Option<String>,
    /// The specifics, meant to be read by a person.
    pub evidence: String,
    /// Holders affected, where a pass enumerated them.
    pub holders: Vec<HolderRef>,
}

/// What a finding states.
#[verifier::ext_equal]
pub ghost struct FindingView {
    pub severity: Severity,
    pub class: FindingClass,
    pub block: Option<Seq<char>>,
    pub path: Option<Seq<char>>,
    pub evidence: Seq<char>,
    pub holders: Seq<HolderView>,
}

impl View for Finding {
    type V = FindingView;

    open spec fn view(&self) -> FindingView {
        FindingView {
            severity: self.severity,
            class: self.class,
            block: opt_text(self.block),
            path: opt_text(self.path),
            evidence: self.evidence@,
            holders: holder_views(self.holders@),
        }
    }
}

impl FindingView {
    /// A finding at its class's default severity.
    pub open spec fn new(class: FindingClass, evidence: Seq<char>) -> FindingView {
        FindingView {
            severity: class.severity(),
            class,
            block: None,
            path: None,
            evidence,
            holders: Seq::empty(),
        }
    }

    pub open spec fn with_block(self, id: Seq<u8>) -> FindingView {
        FindingView { block: Some(hex(id)), ..self }
    }

    pub open spec fn with_path(self, path: Seq<char>) -> FindingView {
        FindingView { path: Some(path), ..self }
    }

    pub open spec fn with_holders(self, holders: Seq<HolderView>) -> FindingView {
        FindingView { holders, ..self }
    }
}

/// Findings by what they state.
pub open spec fn finding_views(list: Seq<Finding>) -> Seq<FindingView> {
    list.map_values(|f: Finding| f@)
}

/// Whether a record key reads as text: printable ASCII throughout.
pub open spec fn is_printable_key(key: Seq<u8>) -> bool {
    forall|i: int| 0 <= i < key.len() ==> 0x20 <= #[trigger] key[i] <= 0x7e
}

/// How a record key is shown: as itself where it reads as text, as hex
/// otherwise.
pub open spec fn storage_key_text(key: Seq<u8>) -> Seq<char> {
    if is_printable_key(key) {
        key.map_values(|b: u8| b as char)
    } else {
        hex(key)
    }
}

/// Shows a record key: as itself where it reads as text, as hex otherwise.
pub fn render_storage_key(key: &[u8]) -> (text: String)
    ensures
        text@ == storage_key_text(key@),
{
    let mut i: usize = 0;
    while i < key.len()
        invariant
            i <= key@.len(),
            forall|j: int| 0 <= j < i ==> 0x20 <= #[trigger] key@[j] <= 0x7e,
        decreases key@.len() - i,
    {
        if key[i] < 0x20 || key[i] > 0x7e {
            return hex_text(key);
        }
        i = i + 1;
    }
    proof {
        let chars = key@.map_values(|b: u8| b as char);
        assert(is_ascii_chars(chars));
        is_ascii_chars_encode_utf8(chars);
        assert(key@ =~= encode_utf8(chars));
        encode_utf8_valid_utf8(chars);
        encode_utf8_decode_utf8(chars);
    }
    match utf8_text(slice_to_vec(key)) {
        Ok(text) => text,
        Err(_) => String::new(),
    }
}

impl Finding {
    /// A finding of `class` at that class's default severity.
    pub fn new(class: FindingClass, evidence: String) -> (finding: Self)
        ensures
            finding@ == FindingView::new(class, evidence@),
    {
        let finding = Finding {
            severity: class.default_severity(),
            class,
            block: None,
            path: None,
            evidence,
            holders: Vec::new(),
        };
        proof {
            assert(finding@ =~= FindingView::new(class, evidence@));
        }
        finding
    }

    /// Names the block this finding is about.
    pub fn with_block(self, id: &BlockId) -> (finding: Self)
        ensures
            finding@ == self@.with_block(id@),
    {
        let mut finding = self;
        finding.block = Some(id.to_hex());
        finding
    }

    /// Names the path this finding is about.
    pub fn with_path(self, path: &str) -> (finding: Self)
        ensures
            finding@ == self@.with_path(path@),
    {
        let mut finding = self;
        finding.path = Some(path.to_owned());
        finding
    }

    /// Names the raw record key this finding is about, in the field a path goes
    /// in.
    pub fn with_storage_key(self, key: &[u8]) -> (finding: Self)
        ensures
            finding@ == self@.with_path(storage_key_text(key@)),
    {
        let mut finding = self;
        finding.path = Some(render_storage_key(key));
        finding
    }

    /// Attaches the holders a damaged block would take down with it.
    pub fn with_holders(self, holders: Vec<HolderRef>) -> (finding: Self)
        ensures
            finding@ == self@.with_holders(holder_views(holders@)),
    {
        let mut finding = self;
        finding.holders = holders;
        finding
    }

    /// Overrides the class's default severity.
    pub fn at(self, severity: Severity) -> (finding: Self)
        ensures
            finding@ == (FindingView { severity, ..self@ }),
    {
        let mut finding = self;
        finding.severity = severity;
        finding
    }

    /// A copy of the finding.
    pub fn copy(&self) -> (finding: Self)
        ensures
            finding@ == self@,
    {
        let finding = Finding {
            severity: self.severity,
            class: self.class,
            block: copy_opt(&self.block),
            path: copy_opt(&self.path),
            evidence: self.evidence.as_str().to_owned(),
            holders: copy_holders(&self.holders),
        };
        proof {
            assert(finding@ =~= self@);
        }
        finding
    }
}

/// Appends a finding.
pub fn add_finding(list: &mut Vec<Finding>, finding: Finding)
    ensures
        finding_views(final(list)@) == finding_views(old(list)@).push(finding@),
{
    let ghost before = list@;
    list.push(finding);
    proof {
        assert(finding_views(list@) =~= finding_views(before).push(finding@));
    }
}

/// Moves all findings of one list behind those of another.
pub fn add_findings(list: &mut Vec<Finding>, more: Vec<Finding>)
    ensures
        finding_views(final(list)@) == finding_views(old(list)@) + finding_views(more@),
{
    let mut rest = more;
    let ghost before = list@;
    let ghost added = rest@;
    list.append(&mut rest);
    proof {
        assert(finding_views(list@) =~= finding_views(before) + finding_views(added));
    }
}

/// What each class of findings is called, and how bad it is unless a pass says
/// otherwise: loss and the danger of it are CRITICAL, an inconsistency that is
/// neither is WARN, and the rest is INFO.
pub proof fn lemma_class_table(class: FindingClass)
    ensures
        match class {
            FindingClass::RefcountOverCount => class.name() == "refcount_over_count"@
                && class.severity() is Info,
            FindingClass::RefcountUnderCount => class.name() == "refcount_under_count"@
                && class.severity() is Critical,
            FindingClass::MissingBlockRecord => class.name() == "missing_block_record"@
                && class.severity() is Critical,
            FindingClass::UndecodableBlockRecord => class.name() == "undecodable_block_record"@
                && class.severity() is Critical,
            FindingClass::OrphanFile => class.name() == "orphan_file"@ && class.severity() is Info,
            FindingClass::OffDepthFile => class.name() == "off_depth_file"@ && class.severity()
                is Info,
            FindingClass::ForeignFile => class.name() == "foreign_file"@ && class.severity()
                is Warn,
            FindingClass::SizeMismatch => class.name() == "size_mismatch"@ && class.severity()
                is Critical,
            FindingClass::DanglingRecord => class.name() == "dangling_record"@ && class.severity()
                is Critical,
            FindingClass::AdoptableDanglingRecord => class.name() == "adoptable_dangling_record"@
                && class.severity() is Info,
            FindingClass::DegradedRecord => class.name() == "degraded_record"@ && class.severity()
                is Info,
            FindingClass::CorruptBlock => class.name() == "corrupt_block"@ && class.severity()
                is Critical,
            FindingClass::HalfDeletedBucket => class.name() == "half_deleted_bucket"@
                && class.severity() is Warn,
            FindingClass::MultipartUpload => class.name() == "multipart_upload"@
                && class.severity() is Info,
            FindingClass::OrphanPart => class.name() == "orphan_part"@ && class.severity() is Info,
            FindingClass::HolderEnumerationFailed => class.name() == "holder_enumeration_failed"@
                && class.severity() is Critical,
            FindingClass::PostRepairRecountDirty => class.name() == "post_repair_recount_dirty"@
                && class.severity() is Critical,
        },
{
}

/// Two classes have two places in the order of a report, and so have two severities,
/// of which the worse one has the higher.
pub proof fn lemma_ranks_apart(a: FindingClass, b: FindingClass)
    ensures
        a.rank() == b.rank() ==> a == b,
        Severity::Info.rank() < Severity::Warn.rank() < Severity::Critical.rank(),
{
}

/// A record key is shown as it is where every byte of it is a printable ASCII
/// character, and as hex otherwise.
pub proof fn lemma_key_shown(key: Seq<u8>)
    ensures
        (forall|i: int| 0 <= i < key.len() ==> 0x20 <= #[trigger] key[i] <= 0x7e)
            ==> storage_key_text(key).len() == key.len() && forall|i: int|
            0 <= i < key.len() ==> #[trigger] storage_key_text(key)[i] == key[i] as char,
        !(forall|i: int| 0 <= i < key.len() ==> 0x20 <= #[trigger] key[i] <= 0x7e)
            ==> storage_key_text(key) == hex(key),
{
}

/// A holder is shown by what it is, with its bucket and key, and a part with its
/// number and upload; a severity by its word.
pub proof fn lemma_holder_shown(
    bucket: Seq<char>,
    key: Seq<char>,
    upload_id: Seq<char>,
    part_number: int,
)
    ensures
        HolderView::Object(bucket, key).text() == "object "@ + bucket + "/"@ + key,
        HolderView::Part(bucket, key, upload_id, part_number).text() == "part "@ + dec_int(
            part_number,
        ) + " of upload "@ + upload_id + " ("@ + bucket + "/"@ + key + ")"@,
        Severity::Info.label() == "INFO"@,
        Severity::Warn.label() == "WARN"@,
        Severity::Critical.label() == "CRITICAL"@,
{
}

} // verus!
