use cas_storage::fsck::{re_pair_roots, refuse_unless_store_exists, store_databases, RE_PAIR_ROOTS};
use cas_storage::metastore::store_header::StoreInit;
use cas_storage::metastore::{BlockId, FsError, MetaError, ObjectData, BLOCKID_SIZE};
use cas_storage::scrub::disk::{
    classify_file, enters, lower_hex_digit, parse_hex_byte, parse_lower_hex,
};
use cas_storage::scrub::findings::{copy_holders, render_storage_key};
use cas_storage::scrub::holders::is_reserved;
use cas_storage::scrub::id_map::IdMap;
use cas_storage::scrub::passes::multipart::humanize_age;
use cas_storage::scrub::repair::quarantine::quarantine_dest;
use cas_storage::scrub::repair::unfinished::{flag_unfinished, is_repairable};
use cas_storage::scrub::repair::Done;
use cas_storage::scrub::report::REPORT_VERSION;
use cas_storage::scrub::{
    exit_code, Finding, FindingClass, HolderEnumerationError, HolderRef, Pass, RepairAction,
    RepairCounts, RepairError, RepairOutcome, RepairStatus, RepairSummary, Report, ScrubError,
    ScrubOptions, Severity, StoreRef, Summary,
};

fn store_ref() -> StoreRef {
    StoreRef {
        blocks_root: "/data/blocks".to_string(),
        meta_root: Some("/data/meta".to_string()),
    }
}

fn finding(class: FindingClass, evidence: &str) -> Finding {
    Finding::new(class, evidence.to_string())
}

fn cat() -> HolderRef {
    HolderRef::Object { bucket: "photos".to_string(), key: "cat.png".to_string() }
}

#[test]
fn severity_orders_info_below_critical() {
    assert!(Severity::Info < Severity::Warn);
    assert!(Severity::Warn < Severity::Critical);
    assert_eq!(
        [Severity::Critical, Severity::Info, Severity::Warn].iter().max(),
        Some(&Severity::Critical)
    );
}

/// The severity table, pinned: the three directions that mean loss are
/// CRITICAL, the expected leakage is INFO.
#[test]
fn default_severities_follow_the_adr() {
    assert_eq!(FindingClass::RefcountOverCount.default_severity(), Severity::Info);
    assert_eq!(FindingClass::RefcountUnderCount.default_severity(), Severity::Critical);
    assert_eq!(FindingClass::ForeignFile.default_severity(), Severity::Warn);
    assert_eq!(FindingClass::HalfDeletedBucket.default_severity(), Severity::Warn);
    assert_eq!(FindingClass::DanglingRecord.default_severity(), Severity::Critical);
    assert_eq!(FindingClass::DegradedRecord.default_severity(), Severity::Info);
}

#[test]
fn findings_carry_what_they_were_given() {
    let id = BlockId::from([0xabu8; BLOCKID_SIZE]);
    let full = finding(FindingClass::DanglingRecord, "no file at depth 2")
        .with_block(&id)
        .with_path("/data/blocks/ab/abab")
        .with_holders(vec![cat()]);
    assert_eq!(full.severity, Severity::Critical);
    assert_eq!(full.class.as_str(), "dangling_record");
    assert_eq!(full.block, Some(id.to_hex()));
    assert_eq!(full.path.as_deref(), Some("/data/blocks/ab/abab"));
    assert_eq!(full.evidence, "no file at depth 2");
    assert_eq!(full.holders, vec![cat()]);

    // A finding about nothing in particular carries nothing.
    let bare = finding(FindingClass::MultipartUpload, "3 parts, 12 MiB");
    assert_eq!(bare.block, None);
    assert_eq!(bare.path, None);
    assert!(bare.holders.is_empty());
}

#[test]
fn every_class_has_a_name_of_its_own() {
    let all = FindingClass::all();
    for (i, class) in all.iter().enumerate() {
        assert_eq!(class.index(), i);
        for other in &all[i + 1..] {
            assert_ne!(class.as_str(), other.as_str());
        }
    }
}

/// A part holder names the upload, not just the object: two uploads of one key
/// are different blast radii.
#[test]
fn part_holders_are_shown_with_their_upload() {
    let holder = HolderRef::Part {
        bucket: "b".to_string(),
        key: "k".to_string(),
        upload_id: "u-1".to_string(),
        part_number: 2,
    };
    let text = holder.to_string();
    assert!(text.contains("part"), "{text}");
    assert!(text.contains("u-1"), "{text}");
    assert!(text.contains('2'), "{text}");
    let list = vec![holder, cat()];
    assert_eq!(copy_holders(&list), list);
}

#[test]
fn storage_keys_render_as_text_or_hex() {
    assert_eq!(render_storage_key(b"b-big-u-1"), "b-big-u-1");
    assert_eq!(render_storage_key(&[0x00, 0xff, 0x61]), "00ff61");
}

/// Pins the reference classes: an inline object holds its bytes, the other two
/// hold block references.
#[test]
fn every_object_data_variant_is_accounted_for() {
    fn holds_references(data: &ObjectData) -> bool {
        match data {
            // Inline objects hold their bytes, not block references.
            ObjectData::Inline { .. } => false,
            ObjectData::SinglePart { blocks } => !blocks.is_empty(),
            ObjectData::MultiPart { blocks, .. } => !blocks.is_empty(),
        }
    }

    assert!(!holds_references(&ObjectData::Inline { data: vec![1, 2, 3] }));
    assert!(!holds_references(&ObjectData::SinglePart { blocks: vec![] }));
    assert!(holds_references(&ObjectData::SinglePart {
        blocks: vec![BlockId::from([1u8; BLOCKID_SIZE])],
    }));
    assert!(holds_references(&ObjectData::MultiPart {
        blocks: vec![BlockId::from([2u8; BLOCKID_SIZE])],
        parts: 1,
    }));
}

#[test]
fn reserved_trees_are_recognised_by_prefix() {
    assert!(is_reserved("_BLOCKS"));
    assert!(is_reserved("_MULTIPART_PARTS"));
    assert!(is_reserved("_STORE_HEADER"));
    assert!(is_reserved("_"));
    assert!(!is_reserved("photos"));
    assert!(!is_reserved("my_bucket"));
    assert!(!is_reserved(""));
}

#[test]
fn hex_parsing_is_exact_and_lowercase() {
    assert_eq!(parse_hex_byte("ab"), Some(0xab));
    assert_eq!(parse_hex_byte("00"), Some(0x00));
    assert_eq!(parse_hex_byte("ff"), Some(0xff));
    // Uppercase is not what the writer produces.
    assert_eq!(parse_hex_byte("AB"), None);
    assert_eq!(parse_hex_byte("a"), None);
    assert_eq!(parse_hex_byte("abc"), None);
    assert_eq!(parse_hex_byte("gg"), None);
    assert_eq!(parse_hex_byte(".tmp"), None);
}

#[test]
fn longer_hex_parses_like_single_bytes() {
    assert_eq!(parse_lower_hex("00ff", 2), Some(vec![0x00, 0xff]));
    assert_eq!(parse_lower_hex("00ff", 3), None);
    assert_eq!(parse_lower_hex("00fF", 2), None);
    assert_eq!(lower_hex_digit(b'f'), Some(15));
    assert_eq!(lower_hex_digit(b'F'), None);
}

#[test]
fn file_names_must_be_full_width_and_on_their_own_chain() {
    let name = "ab01".to_string() + &"00".repeat(14);
    assert!(classify_file(&name, &[0xab], 16).is_ok());
    // Right name, wrong chain.
    assert!(classify_file(&name, &[0xcd], 16).is_err());
    // Right name, no chain at all.
    assert!(classify_file(&name, &[], 16).is_err());
    // Right chain, half a name.
    assert!(classify_file("ab01", &[0xab], 16).is_err());
    // Right name, wrong store width.
    assert!(classify_file(&name, &[0xab], 32).is_err());
}

#[test]
fn only_fanout_directories_are_entered() {
    let own = vec!["/data/blocks/db".to_string()];
    assert!(enters("/data/blocks/ab", "ab", &own, true));
    assert!(enters("/data/blocks/ab/cd", "cd", &own, false));
    assert!(!enters("/data/blocks/db", "db", &own, true));
    assert!(!enters("/data/blocks/.tmp", ".tmp", &own, true));
    assert!(!enters("/data/blocks/zz", "zz", &own, true));
}

/// Ages read as a person reads them, and a clock that went backwards is shown as
/// the skew it is rather than as a plausible zero.
#[test]
fn ages_are_rendered_in_the_coarsest_unit_that_fits() {
    assert_eq!(humanize_age(0), "0 second(s)");
    assert_eq!(humanize_age(59), "59 second(s)");
    assert_eq!(humanize_age(60), "1 minute(s)");
    assert_eq!(humanize_age(59 * 60), "59 minute(s)");
    assert_eq!(humanize_age(60 * 60), "1 hour(s)");
    assert_eq!(humanize_age(47 * 60 * 60), "1 day(s)");
    assert_eq!(humanize_age(-90), "-1 minute(s)");
    // An absurd timestamp must not panic the report that carries it.
    assert!(humanize_age(i64::MIN).starts_with('-'));
}

#[test]
fn findings_sort_worst_first_and_deterministically() {
    let findings = vec![
        finding(FindingClass::OrphanFile, "b"),
        finding(FindingClass::DanglingRecord, "gone"),
        finding(FindingClass::ForeignFile, "junk"),
        finding(FindingClass::OrphanFile, "a"),
        finding(FindingClass::RefcountUnderCount, "under"),
    ];
    let report = Report::new(store_ref(), vec![Pass::Recount], findings);

    let order: Vec<Severity> = report.findings.iter().map(|f| f.severity).collect();
    assert_eq!(
        order,
        vec![
            Severity::Critical,
            Severity::Critical,
            Severity::Warn,
            Severity::Info,
            Severity::Info
        ]
    );
    // Same severity, same class: the tiebreaker keeps the order stable.
    assert_eq!(report.findings[3].evidence, "a");
    assert_eq!(report.findings[4].evidence, "b");
}

/// A report says the same in whatever order the passes found things.
#[test]
fn a_report_does_not_depend_on_the_order_of_discovery() {
    fn all() -> Vec<Finding> {
        let id = BlockId::from([3u8; BLOCKID_SIZE]);
        vec![
            finding(FindingClass::OrphanFile, "x").with_block(&id),
            finding(FindingClass::OrphanFile, "x"),
            finding(FindingClass::OrphanFile, "x").with_path("/p"),
            finding(FindingClass::DanglingRecord, "y").with_holders(vec![cat()]),
            finding(FindingClass::DanglingRecord, "z"),
        ]
    }
    let mut backwards = all();
    backwards.reverse();
    assert_eq!(
        Report::new(store_ref(), vec![], all()).findings,
        Report::new(store_ref(), vec![], backwards).findings
    );
}

#[test]
fn the_summary_and_exit_code_follow_the_worst_finding() {
    let clean = Report::new(store_ref(), vec![], vec![]);
    assert_eq!(clean.exit_code, exit_code::CLEAN);
    assert_eq!(clean.summary, Summary::default());

    let info_only =
        Report::new(store_ref(), vec![], vec![finding(FindingClass::OrphanFile, "x")]);
    assert_eq!(info_only.exit_code, exit_code::CLEAN, "INFO alone is clean");
    assert_eq!(info_only.summary.info, 1);
    assert_eq!(info_only.summary.total, 1);

    let warned = Report::new(
        store_ref(),
        vec![],
        vec![finding(FindingClass::OrphanFile, "x"), finding(FindingClass::ForeignFile, "y")],
    );
    assert_eq!(warned.exit_code, exit_code::WARN);
    assert_eq!(warned.summary.warn, 1);

    let critical = Report::new(
        store_ref(),
        vec![],
        vec![finding(FindingClass::ForeignFile, "y"), finding(FindingClass::DanglingRecord, "z")],
    );
    assert_eq!(critical.exit_code, exit_code::CRITICAL);
    assert_eq!(critical.summary.critical, 1);
    assert_eq!(critical.summary.warn, 1);
}

#[test]
fn a_pass_that_did_not_run_is_absent() {
    let report = Report::new(store_ref(), vec![Pass::DiskSweep], vec![]);
    assert!(report.ran(Pass::DiskSweep));
    assert!(
        !report.ran(Pass::Recount),
        "absence is how repair learns the holder set was not closed"
    );
}

#[test]
fn the_text_render_shows_evidence_holders_and_a_footer() {
    let report = Report::new(
        store_ref(),
        vec![Pass::Recount, Pass::DanglingSweep],
        vec![
            finding(FindingClass::DanglingRecord, "the bytes are gone").with_holders(vec![cat()]),
            finding(FindingClass::OrphanFile, "nobody's block"),
        ],
    );

    let text = report.render_text();
    assert!(text.contains("passes: recount, dangling_sweep"), "{text}");
    assert!(text.contains("CRITICAL dangling_record"), "{text}");
    assert!(text.contains("    the bytes are gone"), "{text}");
    assert!(text.contains("    holder: object photos/cat.png"), "{text}");
    assert!(text.contains("INFO orphan_file"), "{text}");
    assert!(text.contains("1 critical, 0 warn, 1 info (2 finding(s)); exit 2"), "{text}");
    // The plain rendering is the same.
    assert_eq!(text, report.to_string());
}

#[test]
fn an_empty_report_says_so() {
    let text = Report::new(store_ref(), vec![Pass::Recount], vec![]).render_text();
    assert!(text.contains("no findings"), "{text}");
    assert!(text.contains("0 critical, 0 warn, 0 info"), "{text}");
}

/// A class that a repair claims to fix and that is still standing afterwards is
/// CRITICAL, whatever that finding's own severity is.
#[test]
fn a_repairable_finding_that_survives_the_repair_is_critical() {
    let dirty = flag_unfinished(Report::new(
        store_ref(),
        vec![Pass::Recount],
        vec![
            finding(FindingClass::OrphanFile, "an orphan nobody deleted"),
            finding(FindingClass::MissingBlockRecord, "not repairable by anyone"),
        ],
    ));

    assert_eq!(dirty.exit_code, exit_code::CRITICAL);
    let flagged: Vec<&Finding> = dirty
        .findings
        .iter()
        .filter(|f| f.class == FindingClass::PostRepairRecountDirty)
        .collect();
    assert_eq!(flagged.len(), 1, "one per surviving class: {flagged:#?}");
    assert!(flagged[0].evidence.contains("orphan_file"), "{flagged:#?}");

    // A store with only unrepairable findings left is not called dirty: nothing
    // claimed to repair them.
    let untouched = flag_unfinished(Report::new(
        store_ref(),
        vec![Pass::Recount],
        vec![finding(FindingClass::MissingBlockRecord, "still gone")],
    ));
    assert!(
        !untouched.findings.iter().any(|f| f.class == FindingClass::PostRepairRecountDirty),
        "{}",
        untouched.to_string()
    );
    assert!(is_repairable(FindingClass::OrphanFile));
    assert!(!is_repairable(FindingClass::MissingBlockRecord));
}

#[test]
fn a_summary_counts_its_outcomes() {
    let outcomes = vec![
        RepairOutcome::new("set_rc", RepairStatus::Applied, "rc 2 -> 1".to_string()),
        RepairOutcome::new("set_rc", RepairStatus::Failed, "no".to_string()),
        RepairOutcome::new("delete_orphan", RepairStatus::Applied, "gone".to_string()),
        RepairOutcome::new("delete_orphan", RepairStatus::Skipped, "was gone".to_string())
            .with_path("/data/blocks/x"),
    ];
    let summary = RepairSummary::new(outcomes, Report::new(store_ref(), vec![], vec![]));
    assert_eq!(summary.counts, RepairCounts { applied: 2, skipped: 1, failed: 1, total: 4 });
    let text = summary.render_text();
    assert!(text.contains("2 applied, 1 skipped, 1 failed"), "{text}");
    assert!(text.contains("FAILED set_rc"), "{text}");
    assert!(text.contains("    path: /data/blocks/x"), "{text}");
    assert!(text.contains("no findings"), "{text}");

    let idle = RepairSummary::new(Vec::new(), Report::new(store_ref(), vec![], vec![]));
    assert!(idle.render_text().contains("nothing to repair"));
    for status in [RepairStatus::Applied, RepairStatus::Skipped, RepairStatus::Failed] {
        assert_eq!(status.as_str(), status.as_str().to_lowercase());
    }
}

#[test]
fn an_outcome_names_what_its_action_was_about() {
    let block = BlockId::from([9u8; BLOCKID_SIZE]);
    let action = RepairAction::DeleteOrphan { block, path: "/data/blocks/x".to_string() };
    let outcome = action.outcome(Ok(Done::Applied("done".to_string())));
    assert_eq!(outcome.action, "delete_orphan");
    assert_eq!(outcome.status, RepairStatus::Applied);
    assert_eq!(outcome.block, Some(block.to_hex()));
    assert_eq!(outcome.path.as_deref(), Some("/data/blocks/x"));
    assert_eq!(outcome.detail, "done");

    let failed = action.outcome(Err("denied".to_string()));
    assert_eq!(failed.status, RepairStatus::Failed);

    let reap = RepairAction::ReapOrphanPart {
        bucket: "b".to_string(),
        key: "k".to_string(),
        upload_id: "u".to_string(),
        part_number: 1,
        storage_key: vec![0x00, 0x01],
    };
    let skipped = reap.outcome(Ok(Done::Skipped("gone".to_string())));
    assert_eq!(skipped.path.as_deref(), Some("0001"));
    assert_eq!(skipped.block, None);
}

#[test]
fn a_quarantined_file_overwrites_nothing() {
    let root = "/data/blocks";
    assert_eq!(quarantine_dest(root, "README", &vec![]), "/data/blocks/.quarantine/README");
    let taken = vec!["README".to_string(), "README.1".to_string()];
    assert_eq!(quarantine_dest(root, "README", &taken), "/data/blocks/.quarantine/README.2");
}

#[test]
fn id_maps_keep_their_keys_in_order() {
    let low = BlockId::from([1u8; BLOCKID_SIZE]);
    let mid = BlockId::from([2u8; BLOCKID_SIZE]);
    let high = BlockId::from([3u8; BLOCKID_SIZE]);
    let mut map: IdMap<u64> = IdMap::new();
    assert!(map.is_empty());
    map.insert(high, 3);
    map.insert(low, 1);
    map.insert(mid, 2);
    map.insert(mid, 20);
    assert_eq!(map.len(), 3);
    assert_eq!(map.key_at(0), low);
    assert_eq!(map.key_at(2), high);
    assert_eq!(map.get(&mid), Some(&20));
    assert!(!map.contains_key(&BlockId::from([4u8; BLOCKID_SIZE])));
}

#[test]
fn the_errors_name_what_failed() {
    let meta = || MetaError::OtherDBError("disk on fire".to_string());
    for (text, start) in [
        (ScrubError::Records(meta()).to_string(), "the block records could not be read: "),
        (ScrubError::Disk("denied".to_string()).to_string(), "the blocks root could not be walked: "),
        (ScrubError::Buckets(meta()).to_string(), "the bucket list could not be read: "),
        (
            RepairError::Scrub(ScrubError::Disk("denied".to_string())).to_string(),
            "the post-repair scrub could not run: the blocks root could not be walked: denied",
        ),
        (RepairError::Store(meta()).to_string(), "the metadata store could not be read: "),
        (RepairError::Disk("denied".to_string()).to_string(), "the blocks root could not be walked: "),
    ] {
        assert!(text.starts_with(start), "{text}");
    }
    let refused = HolderEnumerationError::Store { tree: Some("photos".to_string()), source: meta() };
    assert!(
        refused.to_string().starts_with(
            "holder enumeration incomplete: tree photos could not be walked: "
        ),
        "{}",
        refused.to_string()
    );
    let unlisted = HolderEnumerationError::Store { tree: None, source: meta() };
    assert!(unlisted.to_string().contains("would not list its trees"));
    let damaged = HolderEnumerationError::UndecodableRecord {
        tree: "photos".to_string(),
        key: "k".to_string(),
        source: MetaError::Corruption(FsError::InvalidIdWidth(3)),
    };
    assert!(damaged.to_string().contains("record k in tree photos does not decode: "));
    assert!(RepairError::Holders(damaged).to_string().ends_with("re-run fsck"));
}

#[test]
fn the_corruption_scrub_is_asked_for() {
    assert_eq!(ScrubOptions::default(), ScrubOptions::metadata_only());
    assert!(!ScrubOptions::metadata_only().scrub);
    assert!(ScrubOptions::full().scrub);
    assert_eq!(REPORT_VERSION, 1);
}

/// Both databases are checked, and they are the two paths the store actually
/// builds: checking only the first would pass a store whose block metadata is
/// missing.
#[test]
fn a_missing_store_is_refused_by_the_path_that_is_missing() {
    let err = refuse_unless_store_exists("/srv/meta", &[StoreInit::Create, StoreInit::Create])
        .unwrap_err();
    assert!(err.contains("no store at"), "{err}");
    assert!(err.ends_with("db"), "the message names the database path: {err}");

    let dbs = store_databases("/srv/meta");
    assert!(dbs[0].ends_with("db"));
    assert!(dbs[1].ends_with("blocks/.db"));
    assert_eq!(dbs[0], "/srv/meta/db");

    let err =
        refuse_unless_store_exists("/srv/meta", &[StoreInit::Open, StoreInit::Create]).unwrap_err();
    assert_eq!(err, "no store at /srv/meta/blocks/.db");
    assert_eq!(refuse_unless_store_exists("/srv/meta", &[StoreInit::Open, StoreInit::Open]), Ok(()));
}

#[test]
fn a_re_pair_needs_both_roots() {
    let root = || Some("/srv".to_string());
    assert_eq!(
        re_pair_roots(root(), Some("/data".to_string())),
        Ok(("/srv".to_string(), "/data".to_string()))
    );
    for roots in [(root(), None), (None, root()), (None, None)] {
        assert_eq!(re_pair_roots(roots.0, roots.1), Err(RE_PAIR_ROOTS.to_string()));
    }
}
