use std::collections::{BTreeMap, BTreeSet};
use std::time::{SystemTime, UNIX_EPOCH};

use cas_storage::cas::multipart::MultiPart;
use cas_storage::cas::SharedBlockStore;
use cas_storage::hasher::Hasher;
use cas_storage::metastore::meta_store::{
    MetaStore, DEFAULT_BLOCK_TREE, DEFAULT_BUCKET_TREE, MULTIPART_PARTS_TREE, UPLOADS_TREE,
};
use cas_storage::metastore::stores::memory::MemStore;
use cas_storage::metastore::traits::BaseMetaTree;
use cas_storage::metastore::{
    block_disk_path, Block, BlockId, BucketMeta, ContentHash, Object, ObjectData, UploadRecord,
    MAX_BLOCKID_SIZE,
};
use cas_storage::scrub::disk::{DirItem, ItemKind};
use cas_storage::scrub::engine::Sightings;
use cas_storage::scrub::passes::{
    bucket_integrity, corruption_scrub, dangling_sweep, disk_sweep, multipart_report,
    multipart_report_at, record_paths, recount,
};
use cas_storage::scrub::repair::actions::{
    after_unlink, delete_unreferenced, set_rc, Moved, RecordStep, Unlinked,
};
use cas_storage::scrub::repair::adopt::{AdoptStep, Adoption, FileTask, Read};
use cas_storage::scrub::repair::apply::ApplyStep;
use cas_storage::scrub::repair::quarantine::quarantine_dest;
use cas_storage::scrub::repair::run::Wants;
use cas_storage::scrub::repair::{ActionResult, Done};
use cas_storage::scrub::{
    exit_code, expected_counts, holders_of, repair, run, walk_disk, walk_records, DiskWalk,
    Finding, FindingClass, HolderEnumerationError, HolderRef, Pass, RepairAction, RepairContext,
    RepairOutcome, RepairStatus, RepairSummary, Report, ScrubContext, ScrubOptions, Severity,
};

const ROOT: &str = "/data/blocks";

/// A store in memory: two databases, and the files under the blocks root.
struct World {
    ctx: RepairContext<MemStore, MemStore>,
    files: BTreeMap<String, Vec<u8>>,
    dirs: BTreeSet<String>,
}

fn store() -> World {
    let namespace = MetaStore::new(MemStore::new(), Some(1));
    let blocks = MetaStore::new(MemStore::new(), Some(1));
    let shared = SharedBlockStore::new(blocks, ROOT.to_string(), Hasher::Blake3W32);
    let mut dirs = BTreeSet::new();
    dirs.insert(at(".tmp"));
    World { ctx: RepairContext::new(namespace, shared), files: BTreeMap::new(), dirs }
}

fn unix_now() -> i64 {
    SystemTime::now().duration_since(UNIX_EPOCH).unwrap().as_secs() as i64
}

fn at(name: &str) -> String {
    format!("{ROOT}/{name}")
}

fn synthetic_id(seed: u8) -> BlockId {
    BlockId::from([seed; MAX_BLOCKID_SIZE])
}

fn block_path(id: &BlockId, depth: u8) -> String {
    block_disk_path(id, depth, ROOT.to_string())
}

impl World {
    fn scrub(&self) -> ScrubContext<'_, MemStore, MemStore> {
        self.ctx.scrub_context()
    }

    fn create_bucket(&mut self, name: &str) {
        let record = BucketMeta::new(name.to_string()).to_vec();
        self.ctx.namespace.insert_bucket(name, record).unwrap();
    }

    /// Stores the block of some bytes: a second holder bumps its record, the
    /// first one writes it and its file.
    fn put_block(&mut self, data: &[u8]) -> BlockId {
        let id = self.ctx.shared.hasher().hash(data);
        let mut tx = self.ctx.shared.meta.begin_transaction();
        if tx.bump_block_rc(id).unwrap().is_none() {
            tx.insert_new_block(id, data.len(), 1).unwrap();
            self.files.insert(block_path(&id, 1), data.to_vec());
        }
        tx.commit().unwrap();
        id
    }

    fn put(&mut self, bucket: &str, key: &str, data: Vec<u8>) -> BlockId {
        let id = self.put_block(&data);
        self.plant_object(bucket, key, vec![id]);
        id
    }

    /// Writes an object record naming exactly `blocks`, without writing any of
    /// them: the counting rule is about the record, not the bytes.
    fn plant_object(&mut self, bucket: &str, key: &str, blocks: Vec<BlockId>) {
        let object =
            Object::new(1024, ContentHash::from([7u8; 16]), ObjectData::SinglePart { blocks });
        self.ctx.namespace.insert_meta(bucket, key, object.to_vec()).unwrap();
    }

    fn plant_row(&mut self, tree: &str, key: &[u8], value: Vec<u8>) {
        self.ctx.shared.meta.get_tree(tree).unwrap().insert(key, value).unwrap();
    }

    fn plant_object_row(&mut self, tree: &str, key: &[u8], value: Vec<u8>) {
        self.ctx.namespace.get_tree(tree).unwrap().insert(key, value).unwrap();
    }

    fn plant_record(&mut self, id: BlockId, record: &Block) {
        let mut tx = self.ctx.shared.meta.begin_transaction();
        tx.put_block_record(id, record).unwrap();
        tx.commit().unwrap();
    }

    /// A record whose file is nowhere.
    fn plant_dangling_record(&mut self, id: BlockId, depth: u8) {
        self.plant_record(id, &Block::new(1234, depth));
    }

    /// A record that is known to have lost its file.
    fn plant_degraded_record(&mut self, id: BlockId, depth: u8, rc: usize, size: usize) {
        let mut record = Block::from_parts(size, depth, rc, 0);
        record.set_degraded(true);
        self.plant_record(id, &record);
    }

    fn move_rc(&mut self, id: BlockId, to: usize) {
        let old = self.record(id).expect("the record must exist");
        self.plant_record(id, &Block::from_parts(old.size(), old.depth(), to, old.flags()));
    }

    fn plant_inflated_rc(&mut self, id: BlockId, by: usize) {
        let rc = self.rc(id);
        self.move_rc(id, rc + by);
    }

    fn plant_deflated_rc(&mut self, id: BlockId, by: usize) {
        let rc = self.rc(id);
        self.move_rc(id, rc - by);
    }

    fn plant_orphan_file(&mut self, id: &BlockId, depth: u8, bytes: &[u8]) {
        self.files.insert(block_path(id, depth), bytes.to_vec());
    }

    fn plant_upload_record(&mut self, bucket: &str, key: &str, upload_id: &str, created_at: i64) {
        let record = UploadRecord::with_created_at(
            created_at,
            bucket.to_string(),
            key.to_string(),
            upload_id.to_string(),
        );
        let at = format!("\u{1}{bucket}\u{1}{key}\u{1}{upload_id}");
        self.plant_row(UPLOADS_TREE, at.as_bytes(), record.to_vec());
    }

    /// Files a part record under a key that is no printable text.
    #[allow(clippy::too_many_arguments)]
    fn insert_multipart_part(
        &mut self,
        bucket: &str,
        key: &str,
        size: usize,
        part_number: i64,
        upload_id: &str,
        blocks: Vec<BlockId>,
    ) {
        let part = MultiPart::new(
            size,
            part_number,
            bucket.to_string(),
            key.to_string(),
            upload_id.to_string(),
            ContentHash::from([1u8; 16]),
            blocks,
        );
        let at = part_key(bucket, key, upload_id, part_number);
        self.plant_row(MULTIPART_PARTS_TREE, &at, part.to_vec());
    }

    /// Plants one part record of `upload_id`, naming one synthetic block.
    fn plant_part(&mut self, key: &str, upload_id: &str, part_number: i64, size: usize) {
        let block = synthetic_id(0xd0u8.wrapping_add(part_number as u8));
        self.insert_multipart_part("b", key, size, part_number, upload_id, vec![block]);
    }

    /// Stores one part: its block first, then the part record.
    fn put_part(&mut self, key: &str, upload_id: &str, part_number: i64, data: Vec<u8>) -> Vec<BlockId> {
        let blocks = vec![self.put_block(&data)];
        let held = blocks.clone();
        self.insert_multipart_part("b", key, data.len(), part_number, upload_id, held);
        blocks
    }

    fn parts(&self) -> usize {
        let tree = self.ctx.shared.meta.find_tree(MULTIPART_PARTS_TREE).unwrap();
        tree.map_or(0, |t| t.len().unwrap())
    }

    /// Removes a bucket's row and leaves its objects.
    fn plant_half_deleted_bucket(&mut self, name: &str) {
        let buckets = self.ctx.namespace.get_tree(DEFAULT_BUCKET_TREE).unwrap();
        buckets.remove(name.as_bytes()).unwrap();
    }

    fn has_tree(&self, name: &str) -> bool {
        self.ctx.namespace.list_trees().unwrap().iter().any(|tree| tree == name)
    }

    fn record(&self, id: BlockId) -> Option<Block> {
        self.ctx.shared.meta.find_block_tree().unwrap().get_block(id.as_slice()).unwrap()
    }

    fn rc(&self, id: BlockId) -> usize {
        self.record(id).expect("the record must exist").rc()
    }

    fn recorded_path(&self, id: BlockId) -> String {
        block_path(&id, self.record(id).expect("the record must exist").depth())
    }

    fn is_file(&self, path: &str) -> bool {
        self.files.contains_key(path)
    }

    fn misplace_block_file(&mut self, id: &BlockId, from: u8, to: u8) {
        let bytes = self.files.remove(&block_path(id, from)).unwrap();
        self.files.insert(block_path(id, to), bytes);
    }

    /// The entries of a directory, in name order.
    fn list(&self, dir: &str) -> Vec<DirItem> {
        let start = format!("{dir}/");
        let mut names: BTreeSet<String> = BTreeSet::new();
        for path in self.files.keys().chain(self.dirs.iter()) {
            if let Some(rest) = path.strip_prefix(&start) {
                names.insert(rest.split('/').next().unwrap().to_string());
            }
        }
        let mut items = Vec::new();
        for name in names {
            let path = format!("{dir}/{name}");
            let kind = match self.files.get(&path) {
                Some(bytes) => ItemKind::File(bytes.len() as u64),
                None => ItemKind::Dir(self.list(&path)),
            };
            items.push(DirItem { path, name: Some(name), kind });
        }
        items
    }

    fn disk(&self) -> DiskWalk {
        let ctx = self.scrub();
        walk_disk(&ctx, &self.list(ROOT), &ctx.store_own_paths())
    }

    fn present(&self) -> Vec<bool> {
        let records = walk_records(&self.scrub()).unwrap();
        record_paths(&records, ROOT).iter().map(|path| self.is_file(path)).collect()
    }

    fn rotten(&self, disk: &DiskWalk) -> Vec<Finding> {
        let ctx = self.scrub();
        disk.files
            .iter()
            .filter_map(|file| corruption_scrub(&ctx, file, &Ok(self.files[&file.path].clone())))
            .collect()
    }

    fn look(&self, options: ScrubOptions) -> Sightings {
        let records = walk_records(&self.scrub()).unwrap();
        let disk = self.disk();
        let rotten = if options.scrub { self.rotten(&disk) } else { Vec::new() };
        Sightings { records, disk, present: self.present(), rotten }
    }

    fn report(&self, options: ScrubOptions) -> Report {
        run(&self.scrub(), &options, &self.look(options)).unwrap()
    }

    fn unlink(&mut self, path: &str) -> Unlinked {
        match self.files.remove(path) {
            Some(_) => Unlinked::Removed,
            None => Unlinked::Missing,
        }
    }

    fn quarantine(&mut self, path: &str) -> Moved {
        let Some(bytes) = self.files.remove(path) else {
            return Moved::Absent;
        };
        let dir = at(".quarantine/");
        let taken = self.files.keys().filter_map(|p| p.strip_prefix(&dir)).map(String::from).collect();
        let base = path.rsplit('/').next().unwrap();
        let dest = quarantine_dest(ROOT, base, &taken);
        self.files.insert(dest.clone(), bytes);
        Moved::To(dest)
    }

    fn task(&mut self, adoption: Adoption, task: FileTask) -> AdoptStep {
        match task {
            FileTask::Stat(path) => {
                let found = self.is_file(&path);
                adoption.after_stat(&mut self.ctx.shared, found)
            }
            FileTask::Read(path) => {
                let read = match self.files.get(&path) {
                    Some(bytes) => Read::Bytes(bytes.clone()),
                    None => Read::Missing,
                };
                adoption.after_read(&mut self.ctx.shared, read)
            }
            FileTask::Quarantine(path) => {
                let moved = match self.quarantine(&path) {
                    Moved::To(dest) => Ok(dest),
                    other => Err(format!("{other:?}")),
                };
                adoption.after_move(&mut self.ctx.shared, moved)
            }
            FileTask::Unlink(path) => {
                let reply = self.unlink(&path);
                adoption.after_unlink(&mut self.ctx.shared, &reply)
            }
        }
    }

    /// Applies one action to the end.
    fn apply(&mut self, action: &RepairAction) -> (Vec<RepairOutcome>, ActionResult) {
        let mut extra = Vec::new();
        let mut freed = Vec::new();
        let step = action.apply(&mut self.ctx, &mut extra, &mut freed);
        for path in freed {
            self.files.remove(&path);
        }
        let result = match step {
            ApplyStep::Finished(result) => result,
            ApplyStep::Unlink { path, detail } => {
                let reply = self.unlink(&path);
                after_unlink(&path, detail, &reply)
            }
            ApplyStep::Delete(path) => {
                let reply = self.unlink(&path);
                delete_unreferenced(&path, &reply)
            }
            ApplyStep::Quarantine(path) => {
                let moved = self.quarantine(&path);
                action.after_quarantine(&mut self.ctx, &moved)
            }
            ApplyStep::Adopting(mut step) => loop {
                match step {
                    AdoptStep::Finished(result) => break result,
                    AdoptStep::Wants(adoption, task) => step = self.task(adoption, task),
                }
            },
        };
        (extra, result)
    }

    fn repair(&mut self, report: &Report, options: ScrubOptions) -> RepairSummary {
        let mut going = repair(&self.scrub(), report).unwrap();
        loop {
            going = match going.wants() {
                Wants::Apply(action) => {
                    // The run is borrowed by the action, so the outcome is taken
                    // before the run goes on.
                    let (extra, result) = self.apply(action);
                    going.applied(&self.scrub(), report, extra, result).unwrap()
                }
                Wants::Look => {
                    let seen = self.look(ScrubOptions::metadata_only());
                    going.looked(&self.scrub(), report, &seen).unwrap()
                }
                Wants::Check => {
                    let post = run(&self.scrub(), &options, &self.look(options));
                    return going.checked(post).unwrap();
                }
            };
        }
    }

    /// The tool's workflow: report first, repair second, check third.
    fn report_and_repair(&mut self, options: ScrubOptions) -> RepairSummary {
        let report = self.report(options);
        self.repair(&report, options)
    }

    /// Every record and every block file: the end state two runs of an
    /// idempotent repair must agree on.
    fn snapshot(&self) -> (Vec<(String, usize, u8, usize, bool)>, Vec<(String, u64)>) {
        let walk = walk_records(&self.scrub()).unwrap();
        let records = (0..walk.records.len())
            .map(|i| {
                let block = walk.records.value_at(i);
                let id = walk.records.key_at(i).to_hex();
                (id, block.rc(), block.depth(), block.size(), block.is_degraded())
            })
            .collect();
        let files = self.disk().files.into_iter().map(|file| (file.path, file.size)).collect();
        (records, files)
    }
}

fn part_key(bucket: &str, key: &str, upload_id: &str, part_number: i64) -> Vec<u8> {
    format!("\u{1}{bucket}\u{1}{key}\u{1}{upload_id}\u{1}{part_number:08}").into_bytes()
}

/// Finds the one finding of `class`, or fails loudly.
fn only(findings: &[Finding], class: FindingClass) -> &Finding {
    let mut hits = findings.iter().filter(|f| f.class == class);
    let first = hits.next().unwrap_or_else(|| panic!("no {class:?} in {findings:#?}"));
    assert!(hits.next().is_none(), "more than one {class:?}");
    first
}

fn classes(report: &Report, class: FindingClass) -> Vec<&Finding> {
    report.findings.iter().filter(|f| f.class == class).collect()
}

/// The outcomes of one kind, for asserting on what an action said.
fn of_kind<'a>(summary: &'a RepairSummary, kind: &str) -> Vec<&'a RepairOutcome> {
    summary.outcomes.iter().filter(|outcome| outcome.action == kind).collect()
}

fn names(finding: &Finding, id: &BlockId) -> bool {
    finding.block == Some(id.to_hex())
}

// The walks.

#[test]
fn an_empty_store_walks_clean() {
    let world = store();
    let ctx = world.scrub();
    assert!(expected_counts(&ctx).unwrap().is_empty());

    let records = walk_records(&ctx).unwrap();
    assert!(records.records.is_empty());
    assert!(records.findings.is_empty());

    let disk = world.disk();
    assert!(disk.files.is_empty());
    assert!(disk.foreign.is_empty(), "the store's own .tmp is not foreign: {:?}", disk.foreign);
}

/// The counting rule: per occurrence. A block in two objects counts twice, and a
/// block listed twice in ONE object also counts twice.
#[test]
fn expected_counts_count_every_occurrence() {
    let mut world = store();
    world.create_bucket("photos");
    world.create_bucket("videos");

    let shared_data = b"deduplicated across two objects".repeat(8).to_vec();
    let id = world.put("photos", "a", shared_data.clone());
    // Same content in another bucket: one block, two references.
    world.put("videos", "b", shared_data);

    // A record that names the same block twice, plus a distinct one.
    let twice = synthetic_id(0x41);
    let once = synthetic_id(0x42);
    world.plant_object("photos", "doubled", vec![twice, twice, once]);

    // An inline object holds bytes, not references: it must count nothing.
    let inline = Object::new(
        6,
        ContentHash::from([2u8; 16]),
        ObjectData::Inline { data: b"inline".to_vec() },
    );
    world.ctx.namespace.insert_meta("photos", "small", inline.to_vec()).unwrap();

    let counts = expected_counts(&world.scrub()).unwrap();
    assert_eq!(counts.get(&id), Some(&2), "one block, two objects");
    assert_eq!(counts.get(&twice), Some(&2), "twice in one object is two");
    assert_eq!(counts.get(&once), Some(&1));
    assert_eq!(counts.len(), 3, "the inline object adds nothing: {counts:?}");
}

/// Part records are holders too, and unconditionally.
#[test]
fn multipart_part_records_are_counted_as_holders() {
    let mut world = store();
    world.create_bucket("b");

    let first = synthetic_id(0x51);
    let second = synthetic_id(0x52);
    world.insert_multipart_part("b", "big", 2048, 1, "upload-1", vec![first, second]);
    world.insert_multipart_part("b", "big", 2048, 2, "upload-1", vec![second]);

    let counts = expected_counts(&world.scrub()).unwrap();
    assert_eq!(counts.get(&first), Some(&1));
    assert_eq!(counts.get(&second), Some(&2), "referenced by both parts");
}

/// One object record that will not decode takes the whole enumeration down,
/// naming the tree and key so an operator can go look.
#[test]
fn an_undecodable_object_record_refuses_the_enumeration() {
    let mut world = store();
    world.create_bucket("photos");
    world.put("photos", "good", b"a real object".repeat(4).to_vec());

    // Raw garbage where an object record belongs.
    world.plant_object_row("photos", b"broken", vec![0xffu8; 8]);

    let ctx = world.scrub();
    match expected_counts(&ctx).unwrap_err() {
        HolderEnumerationError::UndecodableRecord { tree, key, .. } => {
            assert_eq!(tree, "photos");
            assert_eq!(key, "broken");
        }
        other => panic!("expected an undecodable-record refusal, got {other:?}"),
    }

    // The blast-radius walk refuses on the same ground.
    assert!(holders_of(&ctx, &vec![synthetic_id(1)]).is_err());

    // The message names both, because that is what the operator needs.
    let msg = expected_counts(&ctx).unwrap_err().to_string();
    assert!(msg.contains("photos"), "{msg}");
    assert!(msg.contains("broken"), "{msg}");
}

/// The blast radius: every holder of a damaged block, objects and parts alike. A
/// holder that references the block twice is still one holder.
#[test]
fn holders_of_names_every_holder_once() {
    let mut world = store();
    world.create_bucket("photos");

    let data = b"shared bytes".repeat(16).to_vec();
    let id = world.put("photos", "live", data);
    world.plant_object("photos", "doubled", vec![id, id]);
    world.insert_multipart_part("photos", "upload-target", 512, 3, "u-9", vec![id]);

    // A block nothing references at all.
    let lonely = synthetic_id(0x77);

    let ctx = world.scrub();
    let holders = holders_of(&ctx, &vec![id, lonely]).unwrap();

    let for_id = holders.get(&id).expect("the block has holders");
    assert_eq!(for_id.len(), 3, "two objects and one part: {for_id:?}");
    assert!(for_id.contains(&HolderRef::Object {
        bucket: "photos".to_string(),
        key: "live".to_string(),
    }));
    assert!(
        for_id.contains(&HolderRef::Object {
            bucket: "photos".to_string(),
            key: "doubled".to_string(),
        }),
        "a holder that references the block twice appears once"
    );
    assert!(for_id.contains(&HolderRef::Part {
        bucket: "photos".to_string(),
        key: "upload-target".to_string(),
        upload_id: "u-9".to_string(),
        part_number: 3,
    }));

    assert!(!holders.contains_key(&lonely), "a block with no holders is absent, not empty");
    // Asking for nothing walks nothing.
    assert!(holders_of(&ctx, &Vec::new()).unwrap().is_empty());
}

/// Record damage is a finding, not a refusal. The finding must name the record.
#[test]
fn the_record_walk_reports_damage_and_keeps_going() {
    let mut world = store();
    world.create_bucket("b");
    let good = world.put("b", "k", b"a real block".repeat(20).to_vec());

    // A record that does not decode, under a well-formed address.
    let broken = synthetic_id(0x61);
    world.plant_row(DEFAULT_BLOCK_TREE, broken.as_slice(), vec![0x01u8; 3]);
    // A key that is not an address at all.
    world.plant_row(DEFAULT_BLOCK_TREE, b"not-an-address", vec![0u8; 18]);

    let walk = walk_records(&world.scrub()).unwrap();
    assert_eq!(walk.records.len(), 1, "the good record still decodes");
    assert!(walk.records.contains_key(&good));

    assert_eq!(walk.findings.len(), 2);
    for finding in &walk.findings {
        assert_eq!(finding.severity, Severity::Critical);
        assert_eq!(finding.class, FindingClass::UndecodableBlockRecord);
    }
    assert!(
        walk.findings.iter().any(|f| names(f, &broken)),
        "the damaged record must be named: {:?}",
        walk.findings
    );
}

/// For every file the disk walk yields, the path builder rebuilds the path it
/// was found at.
#[test]
fn disk_walk_depth_round_trips_with_block_disk_path() {
    let mut world = store();
    for depth in 1u8..=4 {
        let id = synthetic_id(0x10 + depth);
        world.plant_orphan_file(&id, depth, b"orphan bytes");
    }

    let walk = world.disk();
    assert_eq!(walk.files.len(), 4);
    assert!(walk.foreign.is_empty(), "{:?}", walk.foreign);
    for file in &walk.files {
        assert_eq!(
            file.path,
            block_path(&file.id, file.depth),
            "the walker's (id, depth) must rebuild the path it came from"
        );
        assert_eq!(file.size, b"orphan bytes".len() as u64);
    }

    let mut depths: Vec<u8> = walk.files.iter().map(|f| f.depth).collect();
    depths.sort_unstable();
    assert_eq!(depths, vec![1, 2, 3, 4]);
}

/// One id at two depths is two files, both reported.
#[test]
fn disk_walk_yields_both_copies_of_a_block_at_two_depths() {
    let mut world = store();
    let id = synthetic_id(0x33);
    world.plant_orphan_file(&id, 1, b"shallow");
    world.plant_orphan_file(&id, 3, b"deeper copy");

    let walk = world.disk();
    assert_eq!(walk.files.len(), 2);
    assert!(walk.files.iter().all(|f| f.id == id));
    let mut depths: Vec<u8> = walk.files.iter().map(|f| f.depth).collect();
    depths.sort_unstable();
    assert_eq!(depths, vec![1, 3]);
}

fn foreign_names(walk: &DiskWalk) -> Vec<String> {
    walk.foreign.iter().map(|f| f.path.strip_prefix("/data/blocks/").unwrap().to_string()).collect()
}

/// Everything the layout does not produce is foreign: reported, never mistaken
/// for a block.
#[test]
fn disk_walk_refuses_everything_that_is_not_this_layout() {
    let mut world = store();
    // An address whose hex has letters in it, so the uppercase case below really
    // is a different name.
    let id = synthetic_id(0xab);
    let hex = id.to_hex();

    // A well-formed block, to prove the rejections are selective.
    world.plant_orphan_file(&id, 2, b"the real one");

    // A valid name directly under the root: no record can ever name it.
    world.files.insert(at(&hex), b"unreachable".to_vec());
    // Directories that are not fanout levels.
    world.dirs.insert(at("zz"));
    world.dirs.insert(at("abc"));
    // A valid name under someone else's chain.
    world.files.insert(at(&format!("cd/{hex}")), b"misfiled".to_vec());
    // Uppercase hex is not what the writer produces.
    world.files.insert(at(&format!("ab/{}", hex.to_uppercase())), b"shouty".to_vec());
    // A name that is not hex at all.
    world.files.insert(at("ab/README"), b"notes".to_vec());

    let walk = world.disk();
    assert_eq!(walk.files.len(), 1, "only the real block: {:?}", walk.files);
    assert_eq!(walk.files[0].id, id);
    assert_eq!(walk.files[0].depth, 2);

    let foreign = foreign_names(&walk);
    assert_eq!(foreign.len(), 6, "{foreign:?}");
    for expected in [
        hex.clone(),
        "zz".to_string(),
        "abc".to_string(),
        format!("cd/{hex}"),
        format!("ab/{}", hex.to_uppercase()),
        "ab/README".to_string(),
    ] {
        assert!(foreign.contains(&expected), "{expected} missing: {foreign:?}");
    }

    // Every foreign entry renders as a WARN finding carrying its path.
    for entry in &walk.foreign {
        let finding = entry.to_finding();
        assert_eq!(finding.severity, Severity::Warn);
        assert_eq!(finding.class, FindingClass::ForeignFile);
        assert!(finding.path.is_some());
    }
}

/// The store's own entries are skipped at the top level, and nowhere else. The
/// exact skip table is the assertion.
#[test]
fn the_stores_own_entries_are_skipped_only_at_the_root() {
    let mut world = store();
    world.files.insert(at(".tmp/half-written"), b"torn".to_vec());
    world.files.insert(at(".quarantine/corrupt-block"), b"bad".to_vec());
    world.files.insert(at(".store-id"), b"mine".to_vec());
    world.files.insert(at(".db/version"), b"3".to_vec());

    // The same names nested under a fanout directory are just junk.
    world.dirs.insert(at("ab/.tmp"));
    world.dirs.insert(at("ab/.quarantine"));
    world.dirs.insert(at("ab/.db"));
    world.files.insert(at("ab/.store-id"), b"not mine".to_vec());

    let walk = world.disk();
    assert!(walk.files.is_empty());
    let mut foreign = foreign_names(&walk);
    foreign.sort();
    assert_eq!(
        foreign,
        vec![
            "ab/.db".to_string(),
            "ab/.quarantine".to_string(),
            "ab/.store-id".to_string(),
            "ab/.tmp".to_string(),
        ],
        "exactly the four names, and only below the root"
    );
}

/// One root for both halves of the store puts the shared block database and its
/// header copy INSIDE the blocks root, where the disk walk runs. They are the
/// store's own files.
#[test]
fn the_stores_own_database_inside_the_blocks_root_is_not_foreign() {
    let mut world = store();
    world.files.insert(at(".db/version"), b"3".to_vec());
    world.files.insert(at("store_header.bin"), vec![0; 32]);
    let blind = world.disk();
    world.ctx.meta_root = Some("/data".to_string());

    let walk = world.disk();
    assert!(walk.files.is_empty());
    assert!(
        walk.foreign.is_empty(),
        "the store's own metadata is not residue: {:?}",
        walk.foreign
    );

    // The rule is exactly the opener's knowledge: a context that was not told
    // which meta root it opened cannot know, and says so by reporting them.
    assert!(
        !blind.foreign.is_empty(),
        "without a meta root there is nothing to compare against"
    );
}

/// A block whose hash begins with 0xdb fans out to `blocks/db`, which is a
/// fanout directory like any other.
#[test]
fn the_db_fanout_directory_is_walked_like_any_other() {
    let mut world = store();
    world.ctx.meta_root = Some("/data".to_string());
    world.files.insert(at(".db/version"), b"3".to_vec());

    let id = synthetic_id(0xdb);
    world.plant_orphan_file(&id, 1, b"lives in the db fanout dir");

    let walk = world.disk();
    assert!(
        walk.files.iter().any(|f| f.id == id),
        "the 0xdb block must be visible to the walk: {:?}",
        walk.files
    );
    assert!(walk.foreign.is_empty(), "nothing planted here is foreign: {:?}", walk.foreign);
}

/// Records without a file are seen by the record walk only.
#[test]
fn fileless_records_show_up_in_the_record_walk_only() {
    let mut world = store();
    let dangling = synthetic_id(0x81);
    let degraded = synthetic_id(0x82);
    world.plant_dangling_record(dangling, 1);
    world.plant_degraded_record(degraded, 2, 4, 4096);

    let walk = walk_records(&world.scrub()).unwrap();
    assert!(walk.findings.is_empty(), "both records decode fine");
    assert_eq!(walk.records.len(), 2);
    assert!(!walk.records.get(&dangling).unwrap().is_degraded());
    let degraded_record = walk.records.get(&degraded).unwrap();
    assert!(degraded_record.is_degraded());
    assert_eq!(degraded_record.rc(), 4, "its holders stay counted");

    assert!(world.disk().files.is_empty(), "neither residue class has a file");
}

/// Files that were renamed into place before their records were committed are
/// orphans and nothing else; recording them where they lie heals the store.
#[test]
fn a_batch_killed_before_its_commit_is_a_batch_of_ordinary_orphans() {
    const BATCH: usize = 16;
    let mut world = store();
    world.create_bucket("b");

    let batch: Vec<(BlockId, u8, Vec<u8>)> = (0..BATCH)
        .map(|i| {
            let bytes = format!("killed batch block {i} ").repeat(16).into_bytes();
            let id = world.ctx.shared.hasher().hash(&bytes);
            (id, if i % 2 == 0 { 1 } else { 2 }, bytes)
        })
        .collect();
    for (id, depth, bytes) in &batch {
        world.plant_orphan_file(id, *depth, bytes);
    }

    let report = world.report(ScrubOptions::full());
    let orphans = classes(&report, FindingClass::OrphanFile);
    assert_eq!(orphans.len(), BATCH, "{}", report.render_text());
    assert_eq!(report.findings.len(), BATCH, "{}", report.render_text());
    assert!(report.findings.iter().all(|f| f.severity != Severity::Critical));
    for (id, _, _) in &batch {
        assert!(orphans.iter().any(|f| names(f, id)), "fsck must name the orphan {}", id.to_hex());
    }

    for (i, (id, depth, bytes)) in batch.iter().enumerate() {
        world.plant_record(*id, &Block::new(bytes.len(), *depth));
        world.plant_object("b", &format!("retry-{i}"), vec![*id]);
    }
    let healed = world.report(ScrubOptions::full());
    assert!(healed.findings.is_empty(), "{}", healed.render_text());
}

// The passes.

#[test]
fn recount_reports_both_directions_and_the_missing_record() {
    let mut world = store();
    world.create_bucket("b");

    // Two objects, one block: rc 2, holders 2. Clean.
    let clean = world.put("b", "one", b"clean block".repeat(20).to_vec());
    world.put("b", "two", b"clean block".repeat(20).to_vec());

    // A record nothing references.
    let leaked = synthetic_id(0x91);
    world.plant_dangling_record(leaked, 1);

    // A holder referencing a block that has no record at all.
    let vanished = synthetic_id(0x92);
    world.plant_object("b", "points-nowhere", vec![vanished]);

    // An under-count: three holders, a record that says one.
    let under = synthetic_id(0x93);
    world.plant_dangling_record(under, 1);
    world.plant_object("b", "u1", vec![under, under, under]);

    let ctx = world.scrub();
    let records = walk_records(&ctx).unwrap();
    let findings = recount(&expected_counts(&ctx).unwrap(), &records);

    assert!(
        !findings.iter().any(|f| names(f, &clean)),
        "an exact match is not a finding: {findings:#?}"
    );

    let over = only(&findings, FindingClass::RefcountOverCount);
    assert!(names(over, &leaked));
    assert_eq!(over.severity, Severity::Info);

    let missing = only(&findings, FindingClass::MissingBlockRecord);
    assert!(names(missing, &vanished));
    assert_eq!(missing.severity, Severity::Critical);

    let under_finding = only(&findings, FindingClass::RefcountUnderCount);
    assert!(names(under_finding, &under));
    assert_eq!(under_finding.severity, Severity::Critical);
    assert!(under_finding.evidence.contains("rc 1"), "{under_finding:?}");
}

#[test]
fn disk_sweep_separates_orphans_off_depth_and_size_damage() {
    let mut world = store();
    world.create_bucket("b");

    let live = world.put("b", "k", b"a live block".repeat(30).to_vec());
    // A second copy of the live block at a depth the record does not name.
    world.plant_orphan_file(&live, 3, b"stale copy");
    // A file no record mentions.
    let orphan = synthetic_id(0xa1);
    world.plant_orphan_file(&orphan, 1, b"nobody's block");
    // Something that is not part of the layout.
    world.files.insert(at("NOTES.txt"), b"hello".to_vec());

    let records = walk_records(&world.scrub()).unwrap();
    let findings = disk_sweep(&world.disk(), &records);

    let off = only(&findings, FindingClass::OffDepthFile);
    assert!(names(off, &live));
    assert_eq!(off.severity, Severity::Info);

    assert!(names(only(&findings, FindingClass::OrphanFile), &orphan));

    let foreign = only(&findings, FindingClass::ForeignFile);
    assert_eq!(foreign.severity, Severity::Warn);
    assert!(foreign.path.as_ref().unwrap().ends_with("NOTES.txt"));

    // No size damage yet: truncate the live file and the pass must see it.
    assert!(!findings.iter().any(|f| f.class == FindingClass::SizeMismatch));
    world.files.insert(world.recorded_path(live), b"short".to_vec());
    let findings = disk_sweep(&world.disk(), &records);
    let size = only(&findings, FindingClass::SizeMismatch);
    assert_eq!(size.severity, Severity::Critical);
    assert!(size.evidence.contains("5 bytes"), "{size:?}");
}

/// A record whose id is on disk somewhere is adoptable, one whose id is nowhere
/// is not.
#[test]
fn adoptable_and_unrecoverable_dangling_records_are_different_classes() {
    let mut world = store();
    world.create_bucket("b");

    // Record says depth 1; the bytes are actually at depth 2.
    let adoptable = synthetic_id(0xb1);
    world.plant_dangling_record(adoptable, 1);
    world.plant_orphan_file(&adoptable, 2, b"the missing bytes");

    // Record says depth 1 and nothing is anywhere.
    let gone = synthetic_id(0xb2);
    world.plant_dangling_record(gone, 1);
    world.plant_object("b", "damaged", vec![gone]);

    let ctx = world.scrub();
    let records = walk_records(&ctx).unwrap();
    let findings = dangling_sweep(&ctx, &records, &world.disk(), &world.present());

    let candidate = only(&findings, FindingClass::AdoptableDanglingRecord);
    assert!(names(candidate, &adoptable));
    assert_eq!(candidate.severity, Severity::Info);
    assert!(candidate.evidence.contains("depth 2"), "{candidate:?}");

    let dead = only(&findings, FindingClass::DanglingRecord);
    assert!(names(dead, &gone));
    assert_eq!(dead.severity, Severity::Critical);
    assert!(dead.evidence.contains("poisons dedup"), "{dead:?}");
    assert_eq!(
        dead.holders,
        vec![HolderRef::Object { bucket: "b".to_string(), key: "damaged".to_string() }],
        "the blast radius must name the damaged object"
    );
}

/// One file, one finding. A misplaced file is an off-depth duplicate only while
/// the record's own file is there to make it redundant.
#[test]
fn a_misplaced_file_is_reported_once_by_whichever_pass_owns_it() {
    let mut world = store();
    let id = synthetic_id(0xe1);

    // Record at depth 1 with no file of its own; the bytes are at 2.
    world.plant_dangling_record(id, 1);
    world.plant_orphan_file(&id, 2, b"the only copy");

    let records = walk_records(&world.scrub()).unwrap();
    let disk = world.disk();
    let sweep = disk_sweep(&disk, &records);
    assert!(sweep.is_empty(), "the candidate belongs to the dangling sweep: {sweep:#?}");
    let dangling = dangling_sweep(&world.scrub(), &records, &disk, &world.present());
    assert_eq!(dangling.len(), 1, "{dangling:#?}");
    only(&dangling, FindingClass::AdoptableDanglingRecord);

    // Give the record its own file back: now the depth-2 copy really is a
    // redundant duplicate, and the disk sweep owns it.
    world.plant_orphan_file(&id, 1, b"the only copy");
    let disk = world.disk();
    let sweep = disk_sweep(&disk, &records);
    let off = only(&sweep, FindingClass::OffDepthFile);
    assert_eq!(off.severity, Severity::Info);
    assert!(off.path.as_ref().unwrap().contains("/e1/e1/"), "{off:?}");
    assert!(
        dangling_sweep(&world.scrub(), &records, &disk, &world.present()).is_empty(),
        "the record's file is present, so nothing dangles"
    );
}

/// A degraded record is known damage: INFO, and never counted as a fresh
/// dangling discovery.
#[test]
fn a_degraded_record_is_reported_as_known_damage() {
    let mut world = store();
    let degraded = synthetic_id(0xc1);
    world.plant_degraded_record(degraded, 1, 3, 4096);

    let ctx = world.scrub();
    let records = walk_records(&ctx).unwrap();
    let findings = dangling_sweep(&ctx, &records, &world.disk(), &world.present());

    assert_eq!(findings.len(), 1, "{findings:#?}");
    let finding = only(&findings, FindingClass::DegradedRecord);
    assert_eq!(finding.severity, Severity::Info);
    assert!(finding.evidence.contains("rc 3"), "{finding:?}");
}

#[test]
fn the_corruption_scrub_catches_a_flipped_bit() {
    let mut world = store();
    world.create_bucket("b");
    let id = world.put("b", "k", b"bytes that will rot".repeat(10).to_vec());
    let disk = world.disk();
    assert!(world.rotten(&disk).is_empty(), "an intact store scrubs clean");

    // Flip a bit under the same name and length: only a re-hash sees it.
    world.files.get_mut(&disk.files[0].path).unwrap()[0] ^= 0x01;

    let findings = world.rotten(&world.disk());
    let corrupt = only(&findings, FindingClass::CorruptBlock);
    assert_eq!(corrupt.severity, Severity::Critical);
    assert!(names(corrupt, &id));
    assert!(corrupt.evidence.contains("hash to"), "{corrupt:?}");

    // A file that cannot be read is reported as such.
    let unread = corruption_scrub(&world.scrub(), &disk.files[0], &Err("denied".to_string()));
    assert!(unread.expect("an unread file is a finding").evidence.contains("denied"));
}

#[test]
fn the_multipart_pass_groups_by_upload_and_reports_its_age() {
    let mut world = store();
    world.create_bucket("b");
    let now = 1_800_000_000;

    world.plant_upload_record("b", "big", "u-1", now - 3 * 24 * 60 * 60);
    world.plant_part("big", "u-1", 1, 1024);
    world.plant_part("big", "u-1", 2, 512);
    // A second upload of the same key is a different unit of work, and ages on
    // its own clock.
    world.plant_upload_record("b", "big", "u-2", now - 5 * 60 * 60);
    world.plant_part("big", "u-2", 1, 64);
    // An upload nobody has sent a part for yet is still an upload.
    world.plant_upload_record("b", "empty", "u-3", now - 90);

    let findings = multipart_report_at(&world.scrub(), now).unwrap();

    assert_eq!(findings.len(), 3, "{findings:#?}");
    assert!(findings
        .iter()
        .all(|f| f.class == FindingClass::MultipartUpload && f.severity == Severity::Info));

    let first = &findings[0];
    assert!(first.evidence.contains("u-1"), "{first:?}");
    assert!(first.evidence.contains("2 part(s)"), "{first:?}");
    assert!(first.evidence.contains("1536 byte(s)"), "{first:?}");
    assert!(first.evidence.contains("started 3 day(s) ago"), "{first:?}");

    let second = &findings[1];
    assert!(second.evidence.contains("u-2"), "{second:?}");
    assert!(
        second.evidence.contains("started 5 hour(s) ago"),
        "an upload younger than a day reports hours: {second:?}"
    );

    // Sorted by bucket, key and upload id, so b/empty comes after b/big.
    let third = &findings[2];
    assert!(third.evidence.contains("u-3"), "{third:?}");
    assert!(
        third.evidence.contains("0 part(s), 0 byte(s)"),
        "an upload with no parts is reported on its age alone: {third:?}"
    );
    assert!(third.evidence.contains("started 1 minute(s) ago"), "{third:?}");

    // The clock's own time gives the same uploads.
    assert_eq!(multipart_report(&world.scrub()).unwrap().len(), 3);
}

/// The upload record decides: a part whose triple has none is an orphan.
#[test]
fn parts_without_an_upload_record_are_orphans_not_uploads() {
    let mut world = store();
    world.create_bucket("b");

    world.plant_upload_record("b", "big", "live", unix_now() - 60 * 60);
    world.plant_part("big", "live", 1, 4096);
    // Same bucket and key, no upload record: the abort-race residue.
    world.plant_part("big", "gone", 7, 2048);

    let findings = multipart_report(&world.scrub()).unwrap();

    assert_eq!(findings.len(), 2, "{findings:#?}");
    let live = only(&findings, FindingClass::MultipartUpload);
    assert!(live.evidence.contains("upload live"), "{live:?}");
    assert!(live.evidence.contains("1 part(s)"), "{live:?}");

    let orphan = only(&findings, FindingClass::OrphanPart);
    assert_eq!(orphan.severity, Severity::Info);
    assert!(orphan.evidence.contains("part 7"), "{orphan:?}");
    assert!(orphan.evidence.contains("upload gone"), "{orphan:?}");
    assert!(orphan.evidence.contains("2048 byte(s)"), "{orphan:?}");
    assert!(orphan.evidence.contains("upload record does not exist"), "{orphan:?}");
    // The raw storage key. It is not printable text, so it renders as hex.
    let rendered = orphan.path.as_deref().expect("the key is carried");
    let key: String =
        part_key("b", "big", "gone", 7).iter().map(|byte| format!("{byte:02x}")).collect();
    assert_eq!(rendered, key, "{orphan:?}");
}

/// A legacy dash-keyed record is an orphan, and its key, being printable text,
/// is carried as itself.
#[test]
fn a_legacy_dash_keyed_part_is_an_orphan_with_a_readable_key() {
    let mut world = store();
    world.create_bucket("b");

    let record = MultiPart::new(
        1024,
        1,
        "b".to_string(),
        "big".to_string(),
        "u-legacy".to_string(),
        ContentHash::from([7u8; 16]),
        vec![synthetic_id(0xd9)],
    );
    world.plant_row(MULTIPART_PARTS_TREE, b"b-big-u-legacy-1", record.to_vec());

    let findings = multipart_report(&world.scrub()).unwrap();
    let orphan = only(&findings, FindingClass::OrphanPart);
    assert_eq!(orphan.path.as_deref(), Some("b-big-u-legacy-1"));
}

/// Without the full set of upload records a live part cannot be told from an
/// orphan.
#[test]
fn an_undecodable_upload_record_refuses_the_pass() {
    let mut world = store();
    world.create_bucket("b");
    world.plant_part("big", "u-1", 1, 128);
    world.plant_row(UPLOADS_TREE, b"not-a-real-key", vec![0xffu8; 3]);

    match multipart_report(&world.scrub()).unwrap_err() {
        HolderEnumerationError::UndecodableRecord { tree, .. } => {
            assert_eq!(tree, UPLOADS_TREE);
        }
        other => panic!("expected an undecodable-record refusal, got {other:?}"),
    }
}

#[test]
fn bucket_integrity_finds_a_tree_whose_row_is_gone() {
    let mut world = store();
    world.create_bucket("kept");
    world.create_bucket("halfdeleted");
    world.put("halfdeleted", "k", b"still referenced".to_vec());

    assert!(bucket_integrity(&world.scrub()).unwrap().is_empty(), "both buckets have rows");

    // Remove the row the way a crashed teardown would, leaving the tree.
    world.plant_half_deleted_bucket("halfdeleted");

    let findings = bucket_integrity(&world.scrub()).unwrap();
    let finding = only(&findings, FindingClass::HalfDeletedBucket);
    assert_eq!(finding.severity, Severity::Warn);
    assert!(finding.evidence.contains("halfdeleted"), "{finding:?}");
    assert!(
        finding.evidence.contains("1 object record"),
        "the stranded objects are sized: {finding:?}"
    );
}

// The report as a whole.

/// One residue of every class the passes can see: the report must find each of
/// them, order them worst first, and exit 2.
#[test]
fn a_store_with_one_of_everything_reports_all_of_it() {
    let mut world = store();
    world.create_bucket("photos");
    world.create_bucket("stranded");

    // Healthy: one object, one block, rc 1, file present.
    let healthy = world.put("photos", "ok", b"a healthy block".repeat(20).to_vec());

    // INFO: a record nothing references.
    let leaked = synthetic_id(0x01);
    world.plant_dangling_record(leaked, 1);
    world.plant_orphan_file(&leaked, 1, &vec![0u8; 1234]);

    // INFO: an orphan file with no record at all.
    world.plant_orphan_file(&synthetic_id(0x02), 1, b"nobody's bytes");

    // INFO: a second copy of the healthy block at another depth.
    world.plant_orphan_file(&healthy, 4, b"stale copy");

    // INFO: a degraded record, known damage awaiting heal.
    world.plant_degraded_record(synthetic_id(0x03), 1, 2, 512);

    // INFO: an adoptable dangling record.
    let adoptable = synthetic_id(0x04);
    world.plant_dangling_record(adoptable, 1);
    world.plant_orphan_file(&adoptable, 2, b"findable elsewhere");

    // CRITICAL: an unrecoverable dangling record with a live holder.
    let gone = synthetic_id(0x05);
    world.plant_dangling_record(gone, 1);
    world.plant_object("photos", "damaged", vec![gone]);

    // CRITICAL: a holder pointing at a block with no record.
    world.plant_object("photos", "points-nowhere", vec![synthetic_id(0x06)]);

    // WARN: a foreign file.
    world.files.insert(at("README"), b"not a block".to_vec());

    // WARN: an object tree whose bucket row is gone.
    world.put("stranded", "k", b"still referenced".to_vec());
    world.plant_half_deleted_bucket("stranded");

    // INFO: an in-flight upload.
    world.plant_upload_record("photos", "big", "u-1", unix_now() - 60);
    world.insert_multipart_part("photos", "big", 2048, 1, "u-1", vec![synthetic_id(0x07)]);

    world.ctx.meta_root = Some("/data/meta".to_string());
    let report = world.report(ScrubOptions::metadata_only());

    // Every pass but the scrub ran.
    assert_eq!(
        report.passes_run,
        vec![
            Pass::Recount,
            Pass::DiskSweep,
            Pass::DanglingSweep,
            Pass::MultipartReport,
            Pass::BucketIntegrity
        ]
    );

    assert_eq!(classes(&report, FindingClass::DanglingRecord).len(), 1);
    assert_eq!(classes(&report, FindingClass::AdoptableDanglingRecord).len(), 1);
    assert_eq!(classes(&report, FindingClass::DegradedRecord).len(), 1);
    // Two holders point at blocks with no record: the object planted above, and
    // the in-flight upload's part.
    let missing = classes(&report, FindingClass::MissingBlockRecord);
    assert_eq!(missing.len(), 2, "{missing:#?}");
    // One artifact, one finding: only the healthy block's stale copy is an
    // off-depth duplicate.
    let off_depth = classes(&report, FindingClass::OffDepthFile);
    assert_eq!(off_depth.len(), 1, "{off_depth:#?}");
    assert!(names(off_depth[0], &healthy));
    assert_eq!(classes(&report, FindingClass::ForeignFile).len(), 1);
    assert_eq!(classes(&report, FindingClass::HalfDeletedBucket).len(), 1);
    assert_eq!(classes(&report, FindingClass::MultipartUpload).len(), 1);
    let orphans = classes(&report, FindingClass::OrphanFile);
    assert_eq!(orphans.len(), 1, "{orphans:#?}");

    assert!(!classes(&report, FindingClass::RefcountOverCount).is_empty());

    // Worst first, and the exit code follows the worst.
    let severities: Vec<Severity> = report.findings.iter().map(|f| f.severity).collect();
    let mut sorted = severities.clone();
    sorted.sort_by(|a, b| b.cmp(a));
    assert_eq!(severities, sorted, "findings must be ordered worst first");
    assert_eq!(report.exit_code, exit_code::CRITICAL);
    assert_eq!(
        report.summary.total,
        report.summary.info + report.summary.warn + report.summary.critical
    );
    assert!(report.summary.critical >= 2);

    // The store the report is about is the store we scrubbed.
    assert_eq!(report.store.blocks_root, ROOT);
    assert!(report.store.meta_root.is_some());
}

/// A healthy store: nothing to say, exit 0.
#[test]
fn a_healthy_store_exits_clean() {
    let mut world = store();
    world.create_bucket("b");
    world.put("b", "one", b"first block".repeat(20).to_vec());
    world.put("b", "two", b"second block".repeat(20).to_vec());
    // The same content again: a dedup hit, rc 2, still exact.
    world.put("b", "three", b"first block".repeat(20).to_vec());

    let report = world.report(ScrubOptions::full());
    assert!(report.findings.is_empty(), "{}", report.render_text());
    assert_eq!(report.exit_code, exit_code::CLEAN);
    assert!(report.ran(Pass::CorruptionScrub), "--scrub was asked for");
}

/// The same rotted store is silent without the corruption scrub and CRITICAL
/// with it.
#[test]
fn the_corruption_scrub_is_the_only_optional_pass() {
    let mut world = store();
    world.create_bucket("b");
    world.put("b", "k", b"bytes that rot".repeat(20).to_vec());

    // Same name, same length, different bytes: only a re-hash sees it.
    let path = world.disk().files[0].path.clone();
    world.files.get_mut(&path).unwrap()[3] ^= 0xff;

    let quiet = world.report(ScrubOptions::metadata_only());
    assert!(quiet.findings.is_empty(), "{}", quiet.render_text());
    assert!(!quiet.ran(Pass::CorruptionScrub));
    assert_eq!(quiet.exit_code, exit_code::CLEAN);

    let loud = world.report(ScrubOptions::full());
    assert_eq!(classes(&loud, FindingClass::CorruptBlock).len(), 1);
    assert_eq!(loud.exit_code, exit_code::CRITICAL);
}

/// A holder set that cannot be closed: the recount does not run, and the refusal
/// is itself CRITICAL. The other passes still report.
#[test]
fn a_refused_holder_set_skips_the_recount_but_not_the_report() {
    let mut world = store();
    world.create_bucket("b");
    world.put("b", "k", b"a real object".repeat(10).to_vec());
    world.files.insert(at("README"), b"foreign".to_vec());
    world.plant_object_row("b", b"broken", vec![0xffu8; 8]);

    let report = world.report(ScrubOptions::metadata_only());
    assert!(!report.ran(Pass::Recount), "no recount over a partial holder set");
    assert!(report.ran(Pass::DiskSweep), "the disk pass is unaffected");
    let refusal = classes(&report, FindingClass::HolderEnumerationFailed);
    assert_eq!(refusal.len(), 1);
    assert_eq!(refusal[0].severity, Severity::Critical);
    assert!(refusal[0].evidence.contains("broken"), "{:?}", refusal[0]);
    assert_eq!(report.exit_code, exit_code::CRITICAL);
    // The foreign file was still found.
    assert_eq!(classes(&report, FindingClass::ForeignFile).len(), 1);
}

/// The report carries the documented facts, in the value and in the text.
#[test]
fn the_report_carries_its_facts_into_the_text() {
    let mut world = store();
    world.create_bucket("b");
    let gone = synthetic_id(0x21);
    world.plant_dangling_record(gone, 1);
    world.plant_object("b", "damaged", vec![gone]);
    world.files.insert(at("README"), b"foreign".to_vec());
    world.ctx.meta_root = Some("/data/meta".to_string());

    let report = world.report(ScrubOptions::metadata_only());
    assert_eq!(report.version, 1);
    assert_eq!(report.exit_code, 2);
    assert_eq!(report.passes_run[0].as_str(), "recount");
    let first = &report.findings[0];
    assert_eq!(first.class, FindingClass::DanglingRecord);
    assert!(names(first, &gone));
    assert!(first.evidence.contains("poisons dedup"));

    let text = report.render_text();
    assert!(text.contains("CRITICAL dangling_record"), "{text}");
    assert!(text.contains("holder: object b/damaged"), "{text}");
    assert!(text.contains("exit 2"), "{text}");
}

// The repair of records and files.

/// The recount, both directions.
#[test]
fn set_rc_lowers_a_leak_and_raises_an_under_count() {
    let mut world = store();
    world.create_bucket("b");
    let leaked = world.put("b", "one", b"a leaked block".repeat(20).to_vec());
    let under = world.put("b", "two", b"an under-counted block".repeat(20).to_vec());
    world.plant_inflated_rc(leaked, 3);
    world.plant_deflated_rc(under, 1);

    let summary = world.report_and_repair(ScrubOptions::metadata_only());

    assert_eq!(world.rc(leaked), 1, "lowered to the walked truth");
    assert_eq!(world.rc(under), 1, "raised to the walked truth");
    assert!(world.is_file(&world.recorded_path(leaked)), "both files stay");
    assert!(world.is_file(&world.recorded_path(under)));

    let set_rcs = of_kind(&summary, "set_rc");
    assert_eq!(set_rcs.len(), 2, "{:#?}", summary.outcomes);
    assert!(set_rcs.iter().all(|o| o.status == RepairStatus::Applied));
    assert!(set_rcs.iter().any(|o| o.detail.contains("rc 4 -> 1")), "{set_rcs:#?}");
    assert!(set_rcs.iter().any(|o| o.detail.contains("rc 0 -> 1")), "{set_rcs:#?}");
    assert_eq!(summary.exit_code(), exit_code::CLEAN, "{}", summary.report.to_string());
}

/// A recount of zero means the block is free: the record goes and the file goes
/// with it.
#[test]
fn a_record_nothing_holds_is_freed_with_its_file() {
    let mut world = store();
    let leaked = synthetic_id(0x01);
    world.plant_dangling_record(leaked, 1);
    world.plant_orphan_file(&leaked, 1, &vec![7u8; 1234]);
    let path = block_path(&leaked, 1);
    // The same shape without a file: freeing beats marking it degraded.
    let fileless = synthetic_id(0x11);
    world.plant_dangling_record(fileless, 1);

    let summary = world.report_and_repair(ScrubOptions::metadata_only());

    assert!(world.record(leaked).is_none(), "the record is gone");
    assert!(!world.is_file(&path), "and so are its bytes");
    assert!(world.record(fileless).is_none(), "freed, not degraded");
    assert!(
        of_kind(&summary, "set_rc").iter().all(|o| o.detail.contains("rc 1 -> 0")),
        "{:#?}",
        summary.outcomes
    );
    assert_eq!(
        of_kind(&summary, "mark_degraded")[0].status,
        RepairStatus::Skipped,
        "the record it would have flagged is already freed"
    );
    assert_eq!(summary.exit_code(), exit_code::CLEAN, "{}", summary.report.to_string());
}

/// Files nothing can reference are deleted; the live block is not touched.
#[test]
fn orphan_and_off_depth_files_are_deleted() {
    let mut world = store();
    world.create_bucket("b");
    let live = world.put("b", "k", b"a live block".repeat(30).to_vec());
    let live_path = world.recorded_path(live);
    world.plant_orphan_file(&live, 4, b"a stale copy");
    let orphan = synthetic_id(0x02);
    world.plant_orphan_file(&orphan, 1, b"nobody's bytes");

    let summary = world.report_and_repair(ScrubOptions::metadata_only());

    assert!(!world.is_file(&block_path(&orphan, 1)), "the orphan is gone");
    assert!(!world.is_file(&block_path(&live, 4)), "so is the off-depth duplicate");
    assert!(world.is_file(&live_path), "the referenced block is untouched");
    assert_eq!(world.rc(live), 1);
    assert_eq!(of_kind(&summary, "delete_orphan").len(), 1);
    assert_eq!(of_kind(&summary, "delete_off_depth").len(), 1);
    assert_eq!(summary.exit_code(), exit_code::CLEAN, "{}", summary.report.to_string());
}

/// Quarantine, never delete. A name already taken in quarantine gets a suffix
/// rather than overwriting what an earlier run set aside.
#[test]
fn a_foreign_file_is_quarantined_not_deleted() {
    let mut world = store();
    world.files.insert(at("README"), b"someone else's notes".to_vec());

    let summary = world.report_and_repair(ScrubOptions::metadata_only());

    assert!(!world.is_file(&at("README")));
    assert_eq!(world.files[&at(".quarantine/README")], b"someone else's notes");
    assert_eq!(of_kind(&summary, "quarantine_foreign").len(), 1);
    assert_eq!(summary.exit_code(), exit_code::CLEAN, "{}", summary.report.to_string());

    // A second file of the same name does not overwrite the first.
    world.files.insert(at("README"), b"a different README".to_vec());
    world.report_and_repair(ScrubOptions::metadata_only());
    assert_eq!(world.files[&at(".quarantine/README")], b"someone else's notes");
    assert_eq!(world.files[&at(".quarantine/README.1")], b"a different README");
}

/// A block whose bytes do not hash to its name: the file is set aside and the
/// record is marked degraded.
#[test]
fn a_corrupt_block_is_quarantined_and_its_record_marked_degraded() {
    let mut world = store();
    world.create_bucket("b");
    let id = world.put("b", "k", b"bytes that rot".repeat(20).to_vec());
    let path = world.recorded_path(id);
    world.files.get_mut(&path).unwrap()[0] ^= 0x01;

    let summary = world.report_and_repair(ScrubOptions::full());

    assert!(!world.is_file(&path), "the corrupt file left the blocks root");
    assert!(
        world.is_file(&at(&format!(".quarantine/{}", id.to_hex()))),
        "and it is in quarantine under its own name, not deleted"
    );
    let record = world.record(id).expect("the record survives the block");
    assert!(record.is_degraded());
    assert_eq!(record.rc(), 1, "its holder stays accounted for");
    assert_eq!(of_kind(&summary, "quarantine_corrupt").len(), 1);
    assert_eq!(
        summary.exit_code(),
        exit_code::CLEAN,
        "documented damage is INFO: {}",
        summary.report.to_string()
    );
}

/// A file found under an address is re-hashed before any record is pointed at
/// it.
#[test]
fn adoption_re_hashes_the_candidate_before_pointing_a_record_at_it() {
    let mut world = store();
    world.create_bucket("b");
    let data = b"content that moved".repeat(20).to_vec();
    let id = world.put("b", "k", data.clone());
    let from = world.record(id).unwrap().depth();
    let to = from + 1;
    world.misplace_block_file(&id, from, to);

    let summary = world.report_and_repair(ScrubOptions::metadata_only());

    let adopted = world.record(id).expect("the record survives");
    assert_eq!(adopted.depth(), to, "the record follows the file");
    assert_eq!(adopted.rc(), 1, "rc is not adoption's business");
    assert!(!adopted.is_degraded());
    assert_eq!(world.files[&world.recorded_path(id)], data);
    assert!(
        of_kind(&summary, "adopt_orphan")[0].detail.contains("re-hashed"),
        "{:#?}",
        summary.outcomes
    );
    assert_eq!(summary.exit_code(), exit_code::CLEAN, "{}", summary.report.to_string());
}

/// Of two good copies the shallower one is adopted and the other unlinked.
#[test]
fn adoption_keeps_one_copy() {
    let mut world = store();
    world.create_bucket("b");
    let data = b"content that was copied".repeat(20).to_vec();
    let id = world.put("b", "k", data.clone());
    world.misplace_block_file(&id, 1, 3);
    world.plant_orphan_file(&id, 4, &data);

    let summary = world.report_and_repair(ScrubOptions::metadata_only());

    assert_eq!(world.record(id).unwrap().depth(), 3);
    assert!(world.is_file(&block_path(&id, 3)));
    assert!(!world.is_file(&block_path(&id, 4)));
    assert_eq!(summary.exit_code(), exit_code::CLEAN, "{}", summary.report.to_string());
}

/// A candidate that does not hash to the address it sits under is quarantined,
/// and the record is marked degraded.
#[test]
fn an_adoption_candidate_that_does_not_hash_goes_to_quarantine() {
    let mut world = store();
    world.create_bucket("b");
    let id = world.put("b", "k", b"the real content".repeat(20).to_vec());
    let depth = world.record(id).unwrap().depth();
    // The record's own bytes vanish, and something else takes their name at
    // another depth.
    let path = world.recorded_path(id);
    world.files.remove(&path);
    world.plant_orphan_file(&id, depth + 1, b"not what this address names");

    let summary = world.report_and_repair(ScrubOptions::metadata_only());

    let record = world.record(id).expect("the record survives");
    assert!(record.is_degraded(), "the bytes really are gone");
    assert_eq!(record.rc(), 1, "the damaged object stays accounted for");
    assert_eq!(
        world.files[&at(&format!(".quarantine/{}", id.to_hex()))],
        b"not what this address names",
        "the impostor is set aside, not adopted and not deleted"
    );
    let outcome = of_kind(&summary, "adopt_orphan")[0];
    assert_eq!(outcome.status, RepairStatus::Applied);
    assert!(outcome.detail.contains("hashes to"), "{outcome:#?}");
    assert_eq!(summary.exit_code(), exit_code::CLEAN, "{}", summary.report.to_string());
}

/// A record whose bytes are nowhere is marked degraded rather than removed.
#[test]
fn an_unrecoverable_record_is_marked_degraded_not_removed() {
    let mut world = store();
    world.create_bucket("b");
    let gone = synthetic_id(0x03);
    world.plant_dangling_record(gone, 1);
    world.plant_object("b", "damaged", vec![gone, gone]);

    let summary = world.report_and_repair(ScrubOptions::metadata_only());

    let record = world.record(gone).expect("the record must survive");
    assert!(record.is_degraded());
    assert_eq!(record.rc(), 2, "both occurrences stay counted");
    assert_eq!(of_kind(&summary, "mark_degraded").len(), 1);
    assert_eq!(summary.exit_code(), exit_code::CLEAN, "{}", summary.report.to_string());
}

/// A count that moved since it was planned is left alone, and setting one twice
/// says so.
#[test]
fn setting_a_count_twice_changes_nothing_more() {
    let mut world = store();
    let id = synthetic_id(0x31);
    world.plant_dangling_record(id, 1);
    world.move_rc(id, 5);

    let first = set_rc(&mut world.ctx.shared, &id, 5, 2);
    assert!(matches!(first, RecordStep::Finished(Ok(Done::Applied(_)))), "{first:?}");
    assert_eq!(world.rc(id), 2);
    let second = set_rc(&mut world.ctx.shared, &id, 5, 2);
    assert!(matches!(second, RecordStep::Finished(Ok(Done::Skipped(_)))), "{second:?}");
    assert_eq!(world.rc(id), 2);

    let missing = set_rc(&mut world.ctx.shared, &synthetic_id(0x32), 1, 0);
    assert!(matches!(missing, RecordStep::Finished(Ok(Done::Skipped(_)))), "{missing:?}");

    // To zero is to free: the record goes at once, the file is to be unlinked.
    match set_rc(&mut world.ctx.shared, &id, 2, 0) {
        RecordStep::Unlink { path, detail } => {
            assert_eq!(path, block_path(&id, 1));
            let failed = after_unlink(&path, detail, &Unlinked::Failed("denied".to_string()));
            assert!(failed.is_err());
        }
        other => panic!("expected an unlink, got {other:?}"),
    }
    assert!(world.record(id).is_none());
}

// The repair of holders.

/// Resuming a teardown decrements every block the stranded objects held.
#[test]
fn a_half_deleted_bucket_teardown_is_resumed() {
    let mut world = store();
    world.create_bucket("kept");
    world.create_bucket("doomed");

    let shared_block = world.put("kept", "k", b"deduplicated bytes".repeat(20).to_vec());
    world.put("doomed", "same", b"deduplicated bytes".repeat(20).to_vec());
    let only_doomed = world.put("doomed", "own", b"only this bucket".repeat(20).to_vec());
    assert_eq!(world.rc(shared_block), 2, "one block, two objects");
    let only_path = world.recorded_path(only_doomed);

    world.plant_half_deleted_bucket("doomed");

    let summary = world.report_and_repair(ScrubOptions::metadata_only());

    assert!(!world.has_tree("doomed"), "the stranded tree is gone");
    assert_eq!(world.rc(shared_block), 1, "the surviving holder keeps it");
    assert!(world.is_file(&world.recorded_path(shared_block)));
    assert!(world.record(only_doomed).is_none(), "nothing holds it now");
    assert!(!world.is_file(&only_path));
    assert_eq!(of_kind(&summary, "resume_bucket_teardown").len(), 1);
    assert_eq!(summary.exit_code(), exit_code::CLEAN, "{}", summary.report.to_string());
}

/// An object key that is not UTF-8 is reported and left to the recount.
#[test]
fn a_non_utf8_object_key_is_warned_about_not_panicked_on() {
    let mut world = store();
    world.create_bucket("doomed");
    let id = world.put("doomed", "readable", b"shared by both records".repeat(8).to_vec());
    let path = world.recorded_path(id);
    // A second holder of the same block, under a key no text can name.
    let object = Object::new(
        64,
        ContentHash::from([7u8; 16]),
        ObjectData::SinglePart { blocks: vec![id] },
    );
    world.plant_object_row("doomed", &[0xff, 0xfe], object.to_vec());
    world.plant_half_deleted_bucket("doomed");

    let summary = world.report_and_repair(ScrubOptions::metadata_only());

    let warned: Vec<&RepairOutcome> = of_kind(&summary, "resume_bucket_teardown")
        .into_iter()
        .filter(|outcome| outcome.severity == Severity::Warn)
        .collect();
    assert_eq!(warned.len(), 1, "{:#?}", summary.outcomes);
    assert!(warned[0].detail.contains("not UTF-8"), "{warned:#?}");
    assert_eq!(warned[0].status, RepairStatus::Skipped);

    assert!(
        !world.has_tree("doomed"),
        "the teardown still finishes: the _BUCKETS row was already gone"
    );
    assert!(world.record(id).is_none(), "no holder is left");
    assert!(!world.is_file(&path));
    assert_eq!(summary.exit_code(), exit_code::CLEAN, "{}", summary.report.to_string());
}

/// An orphan part's record goes, and the references it held are released. A live
/// upload's part is reported and left exactly where it is.
#[test]
fn an_orphan_part_is_reaped_and_a_live_uploads_part_is_not() {
    let mut world = store();
    world.create_bucket("b");

    // A live upload, an hour old: the upload record is what makes it live.
    world.plant_upload_record("b", "big", "live", unix_now() - 60 * 60);
    let live = world.put_part("big", "live", 1, b"a live part".repeat(64).to_vec());

    // An orphan: no upload record, its blocks held by the part record alone.
    let doomed = world.put_part("big", "gone", 2, b"an abandoned part".repeat(64).to_vec());

    // And an orphan whose content a live object shares.
    let data = b"content two holders share".repeat(64).to_vec();
    let object = world.put("b", "object", data.clone());
    let shared_blocks = world.put_part("big", "gone", 3, data);
    assert_eq!(shared_blocks, vec![object], "the premise: one block, two holders");
    assert_eq!(world.rc(object), 2);

    let summary = world.report_and_repair(ScrubOptions::metadata_only());

    let reaped = of_kind(&summary, "reap_orphan_part");
    assert_eq!(reaped.len(), 2, "{:#?}", summary.outcomes);
    assert!(reaped.iter().all(|o| o.status == RepairStatus::Applied));
    assert!(reaped.iter().any(|o| o.detail.contains("upload gone")), "{reaped:#?}");
    // The outcome names the record by the key it was filed under.
    assert!(reaped.iter().all(|o| o.path.is_some()), "{reaped:#?}");

    for id in &doomed {
        assert!(world.record(*id).is_none(), "the last reference is gone");
        assert!(!world.is_file(&block_path(id, 1)), "and so is the file");
    }
    assert_eq!(world.rc(object), 1, "the object keeps the block it shares");
    assert!(world.is_file(&world.recorded_path(object)));

    assert_eq!(world.parts(), 1, "the live upload's part is untouched");
    for id in &live {
        assert_eq!(world.rc(*id), 1);
        assert!(world.is_file(&world.recorded_path(*id)));
    }

    // Clean afterwards: no orphan part survives, and the live upload is still
    // reported as the INFO it is.
    assert_eq!(summary.exit_code(), exit_code::CLEAN, "{}", summary.report.to_string());
    assert!(classes(&summary.report, FindingClass::OrphanPart).is_empty());
    assert_eq!(classes(&summary.report, FindingClass::MultipartUpload).len(), 1);
}

// The repair as a whole.

/// An unclosed holder set refuses the reap: the record and the references it
/// holds are left exactly as they were found.
#[test]
fn an_unclosed_holder_set_refuses_the_orphan_part_reap() {
    let mut world = store();
    world.create_bucket("b");
    let held = world.put_part("big", "gone", 1, b"an abandoned part".repeat(64).to_vec());
    // One object record that will not decode: the holder set cannot close.
    world.plant_object_row("b", b"broken", vec![0xffu8; 8]);

    let report = world.report(ScrubOptions::metadata_only());
    assert!(!report.ran(Pass::Recount), "the premise of this test");
    assert!(
        report.ran(Pass::MultipartReport),
        "the classification itself is fine: the part records decode"
    );
    let summary = world.repair(&report, ScrubOptions::metadata_only());

    let refused = of_kind(&summary, "reap_orphan_part");
    assert_eq!(refused.len(), 1, "{:#?}", summary.outcomes);
    assert_eq!(refused[0].status, RepairStatus::Skipped);
    assert_eq!(refused[0].severity, Severity::Warn);
    assert!(refused[0].detail.contains("holder set"), "{refused:#?}");

    assert_eq!(world.parts(), 1, "the record stands");
    for id in &held {
        assert_eq!(world.rc(*id), 1, "and so does the reference it holds");
        assert!(world.is_file(&world.recorded_path(*id)));
    }
    assert_eq!(summary.exit_code(), exit_code::CRITICAL);
}

/// With the holder set unclosed, no refcount may move: in either direction, by
/// any action.
#[test]
fn an_unclosed_holder_set_refuses_every_rc_mutation() {
    let mut world = store();
    world.create_bucket("b");
    world.create_bucket("stranded");

    let id = world.put("b", "k", b"a real block".repeat(20).to_vec());
    world.plant_inflated_rc(id, 3);
    world.put("stranded", "k", b"still referenced".repeat(8).to_vec());
    world.plant_half_deleted_bucket("stranded");
    // One object record that will not decode: the holder set cannot close.
    world.plant_object_row("b", b"broken", vec![0xffu8; 8]);

    let report = world.report(ScrubOptions::metadata_only());
    assert!(!report.ran(Pass::Recount), "the premise of this test");
    let summary = world.repair(&report, ScrubOptions::metadata_only());

    assert_eq!(world.rc(id), 4, "the inflated rc is left exactly as it was");
    let refused = of_kind(&summary, "set_rc");
    assert_eq!(refused.len(), 1, "{:#?}", summary.outcomes);
    assert_eq!(refused[0].status, RepairStatus::Skipped);
    assert_eq!(refused[0].severity, Severity::Warn);
    assert!(refused[0].detail.contains("holder set"), "{refused:#?}");

    // The teardown is an rc mutation too, so it is refused on the same ground.
    let teardown = of_kind(&summary, "resume_bucket_teardown");
    assert_eq!(teardown.len(), 1);
    assert_eq!(teardown[0].status, RepairStatus::Skipped);
    assert!(world.has_tree("stranded"), "the stranded tree is left standing");
    assert_eq!(summary.exit_code(), exit_code::CRITICAL);
}

/// The second run of a repair finds nothing to do, and the store it leaves is
/// identical to the one the first run left.
#[test]
fn applying_the_full_repair_twice_changes_nothing() {
    let mut world = store();
    world.create_bucket("b");
    world.create_bucket("stranded");

    let live = world.put("b", "k", b"a live block".repeat(20).to_vec());
    world.plant_inflated_rc(live, 2);
    world.plant_orphan_file(&live, 5, b"a stale copy");
    world.plant_orphan_file(&synthetic_id(0x04), 1, b"nobody's bytes");
    let gone = synthetic_id(0x05);
    world.plant_dangling_record(gone, 1);
    world.plant_object("b", "damaged", vec![gone]);
    let adoptable = world.put("b", "moved", b"content that moved".repeat(20).to_vec());
    let depth = world.record(adoptable).unwrap().depth();
    world.misplace_block_file(&adoptable, depth, depth + 2);
    world.files.insert(at("NOTES"), b"foreign".to_vec());
    world.put("stranded", "k", b"still referenced".repeat(8).to_vec());
    world.plant_half_deleted_bucket("stranded");
    // Both multipart shapes: a part no upload record owns (reaped) and one a live
    // upload does (reported, and left alone by both runs).
    world.insert_multipart_part("b", "big", 1024, 1, "u-1", vec![live]);
    world.plant_upload_record("b", "big", "u-2", unix_now() - 60);
    world.insert_multipart_part("b", "big", 1024, 1, "u-2", vec![live]);

    let first = world.report_and_repair(ScrubOptions::full());
    assert!(first.counts.applied > 0, "there was work to do");
    assert_eq!(first.exit_code(), exit_code::CLEAN, "{}", first.report.to_string());
    let after_first = world.snapshot();

    let second = world.report_and_repair(ScrubOptions::full());

    assert!(
        second.outcomes.is_empty(),
        "a repaired store plans no actions: {:#?}",
        second.outcomes
    );
    assert_eq!(after_first, world.snapshot(), "the end state is a fixed point");
    assert_eq!(second.exit_code(), exit_code::CLEAN, "{}", second.report.to_string());
}

/// A run that died after some actions leaves a store the next run finishes.
#[test]
fn a_repair_that_died_halfway_is_finished_by_the_next_run() {
    let mut world = store();
    world.create_bucket("b");

    let live = world.put("b", "k", b"a live block".repeat(20).to_vec());
    world.plant_inflated_rc(live, 4);
    let orphan = synthetic_id(0x06);
    world.plant_orphan_file(&orphan, 1, b"nobody's bytes");
    let gone = synthetic_id(0x07);
    world.plant_dangling_record(gone, 1);
    world.plant_object("b", "damaged", vec![gone]);
    world.files.insert(at("NOTES"), b"foreign".to_vec());

    // The strict subset the killed run got through.
    for action in [
        RepairAction::QuarantineForeign { path: at("NOTES") },
        RepairAction::MarkDegraded { block: gone },
    ] {
        let (_, result) = world.apply(&action);
        assert_eq!(action.outcome(result).status, RepairStatus::Applied);
    }

    let summary = world.report_and_repair(ScrubOptions::metadata_only());

    assert_eq!(world.rc(live), 1, "the run picked up where it stopped");
    assert!(!world.is_file(&block_path(&orphan, 1)));
    assert!(world.record(gone).unwrap().is_degraded());
    assert!(world.is_file(&at(".quarantine/NOTES")));
    assert_eq!(
        world.files.keys().filter(|path| path.starts_with(&at(".quarantine/"))).count(),
        1,
        "the already-quarantined file was not quarantined twice"
    );
    assert_eq!(summary.exit_code(), exit_code::CLEAN, "{}", summary.report.to_string());
}

/// The summary carries the documented facts.
#[test]
fn the_summary_carries_its_outcomes_into_the_text() {
    let mut world = store();
    world.files.insert(at("README"), b"foreign".to_vec());

    let summary = world.report_and_repair(ScrubOptions::metadata_only());
    assert_eq!(summary.version, 1);
    assert_eq!(summary.counts.applied, 1);
    assert_eq!(summary.counts.total, 1);
    let outcome = &summary.outcomes[0];
    assert_eq!(outcome.action, "quarantine_foreign");
    assert_eq!(outcome.status.as_str(), "applied");
    assert_eq!(outcome.severity, Severity::Info);
    assert!(outcome.path.as_ref().unwrap().ends_with("README"));
    assert!(outcome.detail.contains("quarantine"));
    assert_eq!(outcome.block, None);
    assert_eq!(summary.report.exit_code, 0);

    let text = summary.render_text();
    assert!(text.contains("APPLIED quarantine_foreign"), "{text}");
    assert!(text.contains("1 applied, 0 skipped, 0 failed"), "{text}");
    assert!(text.contains("no findings"), "{text}");
}

/// Every action tolerates having been applied already.
#[test]
fn an_action_applied_again_is_skipped() {
    let mut world = store();
    world.create_bucket("b");
    let moved = world.put("b", "moved", b"content that moved".repeat(20).to_vec());
    world.misplace_block_file(&moved, 1, 2);
    let held = world.put_part("big", "gone", 7, b"an abandoned part".repeat(8).to_vec());
    let orphan = synthetic_id(0x41);
    world.plant_orphan_file(&orphan, 1, b"nobody's bytes");
    world.files.insert(at("NOTES"), b"foreign".to_vec());
    let gone = synthetic_id(0x42);
    world.plant_dangling_record(gone, 1);
    let counted = synthetic_id(0x43);
    world.plant_dangling_record(counted, 1);

    for action in [
        RepairAction::AdoptOrphan {
            block: moved,
            record_depth: 1,
            candidates: vec![(2, block_path(&moved, 2))],
        },
        RepairAction::ReapOrphanPart {
            bucket: "b".to_string(),
            key: "big".to_string(),
            upload_id: "gone".to_string(),
            part_number: 7,
            storage_key: part_key("b", "big", "gone", 7),
        },
        RepairAction::SetRc { block: counted, from: 1, to: 3 },
        RepairAction::MarkDegraded { block: gone },
        RepairAction::DeleteOrphan { block: orphan, path: block_path(&orphan, 1) },
        RepairAction::QuarantineForeign { path: at("NOTES") },
    ] {
        let (_, first) = world.apply(&action);
        assert!(matches!(first, Ok(Done::Applied(_))), "{}: {first:?}", action.kind());
        let after = world.snapshot();
        let (_, second) = world.apply(&action);
        assert!(matches!(second, Ok(Done::Skipped(_))), "{}: {second:?}", action.kind());
        assert_eq!(after, world.snapshot(), "{}", action.kind());
    }
    assert!(world.record(held[0]).is_none());
    assert_eq!(world.rc(counted), 3);
}

/// Damage to what an action needs is a failed outcome, not an error of the run.
#[test]
fn an_action_on_a_damaged_record_fails() {
    let mut world = store();
    let broken = synthetic_id(0x51);
    world.plant_row(DEFAULT_BLOCK_TREE, broken.as_slice(), vec![0x01; 3]);
    for action in [
        RepairAction::SetRc { block: broken, from: 1, to: 2 },
        RepairAction::MarkDegraded { block: broken },
        RepairAction::AdoptOrphan { block: broken, record_depth: 1, candidates: vec![] },
    ] {
        let (_, result) = world.apply(&action);
        let outcome = action.outcome(result);
        assert_eq!(outcome.status, RepairStatus::Failed);
        assert_eq!(outcome.severity, Severity::Critical);
        assert!(outcome.detail.contains("could not be read"), "{outcome:?}");
    }
}

/// Of an action's outcomes its own comes last; before it a teardown alone says
/// something, of each object whose key is not text.
#[test]
fn only_a_teardown_speaks_of_single_objects() {
    let mut world = store();
    world.create_bucket("b");
    let id = world.put("b", "k", b"still referenced".repeat(8).to_vec());
    world.plant_object_row("b", &[0xff, 0xfe], vec![1, 2, 3]);
    world.plant_half_deleted_bucket("b");

    let action = RepairAction::ResumeBucketTeardown { bucket: "b".to_string() };
    let mut extra = Vec::new();
    let mut freed = vec!["before".to_string()];
    let step = action.apply(&mut world.ctx, &mut extra, &mut freed);
    assert!(matches!(step, ApplyStep::Finished(Ok(Done::Applied(_)))), "{step:?}");
    assert_eq!(extra.len(), 1);
    assert_eq!(extra[0].action, "resume_bucket_teardown");
    assert_eq!(extra[0].status, RepairStatus::Skipped);
    assert_eq!(extra[0].severity, Severity::Warn);
    // The file of the last reference is freed, and no record names it any more.
    assert_eq!(freed, vec!["before".to_string(), block_path(&id, 1)]);
    assert!(world.record(id).is_none());
}

/// A corrupt or foreign file is to be moved: nothing is freed, nothing is
/// deleted, and the records stay as they are until the move is done.
#[test]
fn a_quarantine_frees_and_deletes_nothing() {
    let mut world = store();
    world.create_bucket("b");
    let id = world.put("b", "k", b"soon corrupt".repeat(8).to_vec());
    let path = block_path(&id, 1);
    let before = world.snapshot();
    for action in [
        RepairAction::QuarantineCorrupt { block: id, path: path.clone() },
        RepairAction::QuarantineForeign { path: path.clone() },
    ] {
        let mut extra = Vec::new();
        let mut freed = vec!["before".to_string()];
        let step = action.apply(&mut world.ctx, &mut extra, &mut freed);
        assert!(matches!(&step, ApplyStep::Quarantine(at) if *at == path), "{step:?}");
        assert!(extra.is_empty());
        assert_eq!(freed, vec!["before".to_string()]);
        assert_eq!(before, world.snapshot());
    }
}

/// A walk decides once on every entry: no path is both a block file and foreign.
#[test]
fn a_walk_lists_every_path_once() {
    let mut world = store();
    let id = synthetic_id(0xab);
    world.plant_orphan_file(&id, 1, b"one");
    world.plant_orphan_file(&id, 2, b"two");
    world.files.insert(at("ab/README"), b"notes".to_vec());
    world.files.insert(at(&id.to_hex()), b"unreachable".to_vec());
    world.dirs.insert(at("zz"));

    let walk = world.disk();
    let mut paths: Vec<&str> = walk.files.iter().map(|f| f.path.as_str()).collect();
    paths.extend(walk.foreign.iter().map(|f| f.path.as_str()));
    assert_eq!(paths.len(), 5);
    let distinct: BTreeSet<&str> = paths.iter().copied().collect();
    assert_eq!(distinct.len(), paths.len(), "{paths:?}");
}

/// The name of a file and the directories above it decide alone: at its own place
/// it is a block file of its size and depth, anywhere else it is foreign.
#[test]
fn a_files_place_decides_what_it_is() {
    let id = synthetic_id(0xab);
    let hex = id.to_hex();
    let file = |path: String, name: &str| DirItem {
        path,
        name: Some(name.to_string()),
        kind: ItemKind::File(7),
    };
    let dir = |name: &str, children: Vec<DirItem>| DirItem {
        path: at(name),
        name: Some(name.to_string()),
        kind: ItemKind::Dir(children),
    };
    let short = &hex[..hex.len() - 2];
    let items = vec![
        file(at(&hex), &hex),
        dir(
            "ab",
            vec![
                file(at(&format!("ab/{hex}")), &hex),
                file(at(&format!("ab/{short}")), short),
            ],
        ),
        dir("cd", vec![file(at(&format!("cd/{hex}")), &hex)]),
    ];
    let world = store();
    let walk = walk_disk(&world.scrub(), &items, &Vec::new());
    assert_eq!(walk.files.len(), 1);
    assert_eq!(walk.files[0].path, at(&format!("ab/{hex}")));
    assert_eq!(walk.files[0].id, id);
    assert_eq!(walk.files[0].depth, 1);
    assert_eq!(walk.files[0].size, 7);
    assert_eq!(
        foreign_names(&walk),
        vec![hex.clone(), format!("ab/{short}"), format!("cd/{hex}")]
    );
}

/// Under a root that is not there, there is nothing.
#[test]
fn a_walk_of_no_entries_finds_nothing() {
    let world = store();
    let walk = walk_disk(&world.scrub(), &Vec::new(), &Vec::new());
    assert!(walk.files.is_empty());
    assert!(walk.foreign.is_empty());
}

/// Everything up to a repair only ever reads: a scrub of an empty store leaves it
/// without a tree.
#[test]
fn a_scrub_creates_nothing() {
    let world = store();
    let before = world.ctx.shared.meta.list_trees().unwrap();
    let spaces = world.ctx.namespace.list_trees().unwrap();
    let report = world.report(ScrubOptions::full());
    assert_eq!(report.exit_code, exit_code::CLEAN);
    assert_eq!(world.ctx.shared.meta.list_trees().unwrap(), before);
    assert_eq!(world.ctx.namespace.list_trees().unwrap(), spaces);
}

/// A clean report plans nothing: the run wants a look and then the check.
#[test]
fn a_clean_report_applies_nothing() {
    let mut world = store();
    world.create_bucket("b");
    world.put("b", "k", b"a live block".repeat(20).to_vec());
    let options = ScrubOptions::full();
    let report = world.report(options);
    assert_eq!(report.exit_code, exit_code::CLEAN);

    let going = repair(&world.scrub(), &report).unwrap();
    assert!(matches!(going.wants(), Wants::Look));
    let going = going.looked(&world.scrub(), &report, &world.look(options)).unwrap();
    assert!(matches!(going.wants(), Wants::Check));
    let summary = going.checked(Ok(world.report(options))).unwrap();
    assert!(summary.outcomes.is_empty());
    assert_eq!(summary.exit_code(), exit_code::CLEAN);
}
