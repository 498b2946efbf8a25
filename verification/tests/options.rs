use std::sync::atomic::{AtomicU64, Ordering};
use std::sync::Arc;

use cas_storage::config::{
    validate_stripe_count, ConfigError, HashConfig, StorageEngine, StoreConfig, MAX_STRIPE_COUNT,
};
use cas_storage::hasher::Hasher;
use cas_storage::metastore::traits::Durability;
use cas_storage::metrics::{MetricsCollector, NoOpMetrics, SharedMetrics};
use cas_storage::store_options::StoreOptions;

#[test]
fn defaults_apply_when_nothing_is_set() {
    let opts = StoreOptions::resolve(None, None, None, None, &StoreConfig::default()).unwrap();
    assert_eq!(opts.metadata_db, StorageEngine::Fjall);
    assert_eq!(opts.durability, Durability::Fsync);
    assert_eq!(opts.inline_metadata_size, None);
    assert!(!opts.verify_on_read);
    assert_eq!(opts.hasher, Hasher::Blake3W32);
    // None, not the number: the default is applied by the store, so the
    // constant stays the single source of truth.
    assert_eq!(opts.stripe_count, None);
}

fn file() -> StoreConfig {
    StoreConfig {
        durability: Some(Durability::Buffer),
        metadata_db: Some(StorageEngine::Fjall),
        inline_metadata_size: Some(512),
        verify_on_read: Some(true),
        stripe_count: Some(256),
        hash: HashConfig { algo: None, width: Some(16) },
    }
}

#[test]
fn config_beats_the_defaults() {
    let opts = StoreOptions::resolve(None, None, None, None, &file()).unwrap();
    assert_eq!(opts.metadata_db, StorageEngine::Fjall);
    assert_eq!(opts.durability, Durability::Buffer);
    assert_eq!(opts.inline_metadata_size, Some(512));
    assert!(opts.verify_on_read);
    assert_eq!(opts.hasher, Hasher::Blake3W16);
    assert_eq!(opts.header_spec().hash_width, 16);
    assert_eq!(opts.stripe_count, Some(256));
}

#[test]
fn cli_beats_the_config() {
    let store = StoreConfig {
        durability: Some(Durability::Buffer),
        metadata_db: Some(StorageEngine::Fjall),
        inline_metadata_size: Some(512),
        stripe_count: Some(256),
        ..StoreConfig::default()
    };
    let opts = StoreOptions::resolve(
        Some(StorageEngine::Fjall),
        Some(Durability::Fsync),
        Some(64),
        Some(2048),
        &store,
    )
    .unwrap();
    assert_eq!(opts.metadata_db, StorageEngine::Fjall);
    assert_eq!(opts.durability, Durability::Fsync);
    assert_eq!(opts.inline_metadata_size, Some(64));
    assert_eq!(opts.stripe_count, Some(2048), "the flag must beat the file");
}

#[test]
fn stripe_count_precedence_is_flag_then_file_then_default() {
    let none = StoreConfig::default();
    let file = StoreConfig { stripe_count: Some(256), ..StoreConfig::default() };

    // Neither: left as None, so the store applies its default.
    assert_eq!(
        StoreOptions::resolve(None, None, None, None, &none).unwrap().stripe_count,
        None
    );
    // File only.
    assert_eq!(
        StoreOptions::resolve(None, None, None, None, &file).unwrap().stripe_count,
        Some(256)
    );
    // Flag only.
    assert_eq!(
        StoreOptions::resolve(None, None, None, Some(2048), &none).unwrap().stripe_count,
        Some(2048)
    );
    // Both: the flag.
    assert_eq!(
        StoreOptions::resolve(None, None, None, Some(2048), &file).unwrap().stripe_count,
        Some(2048)
    );
}

#[test]
fn a_bad_stripe_count_flag_is_refused() {
    let store = StoreConfig::default();
    let err = StoreOptions::resolve(None, None, None, Some(0), &store).unwrap_err();
    assert!(err.to_string().contains('0'), "{}", err.to_string());

    let err = StoreOptions::resolve(None, None, None, Some(MAX_STRIPE_COUNT + 1), &store)
        .unwrap_err();
    assert!(
        err.to_string().contains("stripe count"),
        "message must name the setting: {}",
        err.to_string()
    );
}

#[test]
fn a_bad_hash_section_is_refused() {
    let store = StoreConfig {
        hash: HashConfig { algo: None, width: Some(24) },
        ..StoreConfig::default()
    };
    let err = StoreOptions::resolve(None, None, None, None, &store).unwrap_err();
    assert!(err.to_string().contains("24"), "{}", err.to_string());
}

#[test]
fn an_unknown_hash_name_is_refused() {
    let named = HashConfig { algo: Some("blake3".to_string()), width: None };
    assert_eq!(named.hasher(), Ok(Hasher::Blake3W32));
    let unknown = HashConfig { algo: Some("md5".to_string()), width: None };
    assert_eq!(unknown.hasher(), Err(ConfigError::UnknownHash("md5".to_string())));
    assert!(unknown.hasher().unwrap_err().to_string().contains("md5"));
}

#[test]
fn stripe_counts_have_a_range() {
    assert!(validate_stripe_count(1).is_ok());
    assert!(validate_stripe_count(MAX_STRIPE_COUNT).is_ok());
    assert_eq!(validate_stripe_count(0), Err(ConfigError::StripeCount(0)));
}

struct Counting(AtomicU64);

impl MetricsCollector for Counting {
    fn block_pending(&self) {
        self.0.fetch_add(1, Ordering::Relaxed);
    }
    fn block_written(&self) {
        self.0.fetch_add(10, Ordering::Relaxed);
    }
    fn block_write_error(&self) {
        self.0.fetch_add(100, Ordering::Relaxed);
    }
    fn block_ignored(&self) {
        self.0.fetch_add(1_000, Ordering::Relaxed);
    }
    fn blocks_dropped(&self, amount: u64) {
        self.0.fetch_add(amount * 10_000, Ordering::Relaxed);
    }
    fn bytes_sent(&self, amount: usize) {
        self.0.fetch_add(amount as u64 * 100_000, Ordering::Relaxed);
    }
    fn bytes_received(&self, amount: usize) {
        self.0.fetch_add(amount as u64 * 1_000_000, Ordering::Relaxed);
    }
}

#[test]
fn every_event_goes_to_the_collector() {
    let collector = Arc::new(Counting(AtomicU64::new(0)));
    let metrics = SharedMetrics::new(collector.clone());
    metrics.block_pending();
    metrics.block_written();
    metrics.block_write_error();
    metrics.block_ignored();
    metrics.blocks_dropped(2);
    metrics.bytes_sent(3);
    metrics.bytes_received(4);
    metrics.block_disk_op_started();
    metrics.block_disk_op_finished();
    assert_eq!(collector.0.load(Ordering::Relaxed), 4_321_111);

    let quiet: SharedMetrics<NoOpMetrics> = SharedMetrics::default();
    quiet.block_pending();
}
