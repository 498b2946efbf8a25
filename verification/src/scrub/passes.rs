//! The passes: what the three walkers' outputs mean.
//!
//! The store is walked once, and the same results are handed to every pass that
//! needs them. Severity is not decided here: every class carries its own.

pub mod buckets;
pub mod corruption;
pub mod dangling;
pub mod disk_sweep;
pub mod laws;
pub mod multipart;
pub mod recount;

pub use buckets::bucket_integrity;
pub use corruption::corruption_scrub;
pub use dangling::{attach_blast_radius, dangling_sweep, record_paths};
pub use multipart::{multipart_report, multipart_report_at};
pub use disk_sweep::disk_sweep;
pub use recount::recount;
