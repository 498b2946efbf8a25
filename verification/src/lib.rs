//! Metadata records, refcount transactions and offline consistency checking for
//! a content-addressed block store.

pub mod answers;
pub mod bytes;
pub mod cas;
pub mod clock;
pub mod config;
pub mod fsck;
pub mod hasher;
pub mod metastore;
pub mod metrics;
pub mod scrub;
pub mod store_options;
pub mod text;
