//! The metadata layer: record formats, the traits a backing database
//! implements, and the transactions that keep reference counts right.

pub mod block;
pub mod bucket_meta;
pub mod canonical;
pub mod codec;
pub mod content_hash;
pub mod errors;
pub mod laws;
pub mod listing;
pub mod meta_store;
pub mod object;
pub mod store_header;
pub mod stores;
pub mod traits;
pub mod upload_record;

pub use block::{block_disk_path, Block, BlockId, BLOCKID_SIZE, MAX_BLOCKID_SIZE};
pub use content_hash::{ContentHash, CONTENT_HASH_SIZE};
pub use bucket_meta::BucketMeta;
pub use errors::{FsError, MetaError, StorePairingMismatch};
pub use object::{Object, ObjectData, ObjectType};
pub use upload_record::UploadRecord;
