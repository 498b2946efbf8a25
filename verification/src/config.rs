//! The settings of a store, as a configuration file gives them.

use vstd::prelude::*;
use vstd::string::*;

use crate::hasher::{header_hasher, Hasher, HasherError};
use crate::metastore::traits::Durability;
use crate::text::{dec, equal_text, put_len_dec};

verus! {

/// The metadata database backends.
#[derive(Debug, Clone, Copy, PartialEq, Eq, Structural)]
pub enum StorageEngine {
    /// The fjall key-value store.
    Fjall,
}

/// The backend of a store that is not told otherwise.
pub const DEFAULT_METADATA_DB: StorageEngine = StorageEngine::Fjall;

/// The durability of a store that is not told otherwise: the strongest.
pub const DEFAULT_DURABILITY: Durability = Durability::Fsync;

/// Blocks are not re-hashed on read unless this is asked for.
pub const DEFAULT_VERIFY_ON_READ: bool = false;

/// The most lock stripes a store can have.
pub const MAX_STRIPE_COUNT: usize = 65536;

/// The `[store.hash]` table: the block hash of stores created now.
#[derive(Debug)]
pub struct HashConfig {
    /// Name of the algorithm.
    pub algo: Option<String>,
    /// Width of an address in bytes.
    pub width: Option<u8>,
}

/// The `[store]` table.
#[derive(Debug)]
pub struct StoreConfig {
    /// Metadata database backend.
    pub metadata_db: Option<StorageEngine>,
    /// Write durability of the metadata database.
    pub durability: Option<Durability>,
    /// Inline threshold.
    pub inline_metadata_size: Option<usize>,
    /// Re-hash blocks on read.
    pub verify_on_read: Option<bool>,
    /// Per-block lock stripes.
    pub stripe_count: Option<usize>,
    /// Block hash of stores created now.
    pub hash: HashConfig,
}

impl Default for HashConfig {
    /// Nothing set.
    fn default() -> (config: Self)
        ensures
            config.algo is None,
            config.width is None,
    {
        HashConfig { algo: None, width: None }
    }
}

impl Default for StoreConfig {
    /// Nothing set.
    fn default() -> (config: Self)
        ensures
            config.metadata_db is None,
            config.durability is None,
            config.inline_metadata_size is None,
            config.verify_on_read is None,
            config.stripe_count is None,
            config.hash.algo is None,
            config.hash.width is None,
    {
        StoreConfig {
            metadata_db: None,
            durability: None,
            inline_metadata_size: None,
            verify_on_read: None,
            stripe_count: None,
            hash: HashConfig::default(),
        }
    }
}

/// Why a setting cannot be used.
#[derive(Debug, PartialEq, Eq)]
pub enum ConfigError {
    /// The stripe count is outside the usable range.
    StripeCount(usize),
    /// No block hash has this name.
    UnknownHash(String),
    /// The hash has no such width.
    Hash(HasherError),
}

impl ConfigError {
    /// The message.
    pub open spec fn text(self) -> Seq<char> {
        match self {
            ConfigError::StripeCount(n) => "stripe count "@ + dec(n as nat)
                + " is not between 1 and "@ + dec(MAX_STRIPE_COUNT as nat),
            ConfigError::UnknownHash(name) => "unknown block hash "@ + name@,
            ConfigError::Hash(e) => e.text(),
        }
    }

    /// The message.
    pub fn to_string(&self) -> (out: String)
        ensures
            out@ == self.text(),
    {
        match self {
            ConfigError::StripeCount(n) => {
                let mut out = "stripe count ".to_owned();
                put_len_dec(&mut out, *n);
                out.append(" is not between 1 and ");
                put_len_dec(&mut out, MAX_STRIPE_COUNT);
                out
            },
            ConfigError::UnknownHash(name) => {
                let mut out = "unknown block hash ".to_owned();
                out.append(name);
                out
            },
            ConfigError::Hash(e) => e.to_string(),
        }
    }
}

/// Whether a store can have so many lock stripes.
pub open spec fn is_stripe_count(n: usize) -> bool {
    1 <= n <= MAX_STRIPE_COUNT
}

/// Refuses a stripe count that no store can have.
pub fn validate_stripe_count(n: usize) -> (out: Result<(), ConfigError>)
    ensures
        match out {
            Ok(()) => is_stripe_count(n),
            Err(e) => !is_stripe_count(n) && e == ConfigError::StripeCount(n),
        },
{
    if n < 1 || n > MAX_STRIPE_COUNT {
        Err(ConfigError::StripeCount(n))
    } else {
        Ok(())
    }
}

/// The name of the block hash there is.
pub const HASH_NAME: &'static str = "blake3";

impl HashConfig {
    /// The width asked for; 32 bytes where none is.
    pub open spec fn chosen_width(self) -> u8 {
        match self.width {
            Some(width) => width,
            None => 32,
        }
    }

    /// Whether the hash asked for is the one there is.
    pub open spec fn known(self) -> bool {
        self.algo matches Some(name) ==> name@ == HASH_NAME@
    }

    /// The block hash these settings name.
    pub fn hasher(&self) -> (out: Result<Hasher, ConfigError>)
        ensures
            match out {
                Ok(hasher) => self.known() && header_hasher(1, self.chosen_width()) == Ok::<
                    Hasher,
                    HasherError,
                >(hasher),
                Err(ConfigError::UnknownHash(name)) => !self.known() && name@
                    == self.algo->Some_0@,
                Err(ConfigError::Hash(e)) => self.known() && header_hasher(
                    1,
                    self.chosen_width(),
                ) == Err::<Hasher, HasherError>(e),
                Err(_) => false,
            },
    {
        match &self.algo {
            Some(name) => {
                if !equal_text(name, HASH_NAME) {
                    return Err(ConfigError::UnknownHash(name.as_str().to_owned()));
                }
            },
            None => {},
        }
        let width: u8 = match self.width {
            Some(width) => width,
            None => Hasher::Blake3W32.width(),
        };
        match Hasher::from_header(Hasher::Blake3W32.algo_id(), width) {
            Ok(hasher) => Ok(hasher),
            Err(e) => Err(ConfigError::Hash(e)),
        }
    }
}

/// Settings name a hash exactly where they name no algorithm or blake3, and no width
/// or one of 16 and 32 bytes; without a width it is the one of 32.
pub proof fn lemma_hash_named(config: HashConfig)
    ensures
        config.algo is None ==> config.known(),
        config.algo matches Some(name) ==> (config.known() <==> name@ == "blake3"@),
        config.width is None ==> config.chosen_width() == 32,
        config.width matches Some(width) ==> config.chosen_width() == width,
{
}

} // verus!
