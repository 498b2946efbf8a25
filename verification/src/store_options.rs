//! Store settings resolved from flags, the configuration file and the built-in
//! defaults, in that order of precedence.
//!
//! Every tool that opens a store has to agree on how, so the resolution lives
//! here once.

use vstd::prelude::*;
use vstd::std_specs::convert::FromSpec;

use crate::config::{
    is_stripe_count, validate_stripe_count, ConfigError, StorageEngine, StoreConfig,
    DEFAULT_DURABILITY, DEFAULT_METADATA_DB, DEFAULT_VERIFY_ON_READ,
};
use crate::hasher::{header_hasher, Hasher, HasherError};
use crate::metastore::store_header::HeaderSpec;
use crate::metastore::traits::Durability;

verus! {

/// How a process opens its store, or creates it if it does not exist yet.
#[derive(Debug, Clone, Copy, PartialEq, Eq)]
pub struct StoreOptions {
    /// Metadata database backend.
    pub metadata_db: StorageEngine,
    /// Write durability of the metadata database.
    pub durability: Durability,
    /// Inline threshold, `None` for the backend default.
    pub inline_metadata_size: Option<usize>,
    /// Re-hash blocks on read.
    pub verify_on_read: bool,
    /// Block hash for stores created now. Ignored when the store already exists:
    /// its header wins.
    pub hasher: Hasher,
    /// Per-block lock stripes, `None` for the built-in default.
    pub stripe_count: Option<usize>,
}

/// The first of two settings that is there.
pub open spec fn first<T>(a: Option<T>, b: Option<T>) -> Option<T> {
    match a {
        Some(_) => a,
        None => b,
    }
}

/// A setting, or what it is when nothing sets it.
pub open spec fn or_default<T>(a: Option<T>, default: T) -> T {
    match a {
        Some(a) => a,
        None => default,
    }
}

/// The first of two settings that is there.
fn first_of<T>(a: Option<T>, b: Option<T>) -> (out: Option<T>)
    ensures
        out == first(a, b),
{
    match a {
        Some(a) => Some(a),
        None => b,
    }
}

/// A setting, or what it is when nothing sets it.
fn value_of<T>(a: Option<T>, default: T) -> (out: T)
    ensures
        out == or_default(a, default),
{
    match a {
        Some(a) => a,
        None => default,
    }
}

impl StoreOptions {
    /// Merges flags over the `[store]` table over the built-in defaults. Each
    /// `Option` argument is a flag: `Some` means the operator passed it.
    ///
    /// A stripe count that no store can have is refused wherever it comes from,
    /// and before a hash that this build does not have.
    pub fn resolve(
        metadata_db: Option<StorageEngine>,
        durability: Option<Durability>,
        inline_metadata_size: Option<usize>,
        stripe_count: Option<usize>,
        store: &StoreConfig,
    ) -> (out: Result<Self, ConfigError>)
        ensures
            ({
                let stripes = first(stripe_count, store.stripe_count);
                let refused = stripes matches Some(n) && !is_stripe_count(n);
                match out {
                    Ok(options) => {
                        &&& !refused
                        &&& options.metadata_db == or_default(
                            first(metadata_db, store.metadata_db),
                            DEFAULT_METADATA_DB,
                        )
                        &&& options.durability == or_default(
                            first(durability, store.durability),
                            DEFAULT_DURABILITY,
                        )
                        &&& options.inline_metadata_size == first(
                            inline_metadata_size,
                            store.inline_metadata_size,
                        )
                        &&& options.verify_on_read == or_default(
                            store.verify_on_read,
                            DEFAULT_VERIFY_ON_READ,
                        )
                        &&& store.hash.known()
                        &&& header_hasher(1, store.hash.chosen_width()) == Ok::<
                            Hasher,
                            HasherError,
                        >(options.hasher)
                        &&& options.stripe_count == stripes
                    },
                    Err(ConfigError::StripeCount(n)) => refused && stripes == Some(n),
                    Err(ConfigError::UnknownHash(name)) => !refused && !store.hash.known() && name@
                        == store.hash.algo->Some_0@,
                    Err(ConfigError::Hash(e)) => !refused && store.hash.known() && header_hasher(
                        1,
                        store.hash.chosen_width(),
                    ) == Err::<Hasher, HasherError>(e),
                }
            }),
    {
        let stripe_count = first_of(stripe_count, store.stripe_count);
        match stripe_count {
            Some(count) => match validate_stripe_count(count) {
                Ok(()) => {},
                Err(e) => {
                    return Err(e);
                },
            },
            None => {},
        }
        let hasher = match store.hash.hasher() {
            Ok(hasher) => hasher,
            Err(e) => {
                return Err(e);
            },
        };
        Ok(
            StoreOptions {
                metadata_db: value_of(
                    first_of(metadata_db, store.metadata_db),
                    DEFAULT_METADATA_DB,
                ),
                durability: value_of(first_of(durability, store.durability), DEFAULT_DURABILITY),
                inline_metadata_size: first_of(inline_metadata_size, store.inline_metadata_size),
                verify_on_read: value_of(store.verify_on_read, DEFAULT_VERIFY_ON_READ),
                hasher,
                stripe_count,
            },
        )
    }

    /// The header a store created with these options gets.
    pub fn header_spec(&self) -> (spec: HeaderSpec)
        ensures
            spec == (HeaderSpec {
                hash_algo: self.hasher.algo(),
                hash_width: self.hasher.bytes(),
            }),
    {
        HeaderSpec::from(self.hasher)
    }
}

/// A flag wins over a setting, and a setting over the default.
pub proof fn lemma_flag_wins<T>(flag: Option<T>, setting: Option<T>, default: T)
    ensures
        flag matches Some(value) ==> or_default(first(flag, setting), default) == value,
        flag is None ==> (setting matches Some(value) ==> or_default(first(flag, setting), default)
            == value),
        flag is None && setting is None ==> or_default(first(flag, setting), default) == default
            && first(flag, setting) is None,
{
}

} // verus!
