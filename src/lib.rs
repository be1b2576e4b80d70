//! Lookup over the local cache of a package-registry index: the shard
//! directory of a package name, the live versions in a cache file, and the
//! decisions of a substring scan over the cache.
pub mod error;
pub mod lookup;
pub mod records;
pub mod scan;
pub mod shard;
