//! The extendible hash index: a key-to-value map over the buffer cache,
//! with a global/local-depth directory and split-on-overflow buckets.

pub mod extendible_hashing;
pub mod hash_bucket_page;
pub mod hash_directory_page;
