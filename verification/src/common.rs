//! Items shared by the cache, the page layouts and both indexes.

pub mod codec;
pub mod rid;
