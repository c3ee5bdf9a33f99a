//! The persistence substrate: page store, eviction policy, buffer cache.

pub mod buffer_pool;
pub mod disk_manager;
pub mod lru_replacer;
