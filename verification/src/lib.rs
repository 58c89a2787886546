//! A fixed-capacity key-value cache with least-recently-used eviction,
//! together with a small LIFO stack used as a building block.

pub mod linked_list;
pub mod lru_cache;
