//! A fixed-capacity, least-recently-used cache built from safe, checked
//! primitives: a generational slot arena, an arena-backed doubly linked
//! list, and the cache that composes the two. Every operation is O(1)
//! except explicit capacity growth, and every structure manipulation is
//! verified against the invariants stated in each module.

pub mod arena;
pub mod cache;
pub mod list;
