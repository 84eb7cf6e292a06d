//! An early-boot allocator that hands out bytes forward and pages backward
//! from one fixed region, and a small `u64`-keyed hash map.
pub mod collections;
pub mod early;
