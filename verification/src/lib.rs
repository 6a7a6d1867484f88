//! Memory-management core for a single-hart supervisor: a two-tier buddy
//! frame/heap allocator, a policy-driven three-level page-table builder, and
//! a load-footprint calculator for executable images.
//!
//! Physical memory is modeled by plain addresses (`usize`); the allocator
//! manages power-of-two, naturally aligned address ranges, the page-table
//! builder records the radix tree it constructs, and the footprint
//! calculator is pure arithmetic over segment descriptors.

pub mod buddy;
pub mod footprint;
pub mod page_table;
