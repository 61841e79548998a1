//! Physical frames, two-level paging and the buddy heaps built on them.

pub mod physicalmemory;
pub mod virtualmemory;
pub mod dynamicmemory;
pub mod heap_test;
pub mod paging;
