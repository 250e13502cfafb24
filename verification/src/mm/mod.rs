//! Memory management: addresses and page numbers, physical frames, page-table
//! entries and the areas of an address space.
use vstd::prelude::*;

pub mod address;
pub mod frame_allocator;
pub mod memory_set;
pub mod page_order;
pub mod page_table;
pub mod range;

verus! {

} // verus!
