//! A verified model of the virtual-memory core of a small 64-bit kernel:
//! physical frames and virtual pages, the four-level page table reached
//! through its own recursive slot, temporary mappings, the active/inactive
//! table life cycle and the kernel remap that leaves a guard page behind.
pub mod address;
pub mod allocator;
pub mod bump;
pub mod mapper;
pub mod memory;
pub mod paging;
pub mod remap;
pub mod stack;
