//! Boot-time memory management for a minimal kernel: a physical-frame
//! allocator built from the bootloader-supplied memory map, and a
//! four-level page-table mapper that translates virtual addresses and
//! installs new mappings, growing the table hierarchy from the allocator.
//!
//! Everything here works on plain values: the memory map as a vector of
//! regions, the page-table hierarchy as an owned tree of tables.  The
//! hardware-facing steps (reading the page-table-base register, writing
//! video memory) live outside this crate and hand these values in.

pub mod addr;
pub mod memory_map;
pub mod frame_allocator;
pub mod page_table;
pub mod mapper;
pub mod vga;
pub mod boot;
