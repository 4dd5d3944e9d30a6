//! The memory manager: address types, early allocation, page tables, physical and virtual memory.
pub mod types;
pub mod bootheap;
pub mod pt;
pub mod pmm;
pub mod utils;
pub mod physmap;
pub mod early;
pub mod init;
pub mod heap;
pub mod vm;
pub mod kmap;
