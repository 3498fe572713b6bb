//! A paged virtual-memory layer: several independent logical address spaces,
//! each tagged by a one-byte owner, share a single growable physical memory.
//! A persistent ordered map (the page table) records which physical page
//! belongs to which owner; logical byte ranges are translated to physical
//! page offsets through that table.

pub mod candid_header;
pub mod chunk_manager;
pub mod errors;
pub mod laws;
pub mod model;
pub mod physical;
pub mod table;

pub use candid_header::CandidHeader;
pub use chunk_manager::{Manager, VirtualMemory};
pub use errors::MemoryError;
pub use physical::PhysicalMemory;
pub use table::TableStore;
