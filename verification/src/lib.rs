//! Virtual-memory core for a 64-bit, Sv39-style three-level paging scheme:
//! page-table-entry encoding, multi-level page tables over a physical frame
//! arena, cross-address-space byte-range translation, and scatter/gather
//! user buffers.
use vstd::prelude::*;

pub mod fs;
pub mod page_table;
pub mod phys;
pub mod pte;
pub mod translate;
pub mod user_buf;

verus! {

/// Bytes in one physical frame / virtual page.
pub const PAGE_SIZE: usize = 4096;

/// Page-table entries held by one table frame.
pub const ENTRY_COUNT: usize = 512;

/// A physical page number occupies 44 bits.
pub const PPN_MASK: u64 = 0xFFF_FFFF_FFFF;

/// A virtual page number occupies 27 bits (three 9-bit indices).
pub const VPN_MASK: u64 = 0x7FF_FFFF;

} // verus!
