//! Constants of the SV39 layout.
use vstd::prelude::*;

verus! {

/// Bytes in one page or frame.
pub const PAGE_SIZE: u64 = 4096;

/// Number of virtual pages in the 39-bit address space (2^27).
pub const VPN_LIMIT: u64 = 0x800_0000;

/// Number of physical page numbers an entry can hold (2^44).
pub const PPN_LIMIT: u64 = 0x1000_0000_0000;

/// Largest number of physical frames a machine model may hold.
pub const MAX_FRAMES: u64 = 0x8_0000;

/// Mode bits of a token that selects SV39 paging (8 in the top four bits).
pub const SATP_SV39: u64 = 0x8000_0000_0000_0000;

} // verus!
