//! Virtual-memory subsystem of a small SV39 teaching kernel: physical frame
//! allocation, three-level page tables, address spaces built from map areas,
//! the translation of user buffers into physical byte ranges, and the system
//! calls that sit on top of them.
use vstd::prelude::*;

pub mod config;
pub mod address;
pub mod frame_allocator;
pub mod page_table;
pub mod memory_set;
pub mod translate;
pub mod syscall;

verus! {

/// The errors that mapping operations report.
#[derive(Debug, Clone, Copy, PartialEq, Eq, Structural)]
pub enum MapError {
    /// The walk could not materialize an intermediate table for the page.
    FindPteCreateError,
    /// Physical memory is exhausted.
    FrameAllocationFailed,
    /// The permission value is out of range or grants nothing.
    InvalidPermissionBits(u8),
    /// The virtual page already has a valid leaf entry.
    VpnAlreadyMapped(address::VirtPageNum),
    /// The range does not line up with a tracked area.
    RemoveAreaFailed,
    /// The new area overlaps an existing one.
    AreaConflict,
    /// An address that must be page-aligned is not.
    UnalignedVirtualAddress,
}

} // verus!
