//! Typed addresses and page numbers, kept apart for physical and virtual
//! memory, with explicit rounding.
use vstd::prelude::*;
use crate::config::PAGE_SIZE;

verus! {

/// A physical byte address.
#[derive(Debug, Clone, Copy, PartialEq, Eq, Structural)]
pub struct PhysAddr(pub u64);

/// A virtual byte address.
#[derive(Debug, Clone, Copy, PartialEq, Eq, Structural)]
pub struct VirtAddr(pub u64);

/// A physical page number: a physical address without its offset bits.
#[derive(Debug, Clone, Copy, PartialEq, Eq, Structural)]
pub struct PhysPageNum(pub u64);

/// A virtual page number: a virtual address without its offset bits.
#[derive(Debug, Clone, Copy, PartialEq, Eq, Structural)]
pub struct VirtPageNum(pub u64);

/// The page that holds byte address `a`.
pub open spec fn page_of(a: nat) -> nat {
    a / (PAGE_SIZE as nat)
}

/// The offset of byte address `a` inside its page.
pub open spec fn offset_of(a: nat) -> nat {
    a % (PAGE_SIZE as nat)
}

/// The first page at or above byte address `a`.
pub open spec fn page_ceil(a: nat) -> nat {
    if offset_of(a) == 0 { page_of(a) } else { page_of(a) + 1 }
}

impl VirtAddr {
    /// The page that holds this address (rounding down).
    pub fn floor(&self) -> (r: VirtPageNum)
        ensures
            r.0 == page_of(self.0 as nat),
    {
        VirtPageNum(self.0 / PAGE_SIZE)
    }

    /// The first page that starts at or above this address (rounding up).
    pub fn ceil(&self) -> (r: VirtPageNum)
        ensures
            r.0 == page_ceil(self.0 as nat),
    {
        if self.0 % PAGE_SIZE == 0 {
            VirtPageNum(self.0 / PAGE_SIZE)
        } else {
            VirtPageNum(self.0 / PAGE_SIZE + 1)
        }
    }

    /// The offset of this address inside its page.
    pub fn page_offset(&self) -> (r: u64)
        ensures
            r == offset_of(self.0 as nat),
            r < PAGE_SIZE,
    {
        self.0 % PAGE_SIZE
    }

    /// Whether the address is the first byte of a page.
    pub fn aligned(&self) -> (r: bool)
        ensures
            r == (offset_of(self.0 as nat) == 0),
    {
        self.0 % PAGE_SIZE == 0
    }
}

impl PhysAddr {
    /// The frame that holds this address (rounding down).
    pub fn floor(&self) -> (r: PhysPageNum)
        ensures
            r.0 == page_of(self.0 as nat),
    {
        PhysPageNum(self.0 / PAGE_SIZE)
    }

    /// The offset of this address inside its frame.
    pub fn page_offset(&self) -> (r: u64)
        ensures
            r == offset_of(self.0 as nat),
            r < PAGE_SIZE,
    {
        self.0 % PAGE_SIZE
    }
}

impl VirtPageNum {
    /// The address of the first byte of this page.
    pub fn addr(&self) -> (r: VirtAddr)
        requires
            self.0 * PAGE_SIZE <= u64::MAX,
        ensures
            r.0 == self.0 * PAGE_SIZE,
    {
        VirtAddr(self.0 * PAGE_SIZE)
    }

    /// The three 9-bit indexes of this page, root level first.
    pub fn indexes(&self) -> (r: [u64; 3])
        ensures
            r[0] == (self.0 / 0x40000) % 512,
            r[1] == (self.0 / 512) % 512,
            r[2] == self.0 % 512,
    {
        [(self.0 / 0x40000) % 512, (self.0 / 512) % 512, self.0 % 512]
    }
}

impl PhysPageNum {
    /// The address of the first byte of this frame.
    pub fn addr(&self) -> (r: PhysAddr)
        requires
            self.0 * PAGE_SIZE <= u64::MAX,
        ensures
            r.0 == self.0 * PAGE_SIZE,
    {
        PhysAddr(self.0 * PAGE_SIZE)
    }
}

} // verus!
