//! Address spaces: a page table together with the map areas that own its
//! mappings.
use vstd::prelude::*;
use crate::MapError;
use crate::address::{PhysPageNum, VirtAddr, VirtPageNum, offset_of, page_of};
use crate::config::{PAGE_SIZE, VPN_LIMIT};
use crate::frame_allocator::{FrameAllocator, FrameTracker, frames_kept, hw_after, nth_fresh, stack_after};
use crate::page_table::{PageTable, PageTableEntry, PTE_R, PTE_U, PTE_V, PTE_W, PTE_X, legal_flags};

verus! {

broadcast use vstd::std_specs::hash::group_hash_axioms;

/// How the pages of an area find their frames.
#[derive(Debug, Clone, Copy, PartialEq, Eq, Structural)]
pub enum MapType {
    /// Each page maps to the frame with the same number.
    Identical,
    /// Each page owns a frame of its own from the allocator.
    Framed,
    /// Page `v` maps to frame `v - offset`.
    Linear(u64),
}

/// One contiguous range of virtual pages `[start, end)` with one mapping
/// strategy and one permission mask (a subset of R, W, X and U).
#[derive(Debug, Clone, Copy, PartialEq, Eq, Structural)]
pub struct MapArea {
    pub start: VirtPageNum,
    pub end: VirtPageNum,
    pub map_type: MapType,
    pub perm: u8,
}

/// Whether area `a` holds page `v`.
pub open spec fn covers(a: MapArea, v: u64) -> bool {
    a.start.0 <= v < a.end.0
}

/// Whether every table on the walks for the pages `[s, e)` of `t` exists, so
/// that mapping them takes no frame for tables.
pub open spec fn walks_ready(t: PageTable, s: u64, e: u64) -> bool {
    forall|v: u64| s <= v < e ==> #[trigger] t.walk_cost(v) == 0
}

/// Whether the page ranges `[s1, e1)` and `[s2, e2)` share a page.
pub open spec fn ranges_overlap(s1: u64, e1: u64, s2: u64, e2: u64) -> bool {
    s1 < e2 && s2 < e1
}

/// Whether `perm` is a permission mask an area may carry: only R, W, X and
/// U, and a legal combination of them.
pub open spec fn legal_perm(perm: u8) -> bool {
    perm & !(PTE_R | PTE_W | PTE_X | PTE_U) == 0 && legal_flags(perm)
}

/// `m` without the pages `[s, e)`.
pub open spec fn without_range(m: Map<u64, PageTableEntry>, s: u64, e: u64) -> Map<
    u64,
    PageTableEntry,
> {
    Map::new(|u: u64| m.contains_key(u) && !(s <= u < e), |u: u64| m[u])
}

/// Whether the bytes of frame `p` in `m` are all zero.
pub open spec fn frame_is_zero(m: Seq<u8>, p: nat) -> bool {
    forall|i: int| p * PAGE_SIZE <= i < p * PAGE_SIZE + PAGE_SIZE ==> #[trigger] m[i] == 0
}

/// Whether an area of `areas` holds page `v`.
pub open spec fn in_areas(areas: Seq<MapArea>, v: u64) -> bool {
    exists|i: int| 0 <= i < areas.len() && covers(#[trigger] areas[i], v)
}

/// Whether a framed area of `areas` holds page `v`.
pub open spec fn framed_in(areas: Seq<MapArea>, v: u64) -> bool {
    exists|i: int| 0 <= i < areas.len() && covers(#[trigger] areas[i], v) && areas[i].map_type is Framed
}

/// Each area lies in the address space, and no two areas share a page.
pub open spec fn areas_ok(a: Seq<MapArea>) -> bool {
    &&& forall|i: int| 0 <= i < a.len() ==> (#[trigger] a[i]).start.0 <= a[i].end.0 && a[i].end.0 <= VPN_LIMIT
        && legal_perm(a[i].perm)
    &&& forall|i: int, j: int|
        0 <= i < a.len() && 0 <= j < a.len() && i != j ==> !ranges_overlap(
            #[trigger] a[i].start.0,
            a[i].end.0,
            #[trigger] a[j].start.0,
            a[j].end.0,
        )
}

/// Every page of every area has an entry with the area's permissions and,
/// but for framed areas, the frame its mapping type gives.
pub open spec fn mapped_ok(a: Seq<MapArea>, m: Map<u64, PageTableEntry>) -> bool {
    forall|i: int, v: u64|
        0 <= i < a.len() && covers(#[trigger] a[i], v) ==> #[trigger] m.contains_key(v) && m[v].flags
            == a[i].perm | PTE_V && match a[i].map_type {
            MapType::Identical => m[v].ppn.0 == v,
            MapType::Linear(off) => m[v].ppn.0 + off == v,
            MapType::Framed => true,
        }
}

/// Every page with an entry lies in some area.
pub open spec fn keys_ok(a: Seq<MapArea>, m: Map<u64, PageTableEntry>) -> bool {
    forall|v: u64| #[trigger] m.contains_key(v) ==> in_areas(a, v)
}

/// No two framed pages share a frame.
pub open spec fn distinct_ok(a: Seq<MapArea>, m: Map<u64, PageTableEntry>) -> bool {
    forall|v1: u64, v2: u64|
        #[trigger] framed_in(a, v1) && #[trigger] framed_in(a, v2) && v1 != v2 ==> m[v1].ppn != m[v2].ppn
}

/// Every framed page's frame is handed out and holds no table.
pub open spec fn owned_ok(a: Seq<MapArea>, m: Map<u64, PageTableEntry>, alloc: Set<nat>, tables: Set<nat>) -> bool {
    forall|v: u64| #[trigger] framed_in(a, v) ==> alloc.contains(m[v].ppn.0 as nat) && !tables.contains(m[v].ppn.0 as nat)
}

/// A whole address space.
pub struct MemorySet {
    page_table: PageTable,
    areas: Vec<MapArea>,
}

impl MemorySet {
    /// The areas, in the order they were added.
    pub closed spec fn areas(&self) -> Seq<MapArea> {
        self.areas@
    }

    /// The page table.
    pub closed spec fn table(&self) -> PageTable {
        self.page_table
    }

    /// Whether page `v` has a valid leaf entry.
    pub open spec fn mapped(&self, v: u64) -> bool {
        self.table()@.contains_key(v)
    }

    pub closed spec fn wf(&self) -> bool {
        &&& self.page_table.wf()
        &&& areas_ok(self.areas@)
        &&& mapped_ok(self.areas@, self.page_table@)
        &&& keys_ok(self.areas@, self.page_table@)
        &&& distinct_ok(self.areas@, self.page_table@)
    }

    /// The frames of this space, the table's and the framed pages', are
    /// handed out by `frames`, and no page's frame holds a table.
    pub closed spec fn owns(&self, frames: &FrameAllocator) -> bool {
        &&& self.page_table.table_frames().subset_of(frames.allocated())
        &&& owned_ok(self.areas@, self.page_table@, frames.allocated(), self.page_table.table_frames())
    }
}

impl MemorySet {
    /// An empty address space with a fresh page table; `None` when no frame
    /// is left for its root.
    pub fn new_bare(frames: &mut FrameAllocator) -> (r: Option<Self>)
        requires
            old(frames).wf(),
            old(frames).frame_limit() <= crate::config::PPN_LIMIT,
        ensures
            final(frames).wf(),
            final(frames).frame_limit() == old(frames).frame_limit(),
            final(frames).first_frame() == old(frames).first_frame(),
            r.is_some() <==> old(frames).available() > 0,
            match r {
                Some(ms) => ms.wf() && ms.owns(final(frames)) && ms.areas().len() == 0
                    && final(frames).available() + 1 == old(frames).available()
                    && final(frames).allocated() == old(frames).allocated().union(ms.table().table_frames())
                    && ms.table()@ == Map::<u64, PageTableEntry>::empty()
                    && old(frames).allocated().subset_of(final(frames).allocated())
                    && frames_kept(old(frames).memory(), final(frames).memory(), old(frames).allocated()),
                None => *final(frames) == *old(frames),
            },
    {
        let ghost f0 = *frames;
        match PageTable::new(frames) {
            Some(page_table) => {
                proof {
                    crate::frame_allocator::lemma_zeroed_keeps(f0.memory(), page_table.root_ppn(), f0.allocated());
                }
                Some(MemorySet { page_table, areas: Vec::new() })
            },
            None => None,
        }
    }

    /// The token of this space's page table.
    pub fn token(&self) -> (r: u64)
        requires
            self.wf(),
        ensures
            r == crate::config::SATP_SV39 + self.table().root_ppn(),
    {
        self.page_table.token()
    }

    /// How many areas the space holds.
    pub fn area_count(&self) -> (r: usize)
        ensures
            r == self.areas().len(),
    {
        self.areas.len()
    }

    /// The area at `i`.
    pub fn area(&self, i: usize) -> (r: MapArea)
        requires
            i < self.areas().len(),
        ensures
            r == self.areas()[i as int],
    {
        self.areas[i]
    }

    /// The leaf entry of page `vpn`, if it is mapped.
    pub fn translate(&self, vpn: VirtPageNum) -> (r: Option<PageTableEntry>)
        requires
            self.wf(),
        ensures
            r == self.table().lookup(vpn.0),
    {
        self.page_table.translate(vpn)
    }

    pub proof fn lemma_table_ppn(&self, vpn: u64)
        requires
            self.wf(),
        ensures
            self.table()@.contains_key(vpn) ==> self.table()@[vpn].ppn.0 < crate::config::PPN_LIMIT
                && vpn < VPN_LIMIT,
    {
        if self.page_table@.contains_key(vpn) {
            self.page_table.lemma_mapped_in_range(vpn);
        }
    }

    /// Whether some area shares a page with `[s, e)`.
    fn conflicts(&self, s: u64, e: u64) -> (r: bool)
        ensures
            r == exists|i: int|
                0 <= i < self.areas().len() && ranges_overlap(
                    #[trigger] self.areas()[i].start.0,
                    self.areas()[i].end.0,
                    s,
                    e,
                ),
    {
        let mut i: usize = 0;
        while i < self.areas.len()
            invariant
                i <= self.areas@.len(),
                forall|j: int|
                    0 <= j < i ==> !ranges_overlap(
                        #[trigger] self.areas@[j].start.0,
                        self.areas@[j].end.0,
                        s,
                        e,
                    ),
            decreases self.areas@.len() - i,
        {
            let a = self.areas[i];
            if a.start.0 < e && s < a.end.0 {
                return true;
            }
            i = i + 1;
        }
        false
    }

    /// The index of the framed area that holds all of `[s, e)`, if any.
    fn find_fitting(&self, s: u64, e: u64) -> (r: Option<usize>)
        ensures
            match r {
                Some(i) => i < self.areas().len() && fits(self.areas()[i as int], s, e),
                None => forall|i: int| 0 <= i < self.areas().len() ==> !fits(#[trigger] self.areas()[i], s, e),
            },
    {
        let mut i: usize = 0;
        while i < self.areas.len()
            invariant
                i <= self.areas@.len(),
                forall|j: int| 0 <= j < i ==> !fits(#[trigger] self.areas@[j], s, e),
            decreases self.areas@.len() - i,
        {
            let a = self.areas[i];
            if matches!(a.map_type, MapType::Framed) && a.start.0 <= s && e <= a.end.0 {
                return Some(i);
            }
            i = i + 1;
        }
        None
    }

    /// Takes the pages `[start_va, end_va)` out of the framed area that holds
    /// them all: the area goes when they are all of it, shrinks when they sit
    /// at one of its edges, and is split around them otherwise. The pages are
    /// unmapped and their frames given back. An empty range takes nothing out.
    pub fn remove_framed_area(
        &mut self,
        start_va: VirtAddr,
        end_va: VirtAddr,
        frames: &mut FrameAllocator,
    ) -> (r: Result<(), MapError>)
        requires
            old(self).wf(),
            old(frames).wf(),
            old(self).owns(old(frames)),
        ensures
            final(self).wf(),
            final(frames).wf(),
            final(self).owns(final(frames)),
            final(frames).first_frame() == old(frames).first_frame(),
            final(frames).frame_limit() == old(frames).frame_limit(),
            final(frames).memory() == old(frames).memory(),
            final(self).table().root_ppn() == old(self).table().root_ppn(),
            r == remove_outcome(*old(self), start_va, end_va),
            r is Err || page_of(start_va.0 as nat) >= page_of(end_va.0 as nat) ==> final(self).areas() == old(self).areas()
                && final(self).table()@ == old(self).table()@ && *final(frames) == *old(frames),
            r is Ok && page_of(start_va.0 as nat) < page_of(end_va.0 as nat) ==> {
                let s = page_of(start_va.0 as nat) as u64;
                let e = page_of(end_va.0 as nat) as u64;
                &&& exists|i: int| 0 <= i < old(self).areas().len() && fits(#[trigger] old(self).areas()[i], s, e)
                    && final(self).areas() == areas_after_removal(old(self).areas(), i, s, e)
                &&& final(self).table()@ == without_range(old(self).table()@, s, e)
                &&& final(frames).free_stack() == old(frames).free_stack() + Seq::new((e - s) as nat, |k: int| old(self).table()@[(s + k) as u64].ppn.0)
                &&& final(frames).high_water() == old(frames).high_water()
                &&& forall|w: u64| #[trigger] final(self).table().walk_cost(w) == old(self).table().walk_cost(w)
                &&& final(frames).available() == old(frames).available() + (e - s)
                &&& forall|p: nat| #[trigger] final(frames).allocated().contains(p) <==> old(frames).allocated().contains(p)
                    && !(exists|u: u64| s <= u < e && old(self).table()@[u].ppn.0 == p)
            },
    {
        if !start_va.aligned() || !end_va.aligned() {
            return Err(MapError::UnalignedVirtualAddress);
        }
        let s = start_va.floor().0;
        let e = end_va.floor().0;
        if s >= e {
            return Ok(());
        }
        let i = match self.find_fitting(s, e) {
            Some(i) => i,
            None => {
                return Err(MapError::RemoveAreaFailed);
            },
        };
        let ghost ms0 = *self;
        let ghost f0 = *frames;
        let a = self.areas[i];
        proof {
            lemma_removal_range(ms0.areas@, ms0.page_table@, f0.allocated(), ms0.page_table.table_frames(), i as int, s, e);
        }
        unmap_range(&mut self.page_table, s, e, frames);
        if a.start.0 == s && a.end.0 == e {
            self.areas.remove(i);
        } else if a.start.0 == s {
            self.areas.set(i, MapArea { start: VirtPageNum(e), ..a });
        } else if a.end.0 == e {
            self.areas.set(i, MapArea { end: VirtPageNum(s), ..a });
        } else {
            self.areas.set(i, MapArea { end: VirtPageNum(s), ..a });
            self.areas.push(MapArea { start: VirtPageNum(e), ..a });
        }
        proof {
            assert(self.areas@ =~= areas_after_removal(ms0.areas@, i as int, s, e));
            lemma_removal_areas(ms0.areas@, self.areas@, i as int, s, e);
            lemma_removal_pages(ms0.areas@, self.areas@, i as int, s, e);
            lemma_removal_mapped(ms0.areas@, self.areas@, ms0.page_table@, self.page_table@, s, e);
            lemma_removal_keys(ms0.areas@, self.areas@, ms0.page_table@, self.page_table@, s, e);
            lemma_removal_distinct(ms0.areas@, self.areas@, ms0.page_table@, self.page_table@, s, e);
            lemma_removal_owned(ms0.areas@, self.areas@, ms0.page_table@, self.page_table@, f0.allocated(),
                frames.allocated(), self.page_table.table_frames(), i as int, s, e);
            assert(fits(ms0.areas()[i as int], s, e) && self.areas() == areas_after_removal(ms0.areas(), i as int, s, e));
        }
        Ok(())
    }

    /// Adds an area over `[start_va, end_va)` that maps each page to the
    /// frame with the same number, with permission `perm`. Such pages own no
    /// frames. An empty range adds nothing.
    pub fn insert_identical_area(
        &mut self,
        start_va: VirtAddr,
        end_va: VirtAddr,
        perm: u8,
        frames: &mut FrameAllocator,
    ) -> (r: Result<(), MapError>)
        requires
            old(self).wf(),
            old(frames).wf(),
            old(self).owns(old(frames)),
        ensures
            final(self).wf(),
            final(frames).wf(),
            final(self).owns(final(frames)),
            final(frames).first_frame() == old(frames).first_frame(),
            final(frames).frame_limit() == old(frames).frame_limit(),
            final(self).table().root_ppn() == old(self).table().root_ppn(),
            old(frames).allocated().subset_of(final(frames).allocated()),
            frames_kept(old(frames).memory(), final(frames).memory(), old(frames).allocated()),
            final(self).table().grew(&old(self).table(), old(frames), final(frames)),
            r == identical_outcome(*old(self), start_va, end_va, perm, old(frames).available(), r),
            r is Err || page_of(start_va.0 as nat) >= page_of(end_va.0 as nat) ==> final(self).areas() == old(self).areas()
                && final(self).table()@ == old(self).table()@,
            r is Ok && page_of(start_va.0 as nat) < page_of(end_va.0 as nat) ==> {
                &&& final(self).areas() == old(self).areas().push(MapArea {
                    start: VirtPageNum(page_of(start_va.0 as nat) as u64),
                    end: VirtPageNum(page_of(end_va.0 as nat) as u64),
                    map_type: MapType::Identical,
                    perm,
                })
                &&& forall|u: u64| #[trigger] final(self).table()@.contains_key(u) <==> (old(self).table()@.contains_key(u)
                    || page_of(start_va.0 as nat) <= u < page_of(end_va.0 as nat))
                &&& forall|u: u64| #[trigger] old(self).table()@.contains_key(u) ==> final(self).table()@[u] == old(self).table()@[u]
                &&& forall|u: u64| page_of(start_va.0 as nat) <= u < page_of(end_va.0 as nat)
                    ==> #[trigger] final(self).table()@[u] == (PageTableEntry { ppn: PhysPageNum(u), flags: perm | PTE_V })
            },
    {
        proof {
            self.page_table.lemma_grew_refl(frames);
        }
        if !start_va.aligned() || !end_va.aligned() {
            proof {
                crate::frame_allocator::lemma_kept_refl(frames.memory(), frames.allocated());
            }
            return Err(MapError::UnalignedVirtualAddress);
        }
        if !(perm & !(PTE_R | PTE_W | PTE_X | PTE_U) == 0 && perm & PTE_V == 0
            && perm & (PTE_R | PTE_W | PTE_X) != 0 && (perm & PTE_W == 0 || perm & PTE_R != 0)) {
            proof {
                crate::frame_allocator::lemma_kept_refl(frames.memory(), frames.allocated());
            }
            return Err(MapError::InvalidPermissionBits(perm));
        }
        let s = start_va.floor().0;
        let e = end_va.floor().0;
        proof {
            crate::frame_allocator::lemma_kept_refl(frames.memory(), frames.allocated());
        }
        if s >= e {
            return Ok(());
        }
        if e > VPN_LIMIT {
            return Err(MapError::FindPteCreateError);
        }
        if self.conflicts(s, e) {
            return Err(MapError::AreaConflict);
        }
        assert forall|u: u64| s <= u < e implies !(#[trigger] self.page_table@.contains_key(u)) by {
            if self.page_table@.contains_key(u) {
                let i = choose|i: int| 0 <= i < self.areas@.len() && covers(#[trigger] self.areas@[i], u);
                assert(ranges_overlap(self.areas@[i].start.0, self.areas@[i].end.0, s, e));
            }
        }
        let ghost ms0 = *self;
        let ghost f0 = *frames;
        let ok = map_direct_range(&mut self.page_table, s, e, 0, perm, frames);
        if !ok {
            proof {
                lemma_push_direct_frames(ms0.areas@, self.areas@, ms0.page_table@, self.page_table@, f0.allocated(),
                    frames.allocated(), ms0.page_table.table_frames(), self.page_table.table_frames());
            }
            return Err(MapError::FrameAllocationFailed);
        }
        let area = MapArea { start: VirtPageNum(s), end: VirtPageNum(e), map_type: MapType::Identical, perm };
        self.areas.push(area);
        proof {
            lemma_push_direct_shape(ms0.areas@, self.areas@, ms0.page_table@, self.page_table@, area, 0);
            lemma_push_direct_frames(ms0.areas@, self.areas@, ms0.page_table@, self.page_table@, f0.allocated(),
                frames.allocated(), ms0.page_table.table_frames(), self.page_table.table_frames());
        }
        Ok(())
    }

    /// Adds an area over `[start_va, end_va)` that maps each page `v` to
    /// frame `v - offset`, with permission `perm`, for fixed mappings such as
    /// the trampoline. Such pages own no frames. An empty range adds nothing.
    pub fn insert_linear_area(
        &mut self,
        start_va: VirtAddr,
        end_va: VirtAddr,
        offset: u64,
        perm: u8,
        frames: &mut FrameAllocator,
    ) -> (r: Result<(), MapError>)
        requires
            offset <= page_of(start_va.0 as nat),
            old(self).wf(),
            old(frames).wf(),
            old(self).owns(old(frames)),
        ensures
            final(self).wf(),
            final(frames).wf(),
            final(self).owns(final(frames)),
            final(frames).first_frame() == old(frames).first_frame(),
            final(frames).frame_limit() == old(frames).frame_limit(),
            final(self).table().root_ppn() == old(self).table().root_ppn(),
            old(frames).allocated().subset_of(final(frames).allocated()),
            frames_kept(old(frames).memory(), final(frames).memory(), old(frames).allocated()),
            final(self).table().grew(&old(self).table(), old(frames), final(frames)),
            r == identical_outcome(*old(self), start_va, end_va, perm, old(frames).available(), r),
            r is Err || page_of(start_va.0 as nat) >= page_of(end_va.0 as nat) ==> final(self).areas() == old(self).areas()
                && final(self).table()@ == old(self).table()@,
            r is Ok && page_of(start_va.0 as nat) < page_of(end_va.0 as nat) ==> {
                &&& final(self).areas() == old(self).areas().push(MapArea {
                    start: VirtPageNum(page_of(start_va.0 as nat) as u64),
                    end: VirtPageNum(page_of(end_va.0 as nat) as u64),
                    map_type: MapType::Linear(offset),
                    perm,
                })
                &&& forall|u: u64| #[trigger] final(self).table()@.contains_key(u) <==> (old(self).table()@.contains_key(u)
                    || page_of(start_va.0 as nat) <= u < page_of(end_va.0 as nat))
                &&& forall|u: u64| #[trigger] old(self).table()@.contains_key(u) ==> final(self).table()@[u] == old(self).table()@[u]
                &&& forall|u: u64| page_of(start_va.0 as nat) <= u < page_of(end_va.0 as nat)
                    ==> #[trigger] final(self).table()@[u] == (PageTableEntry { ppn: PhysPageNum((u - offset) as u64), flags: perm | PTE_V })
            },
    {
        proof {
            self.page_table.lemma_grew_refl(frames);
        }
        if !start_va.aligned() || !end_va.aligned() {
            proof {
                crate::frame_allocator::lemma_kept_refl(frames.memory(), frames.allocated());
            }
            return Err(MapError::UnalignedVirtualAddress);
        }
        if !(perm & !(PTE_R | PTE_W | PTE_X | PTE_U) == 0 && perm & PTE_V == 0
            && perm & (PTE_R | PTE_W | PTE_X) != 0 && (perm & PTE_W == 0 || perm & PTE_R != 0)) {
            proof {
                crate::frame_allocator::lemma_kept_refl(frames.memory(), frames.allocated());
            }
            return Err(MapError::InvalidPermissionBits(perm));
        }
        let s = start_va.floor().0;
        let e = end_va.floor().0;
        proof {
            crate::frame_allocator::lemma_kept_refl(frames.memory(), frames.allocated());
        }
        if s >= e {
            return Ok(());
        }
        if e > VPN_LIMIT {
            return Err(MapError::FindPteCreateError);
        }
        if self.conflicts(s, e) {
            return Err(MapError::AreaConflict);
        }
        assert forall|u: u64| s <= u < e implies !(#[trigger] self.page_table@.contains_key(u)) by {
            if self.page_table@.contains_key(u) {
                let i = choose|i: int| 0 <= i < self.areas@.len() && covers(#[trigger] self.areas@[i], u);
                assert(ranges_overlap(self.areas@[i].start.0, self.areas@[i].end.0, s, e));
            }
        }
        let ghost ms0 = *self;
        let ghost f0 = *frames;
        let ok = map_direct_range(&mut self.page_table, s, e, offset, perm, frames);
        if !ok {
            proof {
                lemma_push_direct_frames(ms0.areas@, self.areas@, ms0.page_table@, self.page_table@, f0.allocated(),
                    frames.allocated(), ms0.page_table.table_frames(), self.page_table.table_frames());
            }
            return Err(MapError::FrameAllocationFailed);
        }
        let area = MapArea { start: VirtPageNum(s), end: VirtPageNum(e), map_type: MapType::Linear(offset), perm };
        self.areas.push(area);
        proof {
            lemma_push_direct_shape(ms0.areas@, self.areas@, ms0.page_table@, self.page_table@, area, offset);
            lemma_push_direct_frames(ms0.areas@, self.areas@, ms0.page_table@, self.page_table@, f0.allocated(),
                frames.allocated(), ms0.page_table.table_frames(), self.page_table.table_frames());
        }
        Ok(())
    }

    /// Adds a framed area over `[start_va, end_va)` with permission `perm`:
    /// each page gets a fresh zeroed frame. An empty range adds nothing.
    pub fn insert_framed_area(
        &mut self,
        start_va: VirtAddr,
        end_va: VirtAddr,
        perm: u8,
        frames: &mut FrameAllocator,
    ) -> (r: Result<(), MapError>)
        requires
            old(self).wf(),
            old(frames).wf(),
            old(self).owns(old(frames)),
        ensures
            final(self).wf(),
            final(frames).wf(),
            final(self).owns(final(frames)),
            final(frames).first_frame() == old(frames).first_frame(),
            final(frames).frame_limit() == old(frames).frame_limit(),
            final(self).table().root_ppn() == old(self).table().root_ppn(),
            old(frames).allocated().subset_of(final(frames).allocated()),
            frames_kept(old(frames).memory(), final(frames).memory(), old(frames).allocated()),
            r == insert_outcome(*old(self), start_va, end_va, perm, old(frames).available(), r),
            (r is Err && r != Err::<(), MapError>(MapError::FrameAllocationFailed)) || (r is Ok && page_of(start_va.0 as nat)
                >= page_of(end_va.0 as nat)) ==> *final(frames) == *old(frames),
            r is Err ==> forall|p: nat| #[trigger] final(frames).allocated().contains(p) ==> old(frames).allocated().contains(p)
                || final(self).table().table_frames().contains(p),
            r is Err ==> final(self).areas() == old(self).areas() && final(self).table()@ == old(self).table()@,
            r is Ok && page_of(start_va.0 as nat) >= page_of(end_va.0 as nat) ==> final(self).areas() == old(self).areas()
                && final(self).table()@ == old(self).table()@,
            r is Ok && page_of(start_va.0 as nat) < page_of(end_va.0 as nat) ==> {
                &&& final(self).areas() == old(self).areas().push(MapArea {
                    start: VirtPageNum(page_of(start_va.0 as nat) as u64),
                    end: VirtPageNum(page_of(end_va.0 as nat) as u64),
                    map_type: MapType::Framed,
                    perm,
                })
                &&& forall|u: u64| #[trigger] old(self).table()@.contains_key(u) ==> final(self).table()@[u] == old(self).table()@[u]
                &&& forall|u: u64| #[trigger] final(self).table()@.contains_key(u) <==> (old(self).table()@.contains_key(u)
                    || page_of(start_va.0 as nat) <= u < page_of(end_va.0 as nat))
                &&& forall|u: u64| page_of(start_va.0 as nat) <= u < page_of(end_va.0 as nat) ==> {
                    &&& frame_is_zero(final(frames).memory(), #[trigger] final(self).table()@[u].ppn.0 as nat)
                    &&& final(self).table()@[u].flags == perm | PTE_V
                    &&& final(frames).allocated().contains(final(self).table()@[u].ppn.0 as nat)
                    &&& !old(frames).allocated().contains(final(self).table()@[u].ppn.0 as nat)
                }
                &&& walks_ready(old(self).table(), page_of(start_va.0 as nat) as u64, page_of(end_va.0 as nat) as u64) ==> {
                    &&& forall|u: u64| page_of(start_va.0 as nat) <= u < page_of(end_va.0 as nat) ==> (#[trigger] final(self).table()@[u]).ppn.0
                        == nth_fresh(old(frames).free_stack(), old(frames).high_water(), u - page_of(start_va.0 as nat))
                    &&& final(frames).free_stack() == stack_after(old(frames).free_stack(), page_of(end_va.0 as nat) - page_of(start_va.0 as nat))
                    &&& final(frames).high_water() == hw_after(old(frames).free_stack(), old(frames).high_water(),
                        page_of(end_va.0 as nat) - page_of(start_va.0 as nat))
                }
                &&& forall|u1: u64, u2: u64| page_of(start_va.0 as nat) <= u1 < page_of(end_va.0 as nat)
                    && page_of(start_va.0 as nat) <= u2 < page_of(end_va.0 as nat) && u1 != u2
                    ==> #[trigger] final(self).table()@[u1].ppn != #[trigger] final(self).table()@[u2].ppn
            },
    {
        if !start_va.aligned() || !end_va.aligned() {
            return Err(MapError::UnalignedVirtualAddress);
        }
        if !(perm & !(PTE_R | PTE_W | PTE_X | PTE_U) == 0 && perm & PTE_V == 0
            && perm & (PTE_R | PTE_W | PTE_X) != 0 && (perm & PTE_W == 0 || perm & PTE_R != 0)) {
            return Err(MapError::InvalidPermissionBits(perm));
        }
        let s = start_va.floor().0;
        let e = end_va.floor().0;
        if s >= e {
            proof {
                crate::frame_allocator::lemma_kept_refl(frames.memory(), frames.allocated());
            }
            return Ok(());
        }
        if e > VPN_LIMIT {
            return Err(MapError::FindPteCreateError);
        }
        if self.conflicts(s, e) {
            return Err(MapError::AreaConflict);
        }
        assert forall|u: u64| s <= u < e implies !(#[trigger] self.page_table@.contains_key(u)) by {
            if self.page_table@.contains_key(u) {
                let i = choose|i: int| 0 <= i < self.areas@.len() && covers(#[trigger] self.areas@[i], u);
                assert(ranges_overlap(self.areas@[i].start.0, self.areas@[i].end.0, s, e));
            }
        }
        let ghost ms0 = *self;
        let ghost f0 = *frames;
        let ok = map_fresh_range(&mut self.page_table, s, e, perm, frames);
        if !ok {
            assert(self.page_table@ == ms0.page_table@);
            assert(self.areas@ == ms0.areas@);
            assert forall|v: u64| #[trigger] framed_in(self.areas@, v) implies frames.allocated().contains(self.page_table@[v].ppn.0 as nat)
                && !self.page_table.table_frames().contains(self.page_table@[v].ppn.0 as nat) by {
                assert(framed_in(ms0.areas@, v));
                assert(f0.allocated().contains(ms0.page_table@[v].ppn.0 as nat));
            }
            assert(self.owns(frames));
            assert forall|v1: u64, v2: u64|
                #[trigger] framed_in(self.areas@, v1) && #[trigger] framed_in(self.areas@, v2) && v1 != v2
                    implies self.page_table@[v1].ppn != self.page_table@[v2].ppn by {
                assert(framed_in(ms0.areas@, v1) && framed_in(ms0.areas@, v2));
            }
            assert forall|v: u64| #[trigger] self.page_table@.contains_key(v) implies in_areas(self.areas@, v) by {
                assert(in_areas(ms0.areas@, v));
            }
            return Err(MapError::FrameAllocationFailed);
        }
        let area = MapArea { start: VirtPageNum(s), end: VirtPageNum(e), map_type: MapType::Framed, perm };
        self.areas.push(area);
        proof {
            let n = ms0.areas@.len() as int;
            assert(self.areas@[n] == area);
            assert forall|i: int| 0 <= i < n implies #[trigger] self.areas@[i] == ms0.areas@[i] by {}
            assert forall|v: u64| #[trigger] framed_in(self.areas@, v) <==> (framed_in(ms0.areas@, v) || s <= v < e) by {
                if framed_in(self.areas@, v) {
                    let i = choose|i: int| 0 <= i < self.areas@.len() && covers(#[trigger] self.areas@[i], v) && self.areas@[i].map_type is Framed;
                    if i < n {
                        assert(covers(ms0.areas@[i], v));
                    }
                }
                if framed_in(ms0.areas@, v) {
                    let i = choose|i: int| 0 <= i < ms0.areas@.len() && covers(#[trigger] ms0.areas@[i], v) && ms0.areas@[i].map_type is Framed;
                    assert(covers(self.areas@[i], v));
                }
                if s <= v < e {
                    assert(covers(self.areas@[n], v));
                }
            }
            assert forall|v: u64| framed_in(ms0.areas@, v) implies !(s <= v < e) by {
                let i = choose|i: int| 0 <= i < ms0.areas@.len() && covers(#[trigger] ms0.areas@[i], v) && ms0.areas@[i].map_type is Framed;
                assert(!ranges_overlap(ms0.areas@[i].start.0, ms0.areas@[i].end.0, s, e));
            }
            assert forall|v: u64| #[trigger] self.page_table@.contains_key(v) implies in_areas(self.areas@, v) by {
                if ms0.page_table@.contains_key(v) {
                    let i = choose|i: int| 0 <= i < ms0.areas@.len() && covers(#[trigger] ms0.areas@[i], v);
                    assert(covers(self.areas@[i], v));
                } else {
                    assert(covers(self.areas@[n], v));
                }
            }
            assert forall|i: int, v: u64| 0 <= i < self.areas@.len() && covers(#[trigger] self.areas@[i], v)
                implies #[trigger] self.page_table@.contains_key(v) && self.page_table@[v].flags
                == self.areas@[i].perm | PTE_V && match self.areas@[i].map_type {
                MapType::Identical => self.page_table@[v].ppn.0 == v,
                MapType::Linear(off) => self.page_table@[v].ppn.0 + off == v,
                MapType::Framed => true,
            } by {
                if i < n {
                    assert(covers(ms0.areas@[i], v));
                    assert(ms0.page_table@.contains_key(v));
                }
            }
            assert forall|v1: u64, v2: u64|
                #[trigger] framed_in(self.areas@, v1) && #[trigger] framed_in(self.areas@, v2) && v1 != v2
                    implies self.page_table@[v1].ppn != self.page_table@[v2].ppn by {
                if framed_in(ms0.areas@, v1) && framed_in(ms0.areas@, v2) {
                    lemma_framed_mapped(ms0.areas@, ms0.page_table@, v1);
                    lemma_framed_mapped(ms0.areas@, ms0.page_table@, v2);
                } else if framed_in(ms0.areas@, v1) {
                    lemma_framed_mapped(ms0.areas@, ms0.page_table@, v1);
                    assert(f0.allocated().contains(ms0.page_table@[v1].ppn.0 as nat));
                } else if framed_in(ms0.areas@, v2) {
                    lemma_framed_mapped(ms0.areas@, ms0.page_table@, v2);
                    assert(f0.allocated().contains(ms0.page_table@[v2].ppn.0 as nat));
                }
            }
            assert forall|v: u64| #[trigger] framed_in(self.areas@, v) implies frames.allocated().contains(self.page_table@[v].ppn.0 as nat)
                && !self.page_table.table_frames().contains(self.page_table@[v].ppn.0 as nat) by {
                if framed_in(ms0.areas@, v) {
                    lemma_framed_mapped(ms0.areas@, ms0.page_table@, v);
                    assert(f0.allocated().contains(ms0.page_table@[v].ppn.0 as nat));
                }
            }
        }
        Ok(())
    }
}

/// Whether area `a` is framed and holds all of the pages `[s, e)`.
pub open spec fn fits(a: MapArea, s: u64, e: u64) -> bool {
    a.map_type is Framed && a.start.0 <= s && e <= a.end.0
}

/// The areas after the pages `[s, e)` left area `i`: the area goes when
/// nothing is left of it, shrinks when the pages sit at one of its edges,
/// and is split around a hole otherwise, its upper part added at the end.
pub open spec fn areas_after_removal(areas: Seq<MapArea>, i: int, s: u64, e: u64) -> Seq<MapArea> {
    let a = areas[i];
    if a.start.0 == s && a.end.0 == e {
        areas.remove(i)
    } else if a.start.0 == s {
        areas.update(i, MapArea { start: VirtPageNum(e), ..a })
    } else if a.end.0 == e {
        areas.update(i, MapArea { end: VirtPageNum(s), ..a })
    } else {
        areas.update(i, MapArea { end: VirtPageNum(s), ..a }).push(
            MapArea { start: VirtPageNum(e), ..a },
        )
    }
}

/// What [`MemorySet::remove_framed_area`] returns: the alignment error
/// first; an empty range is taken out at once; otherwise success exactly
/// when one framed area holds the whole range.
pub open spec fn remove_outcome(ms: MemorySet, start_va: VirtAddr, end_va: VirtAddr) -> Result<(), MapError> {
    let s = page_of(start_va.0 as nat);
    let e = page_of(end_va.0 as nat);
    if offset_of(start_va.0 as nat) != 0 || offset_of(end_va.0 as nat) != 0 {
        Err(MapError::UnalignedVirtualAddress)
    } else if s >= e {
        Ok(())
    } else if exists|i: int| 0 <= i < ms.areas().len() && fits(#[trigger] ms.areas()[i], s as u64, e as u64) {
        Ok(())
    } else {
        Err(MapError::RemoveAreaFailed)
    }
}

/// What [`MemorySet::insert_identical_area`] and
/// [`MemorySet::insert_linear_area`] return: the first failed
/// check, in order alignment, permission, address range, conflict; past
/// them, success whenever two frames per page are free for the tables.
pub open spec fn identical_outcome(
    ms: MemorySet,
    start_va: VirtAddr,
    end_va: VirtAddr,
    perm: u8,
    available: nat,
    r: Result<(), MapError>,
) -> Result<(), MapError> {
    let s = page_of(start_va.0 as nat);
    let e = page_of(end_va.0 as nat);
    if offset_of(start_va.0 as nat) != 0 || offset_of(end_va.0 as nat) != 0 {
        Err(MapError::UnalignedVirtualAddress)
    } else if !legal_perm(perm) {
        Err(MapError::InvalidPermissionBits(perm))
    } else if s >= e {
        Ok(())
    } else if e > VPN_LIMIT {
        Err(MapError::FindPteCreateError)
    } else if exists|i: int|
        0 <= i < ms.areas().len() && ranges_overlap(
            #[trigger] ms.areas()[i].start.0,
            ms.areas()[i].end.0,
            s as u64,
            e as u64,
        ) {
        Err(MapError::AreaConflict)
    } else if available >= 2 * (e - s) {
        Ok(())
    } else if r is Ok {
        Ok(())
    } else {
        Err(MapError::FrameAllocationFailed)
    }
}

/// What [`MemorySet::insert_framed_area`] owes: the first failed check, in
/// order alignment, permission, address range, conflict; past them, success
/// whenever three frames per page are free (one for the page, two at most
/// for the tables on its walk) or, when every table on the walks exists
/// already, one per page; exhaustion whenever fewer frames than pages are
/// free; in between success or exhaustion as the tables present allow.
pub open spec fn insert_outcome(
    ms: MemorySet,
    start_va: VirtAddr,
    end_va: VirtAddr,
    perm: u8,
    available: nat,
    r: Result<(), MapError>,
) -> Result<(), MapError> {
    let s = page_of(start_va.0 as nat);
    let e = page_of(end_va.0 as nat);
    if offset_of(start_va.0 as nat) != 0 || offset_of(end_va.0 as nat) != 0 {
        Err(MapError::UnalignedVirtualAddress)
    } else if !legal_perm(perm) {
        Err(MapError::InvalidPermissionBits(perm))
    } else if s >= e {
        Ok(())
    } else if e > VPN_LIMIT {
        Err(MapError::FindPteCreateError)
    } else if exists|i: int|
        0 <= i < ms.areas().len() && ranges_overlap(
            #[trigger] ms.areas()[i].start.0,
            ms.areas()[i].end.0,
            s as u64,
            e as u64,
        ) {
        Err(MapError::AreaConflict)
    } else if available >= 3 * (e - s) {
        Ok(())
    } else if walks_ready(ms.table(), s as u64, e as u64) && available >= e - s {
        Ok(())
    } else if available < e - s {
        Err(MapError::FrameAllocationFailed)
    } else if r is Ok {
        Ok(())
    } else {
        Err(MapError::FrameAllocationFailed)
    }
}

/// Ownership of frames depends only on which frames are handed out.
pub proof fn lemma_owns_same_frames(ms: &MemorySet, f0: &FrameAllocator, f1: &FrameAllocator)
    requires
        ms.owns(f0),
        f1.allocated() == f0.allocated(),
    ensures
        ms.owns(f1),
{
}

/// A mapped page carries the valid bit and a legal permission set: in
/// particular it is never writable without being readable.
pub proof fn lemma_mapped_flags(ms: &MemorySet, v: u64)
    requires
        ms.wf(),
        ms.mapped(v),
    ensures
        ms.table()@[v].flags & PTE_V != 0,
        ms.table()@[v].flags & PTE_W != 0 ==> ms.table()@[v].flags & PTE_R != 0,
{
    assert(in_areas(ms.areas@, v));
    let i = choose|i: int| 0 <= i < ms.areas@.len() && covers(#[trigger] ms.areas@[i], v);
    assert(covers(ms.areas@[i], v));
    let perm = ms.areas@[i].perm;
    assert(legal_perm(perm));
    assert(ms.page_table@[v].flags == perm | PTE_V);
    assert((perm & 1u8 == 0 && (perm & 4u8 != 0 ==> perm & 2u8 != 0)) ==> ((perm | 1u8) & 1u8 != 0
        && ((perm | 1u8) & 4u8 != 0 ==> (perm | 1u8) & 2u8 != 0))) by (bit_vector);
}

/// In a well-formed address space no two areas share a page.
pub proof fn lemma_areas_disjoint(ms: &MemorySet, i: int, j: int)
    requires
        ms.wf(),
        0 <= i < ms.areas().len(),
        0 <= j < ms.areas().len(),
        i != j,
    ensures
        !ranges_overlap(ms.areas()[i].start.0, ms.areas()[i].end.0, ms.areas()[j].start.0, ms.areas()[j].end.0),
{
}

/// In a well-formed address space a page has a valid entry exactly when
/// some area holds it, and every page of an area carries that area's
/// permissions.
pub proof fn lemma_pages_consistent(ms: &MemorySet, v: u64)
    requires
        ms.wf(),
    ensures
        ms.mapped(v) <==> in_areas(ms.areas(), v),
        ms.mapped(v) ==> ms.table().walk_cost(v) == 0,
        forall|i: int|
            0 <= i < ms.areas().len() && covers(#[trigger] ms.areas()[i], v) ==> ms.table()@[v].flags
                == ms.areas()[i].perm | PTE_V,
{
    if ms.page_table@.contains_key(v) {
        ms.page_table.lemma_mapped_in_range(v);
    }
    if in_areas(ms.areas(), v) {
        let i = choose|i: int| 0 <= i < ms.areas().len() && covers(#[trigger] ms.areas()[i], v);
        assert(ms.page_table@.contains_key(v));
    }
    assert forall|i: int|
        0 <= i < ms.areas().len() && covers(#[trigger] ms.areas()[i], v) implies ms.table()@[v].flags
            == ms.areas()[i].perm | PTE_V by {
        assert(ms.page_table@.contains_key(v));
    }
}

proof fn lemma_removal_areas(old_areas: Seq<MapArea>, new_areas: Seq<MapArea>, i: int, s: u64, e: u64)
    requires
        0 <= i < old_areas.len(),
        s < e,
        fits(old_areas[i], s, e),
        new_areas == areas_after_removal(old_areas, i, s, e),
        areas_ok(old_areas),
    ensures
        forall|j: int, v: u64| 0 <= j < new_areas.len() && #[trigger] covers(new_areas[j], v)
            ==> exists|k: int| 0 <= k < old_areas.len() && #[trigger] covers(old_areas[k], v)
                && old_areas[k].map_type == new_areas[j].map_type && old_areas[k].perm == new_areas[j].perm
                && !(s <= v < e) && (k == i || old_areas[k] == new_areas[j]),
        forall|k: int, v: u64| 0 <= k < old_areas.len() && #[trigger] covers(old_areas[k], v) && !(s <= v < e)
            ==> exists|j: int| 0 <= j < new_areas.len() && #[trigger] covers(new_areas[j], v)
                && old_areas[k].map_type == new_areas[j].map_type,
        areas_ok(new_areas),
{
    let a = old_areas[i];
    // Every area of the new list is a part of an old one, outside [s, e).
    assert forall|j: int, v: u64| 0 <= j < new_areas.len() && #[trigger] covers(new_areas[j], v)
        implies exists|k: int| 0 <= k < old_areas.len() && covers(#[trigger] old_areas[k], v)
            && old_areas[k].map_type == new_areas[j].map_type && old_areas[k].perm == new_areas[j].perm
            && !(s <= v < e) && (k == i || old_areas[k] == new_areas[j]) by {
        if a.start.0 == s && a.end.0 == e {
            if j < i {
                assert(covers(old_areas[j], v));
            } else {
                assert(covers(old_areas[j + 1], v));
                assert(!ranges_overlap(old_areas[j + 1].start.0, old_areas[j + 1].end.0, a.start.0, a.end.0));
            }
        } else if j == i || j == old_areas.len() {
            assert(covers(old_areas[i], v));
        } else {
            assert(covers(old_areas[j], v));
            assert(!ranges_overlap(old_areas[j].start.0, old_areas[j].end.0, a.start.0, a.end.0));
        }
    }
    // Every old page outside [s, e) is in some new area.
    assert forall|k: int, v: u64| 0 <= k < old_areas.len() && #[trigger] covers(old_areas[k], v) && !(s <= v < e)
        implies exists|j: int| 0 <= j < new_areas.len() && covers(#[trigger] new_areas[j], v)
            && old_areas[k].map_type == new_areas[j].map_type by {
        if k == i {
            if a.start.0 == s && a.end.0 == e {
            } else if a.start.0 == s {
                assert(covers(new_areas[i], v));
            } else if a.end.0 == e {
                assert(covers(new_areas[i], v));
            } else if v < s {
                assert(covers(new_areas[i], v));
            } else {
                assert(covers(new_areas[old_areas.len() as int], v));
            }
        } else if a.start.0 == s && a.end.0 == e {
            if k < i {
                assert(covers(new_areas[k], v));
            } else {
                assert(covers(new_areas[k - 1], v));
            }
        } else {
            assert(covers(new_areas[k], v));
        }
    }
    assert forall|j1: int, j2: int|
        0 <= j1 < new_areas.len() && 0 <= j2 < new_areas.len() && j1 != j2 implies !ranges_overlap(
            #[trigger] new_areas[j1].start.0,
            new_areas[j1].end.0,
            #[trigger] new_areas[j2].start.0,
            new_areas[j2].end.0,
        ) by {
        let n = old_areas.len() as int;
        if a.start.0 == s && a.end.0 == e {
            let k1 = if j1 < i { j1 } else { j1 + 1 };
            let k2 = if j2 < i { j2 } else { j2 + 1 };
            assert(new_areas[j1] == old_areas[k1]);
            assert(new_areas[j2] == old_areas[k2]);
            assert(!ranges_overlap(old_areas[k1].start.0, old_areas[k1].end.0, old_areas[k2].start.0, old_areas[k2].end.0));
        } else {
            let k1 = if j1 == n { i } else { j1 };
            let k2 = if j2 == n { i } else { j2 };
            if k1 != k2 {
                assert(!ranges_overlap(old_areas[k1].start.0, old_areas[k1].end.0, old_areas[k2].start.0, old_areas[k2].end.0));
            }
        }
    }
    assert forall|j: int| 0 <= j < new_areas.len() implies (#[trigger] new_areas[j]).start.0 <= new_areas[j].end.0
        && new_areas[j].end.0 <= VPN_LIMIT && legal_perm(new_areas[j].perm) by {
        let n = old_areas.len() as int;
        if a.start.0 == s && a.end.0 == e {
            if j >= i {
                assert(new_areas[j] == old_areas[j + 1]);
                assert(old_areas[j + 1].start.0 <= old_areas[j + 1].end.0 <= VPN_LIMIT);
            } else {
                assert(new_areas[j] == old_areas[j]);
                assert(old_areas[j].start.0 <= old_areas[j].end.0 <= VPN_LIMIT);
            }
        } else if j != i && j != n {
            assert(new_areas[j] == old_areas[j]);
            assert(old_areas[j].start.0 <= old_areas[j].end.0 <= VPN_LIMIT);
        } else {
            assert(old_areas[i].start.0 <= old_areas[i].end.0 <= VPN_LIMIT);
            assert(legal_perm(old_areas[i].perm));
            assert(j == i ==> new_areas[j].end.0 <= old_areas[i].end.0 && old_areas[i].start.0 <= new_areas[j].start.0);
        }
    }
}

proof fn lemma_removal_pages(old_areas: Seq<MapArea>, new_areas: Seq<MapArea>, i: int, s: u64, e: u64)
    requires
        0 <= i < old_areas.len(),
        s < e,
        fits(old_areas[i], s, e),
        new_areas == areas_after_removal(old_areas, i, s, e),
        forall|j: int, v: u64| 0 <= j < new_areas.len() && #[trigger] covers(new_areas[j], v)
            ==> exists|k: int| 0 <= k < old_areas.len() && #[trigger] covers(old_areas[k], v)
                && old_areas[k].map_type == new_areas[j].map_type && old_areas[k].perm == new_areas[j].perm
                && !(s <= v < e) && (k == i || old_areas[k] == new_areas[j]),
        forall|k: int, v: u64| 0 <= k < old_areas.len() && #[trigger] covers(old_areas[k], v) && !(s <= v < e)
            ==> exists|j: int| 0 <= j < new_areas.len() && #[trigger] covers(new_areas[j], v)
                && old_areas[k].map_type == new_areas[j].map_type,
    ensures
        forall|v: u64| #[trigger] framed_in(new_areas, v) <==> framed_in(old_areas, v) && !(s <= v < e),
        forall|v: u64| #[trigger] in_areas(new_areas, v) <==> in_areas(old_areas, v) && !(s <= v < e),
{
    assert forall|v: u64| #[trigger] framed_in(new_areas, v) <==> framed_in(old_areas, v) && !(s <= v < e) by {
        if exists|j: int| 0 <= j < new_areas.len() && covers(#[trigger] new_areas[j], v) && new_areas[j].map_type is Framed {
            let j = choose|j: int| 0 <= j < new_areas.len() && covers(#[trigger] new_areas[j], v) && new_areas[j].map_type is Framed;
            assert(covers(new_areas[j], v));
        }
        if (exists|k: int| 0 <= k < old_areas.len() && covers(#[trigger] old_areas[k], v) && old_areas[k].map_type is Framed) && !(s <= v < e) {
            let k = choose|k: int| 0 <= k < old_areas.len() && covers(#[trigger] old_areas[k], v) && old_areas[k].map_type is Framed;
            assert(covers(old_areas[k], v));
        }
    }
    assert forall|v: u64| #[trigger] in_areas(new_areas, v) <==> in_areas(old_areas, v) && !(s <= v < e) by {
        if exists|j: int| 0 <= j < new_areas.len() && covers(#[trigger] new_areas[j], v) {
            let j = choose|j: int| 0 <= j < new_areas.len() && covers(#[trigger] new_areas[j], v);
            assert(covers(new_areas[j], v));
        }
        if (exists|k: int| 0 <= k < old_areas.len() && covers(#[trigger] old_areas[k], v)) && !(s <= v < e) {
            let k = choose|k: int| 0 <= k < old_areas.len() && covers(#[trigger] old_areas[k], v);
            assert(covers(old_areas[k], v));
        }
    }
}

proof fn lemma_removal_mapped(
    old_areas: Seq<MapArea>,
    new_areas: Seq<MapArea>,
    m0: Map<u64, PageTableEntry>,
    m1: Map<u64, PageTableEntry>,
    s: u64,
    e: u64,
)
    requires
        forall|j: int, v: u64| 0 <= j < new_areas.len() && #[trigger] covers(new_areas[j], v)
            ==> exists|k: int| 0 <= k < old_areas.len() && #[trigger] covers(old_areas[k], v)
                && old_areas[k].map_type == new_areas[j].map_type && old_areas[k].perm == new_areas[j].perm
                && !(s <= v < e),
        forall|v: u64| #[trigger] framed_in(new_areas, v) <==> framed_in(old_areas, v) && !(s <= v < e),
        forall|v: u64| #[trigger] in_areas(new_areas, v) <==> in_areas(old_areas, v) && !(s <= v < e),
        m1 == without_range(m0, s, e),
        mapped_ok(old_areas, m0),
    ensures
        mapped_ok(new_areas, m1),
{
    assert forall|j: int, v: u64| 0 <= j < new_areas.len() && covers(#[trigger] new_areas[j], v) implies #[trigger] m1.contains_key(v)
        && m1[v].flags == new_areas[j].perm | PTE_V && match new_areas[j].map_type {
        MapType::Identical => m1[v].ppn.0 == v,
        MapType::Linear(off) => m1[v].ppn.0 + off == v,
        MapType::Framed => true,
    } by {
        assert(covers(new_areas[j], v));
        let k = choose|k: int| 0 <= k < old_areas.len() && #[trigger] covers(old_areas[k], v)
            && old_areas[k].map_type == new_areas[j].map_type && old_areas[k].perm == new_areas[j].perm
            && !(s <= v < e);
        assert(m0.contains_key(v));
    }
}

proof fn lemma_removal_keys(
    old_areas: Seq<MapArea>,
    new_areas: Seq<MapArea>,
    m0: Map<u64, PageTableEntry>,
    m1: Map<u64, PageTableEntry>,
    s: u64,
    e: u64,
)
    requires
        forall|j: int, v: u64| 0 <= j < new_areas.len() && #[trigger] covers(new_areas[j], v)
            ==> exists|k: int| 0 <= k < old_areas.len() && #[trigger] covers(old_areas[k], v)
                && old_areas[k].map_type == new_areas[j].map_type && old_areas[k].perm == new_areas[j].perm
                && !(s <= v < e),
        forall|v: u64| #[trigger] framed_in(new_areas, v) <==> framed_in(old_areas, v) && !(s <= v < e),
        forall|v: u64| #[trigger] in_areas(new_areas, v) <==> in_areas(old_areas, v) && !(s <= v < e),
        m1 == without_range(m0, s, e),
        keys_ok(old_areas, m0),
    ensures
        keys_ok(new_areas, m1),
{
    assert forall|v: u64| #[trigger] m1.contains_key(v) implies in_areas(new_areas, v) by {
        assert(m0.contains_key(v));
        assert(in_areas(old_areas, v));
    }
}

proof fn lemma_removal_distinct(
    old_areas: Seq<MapArea>,
    new_areas: Seq<MapArea>,
    m0: Map<u64, PageTableEntry>,
    m1: Map<u64, PageTableEntry>,
    s: u64,
    e: u64,
)
    requires
        forall|j: int, v: u64| 0 <= j < new_areas.len() && #[trigger] covers(new_areas[j], v)
            ==> exists|k: int| 0 <= k < old_areas.len() && #[trigger] covers(old_areas[k], v)
                && old_areas[k].map_type == new_areas[j].map_type && old_areas[k].perm == new_areas[j].perm
                && !(s <= v < e),
        forall|v: u64| #[trigger] framed_in(new_areas, v) <==> framed_in(old_areas, v) && !(s <= v < e),
        forall|v: u64| #[trigger] in_areas(new_areas, v) <==> in_areas(old_areas, v) && !(s <= v < e),
        m1 == without_range(m0, s, e),
        distinct_ok(old_areas, m0),
        mapped_ok(old_areas, m0),
    ensures
        distinct_ok(new_areas, m1),
{
    assert forall|v1: u64, v2: u64|
        #[trigger] framed_in(new_areas, v1) && #[trigger] framed_in(new_areas, v2) && v1 != v2 implies m1[v1].ppn
            != m1[v2].ppn by {
        assert(framed_in(old_areas, v1) && framed_in(old_areas, v2));
        let k1 = choose|k: int| 0 <= k < old_areas.len() && covers(#[trigger] old_areas[k], v1) && old_areas[k].map_type is Framed;
        let k2 = choose|k: int| 0 <= k < old_areas.len() && covers(#[trigger] old_areas[k], v2) && old_areas[k].map_type is Framed;
        assert(m0.contains_key(v1));
        assert(m0.contains_key(v2));
    }
}

proof fn lemma_removal_owned(
    old_areas: Seq<MapArea>,
    new_areas: Seq<MapArea>,
    m0: Map<u64, PageTableEntry>,
    m1: Map<u64, PageTableEntry>,
    a0: Set<nat>,
    a1: Set<nat>,
    tables: Set<nat>,
    i: int,
    s: u64,
    e: u64,
)
    requires
        0 <= i < old_areas.len(),
        fits(old_areas[i], s, e),
        forall|v: u64| #[trigger] framed_in(new_areas, v) <==> framed_in(old_areas, v) && !(s <= v < e),
        m1 == without_range(m0, s, e),
        mapped_ok(old_areas, m0),
        distinct_ok(old_areas, m0),
        owned_ok(old_areas, m0, a0, tables),
        forall|p: nat|
            #[trigger] a1.contains(p) <==> a0.contains(p) && !(exists|u: u64| s <= u < e && m0[u].ppn.0 == p),
    ensures
        owned_ok(new_areas, m1, a1, tables),
{
    assert forall|v: u64| #[trigger] framed_in(new_areas, v) implies a1.contains(m1[v].ppn.0 as nat)
        && !tables.contains(m1[v].ppn.0 as nat) by {
        assert(framed_in(old_areas, v));
        let k = choose|k: int| 0 <= k < old_areas.len() && covers(#[trigger] old_areas[k], v) && old_areas[k].map_type is Framed;
        assert(m0.contains_key(v));
        let p = m0[v].ppn.0 as nat;
        if exists|u: u64| s <= u < e && m0[u].ppn.0 == p {
            let u = choose|u: u64| s <= u < e && m0[u].ppn.0 == p;
            assert(covers(old_areas[i], u));
            assert(framed_in(old_areas, u));
        }
    }
}

proof fn lemma_removal_range(
    areas: Seq<MapArea>,
    m0: Map<u64, PageTableEntry>,
    a0: Set<nat>,
    tables: Set<nat>,
    i: int,
    s: u64,
    e: u64,
)
    requires
        0 <= i < areas.len(),
        fits(areas[i], s, e),
        mapped_ok(areas, m0),
        distinct_ok(areas, m0),
        owned_ok(areas, m0, a0, tables),
    ensures
        forall|u: u64| s <= u < e ==> #[trigger] m0.contains_key(u),
        forall|u: u64|
            s <= u < e ==> a0.contains(#[trigger] m0[u].ppn.0 as nat) && !tables.contains(m0[u].ppn.0 as nat),
        forall|u1: u64, u2: u64| s <= u1 < e && s <= u2 < e && u1 != u2 ==> #[trigger] m0[u1].ppn != #[trigger] m0[u2].ppn,
{
    assert forall|u: u64| s <= u < e implies #[trigger] m0.contains_key(u) && framed_in(areas, u) by {
        assert(covers(areas[i], u));
    }
    assert forall|u: u64| s <= u < e implies a0.contains(#[trigger] m0[u].ppn.0 as nat) && !tables.contains(m0[u].ppn.0 as nat) by {
        assert(covers(areas[i], u));
        assert(framed_in(areas, u));
    }
    assert forall|u1: u64, u2: u64| s <= u1 < e && s <= u2 < e && u1 != u2 implies #[trigger] m0[u1].ppn != #[trigger] m0[u2].ppn by {
        assert(covers(areas[i], u1));
        assert(covers(areas[i], u2));
        assert(framed_in(areas, u1));
        assert(framed_in(areas, u2));
    }
}

proof fn lemma_push_direct_shape(a0: Seq<MapArea>, a1: Seq<MapArea>, m0: Map<u64, PageTableEntry>, m1: Map<u64, PageTableEntry>, x: MapArea, off: u64)
    requires
        a1 == a0.push(x),
        (x.map_type == MapType::Identical && off == 0) || x.map_type == MapType::Linear(off),
        off <= x.start.0,
        x.start.0 < x.end.0 <= VPN_LIMIT,
        legal_perm(x.perm),
        forall|i: int| 0 <= i < a0.len() ==> !ranges_overlap(#[trigger] a0[i].start.0, a0[i].end.0, x.start.0, x.end.0),
        areas_ok(a0),
        mapped_ok(a0, m0),
        keys_ok(a0, m0),
        forall|u: u64| #[trigger] m1.contains_key(u) <==> (m0.contains_key(u) || x.start.0 <= u < x.end.0),
        forall|u: u64| #[trigger] m0.contains_key(u) ==> m1[u] == m0[u],
        forall|u: u64| x.start.0 <= u < x.end.0 ==> #[trigger] m1[u] == (PageTableEntry { ppn: PhysPageNum((u - off) as u64), flags: x.perm | PTE_V }),
    ensures
        areas_ok(a1),
        mapped_ok(a1, m1),
        keys_ok(a1, m1),
        forall|v: u64| #[trigger] framed_in(a1, v) <==> framed_in(a0, v),
{
    let n = a0.len() as int;
    assert forall|i: int| 0 <= i < n implies #[trigger] a1[i] == a0[i] by {}
    assert(a1[n] == x);
    assert forall|i: int, j: int| 0 <= i < a1.len() && 0 <= j < a1.len() && i != j implies !ranges_overlap(
        #[trigger] a1[i].start.0, a1[i].end.0, #[trigger] a1[j].start.0, a1[j].end.0) by {
        if i < n && j < n {
            assert(!ranges_overlap(a0[i].start.0, a0[i].end.0, a0[j].start.0, a0[j].end.0));
        } else if i < n {
            assert(!ranges_overlap(a0[i].start.0, a0[i].end.0, x.start.0, x.end.0));
        } else {
            assert(!ranges_overlap(a0[j].start.0, a0[j].end.0, x.start.0, x.end.0));
        }
    }
    assert forall|i: int| 0 <= i < a1.len() implies (#[trigger] a1[i]).start.0 <= a1[i].end.0 && a1[i].end.0 <= VPN_LIMIT
        && legal_perm(a1[i].perm) by {
        if i < n {
            assert(a0[i].start.0 <= a0[i].end.0);
        }
    }
    assert forall|i: int, v: u64| 0 <= i < a1.len() && covers(#[trigger] a1[i], v) implies #[trigger] m1.contains_key(v)
        && m1[v].flags == a1[i].perm | PTE_V && match a1[i].map_type {
        MapType::Identical => m1[v].ppn.0 == v,
        MapType::Linear(off) => m1[v].ppn.0 + off == v,
        MapType::Framed => true,
    } by {
        if i < n {
            assert(covers(a0[i], v));
            assert(m0.contains_key(v));
        }
    }
    assert forall|v: u64| #[trigger] m1.contains_key(v) implies in_areas(a1, v) by {
        if m0.contains_key(v) {
            assert(in_areas(a0, v));
            let k = choose|k: int| 0 <= k < a0.len() && covers(#[trigger] a0[k], v);
            assert(covers(a1[k], v));
        } else {
            assert(covers(a1[n], v));
        }
    }
    assert forall|v: u64| #[trigger] framed_in(a1, v) <==> framed_in(a0, v) by {
        if framed_in(a1, v) {
            let k = choose|k: int| 0 <= k < a1.len() && covers(#[trigger] a1[k], v) && a1[k].map_type is Framed;
            assert(covers(a0[k], v));
        }
        if framed_in(a0, v) {
            let k = choose|k: int| 0 <= k < a0.len() && covers(#[trigger] a0[k], v) && a0[k].map_type is Framed;
            assert(covers(a1[k], v));
        }
    }
}

proof fn lemma_push_direct_frames(
    a0: Seq<MapArea>,
    a1: Seq<MapArea>,
    m0: Map<u64, PageTableEntry>,
    m1: Map<u64, PageTableEntry>,
    alloc0: Set<nat>,
    alloc1: Set<nat>,
    tables0: Set<nat>,
    tables1: Set<nat>,
)
    requires
        forall|v: u64| #[trigger] framed_in(a1, v) <==> framed_in(a0, v),
        mapped_ok(a0, m0),
        distinct_ok(a0, m0),
        owned_ok(a0, m0, alloc0, tables0),
        forall|u: u64| #[trigger] m0.contains_key(u) ==> m1.contains_key(u) && m1[u] == m0[u],
        alloc0.subset_of(alloc1),
        forall|p: nat| #[trigger] tables1.contains(p) ==> tables0.contains(p) || !alloc0.contains(p),
    ensures
        distinct_ok(a1, m1),
        owned_ok(a1, m1, alloc1, tables1),
{
    assert forall|v: u64| #[trigger] framed_in(a0, v) implies m0.contains_key(v) by {
        let k = choose|k: int| 0 <= k < a0.len() && covers(#[trigger] a0[k], v) && a0[k].map_type is Framed;
    }
    assert forall|v1: u64, v2: u64| #[trigger] framed_in(a1, v1) && #[trigger] framed_in(a1, v2) && v1 != v2 implies m1[v1].ppn != m1[v2].ppn by {
        assert(framed_in(a0, v1) && framed_in(a0, v2));
    }
    assert forall|v: u64| #[trigger] framed_in(a1, v) implies alloc1.contains(m1[v].ppn.0 as nat) && !tables1.contains(m1[v].ppn.0 as nat) by {
        assert(framed_in(a0, v));
        assert(m0.contains_key(v));
    }
}

proof fn lemma_framed_mapped(a: Seq<MapArea>, m: Map<u64, PageTableEntry>, v: u64)
    requires
        mapped_ok(a, m),
        framed_in(a, v),
    ensures
        m.contains_key(v),
{
    let i = choose|i: int| 0 <= i < a.len() && covers(#[trigger] a[i], v) && a[i].map_type is Framed;
    assert(covers(a[i], v));
}

/// Unmaps the pages `[s, e)` of `pt`, which own no frames.
fn unmap_only(pt: &mut PageTable, s: u64, e: u64)
    requires
        old(pt).wf(),
        s <= e,
        forall|u: u64| s <= u < e ==> #[trigger] old(pt)@.contains_key(u),
    ensures
        final(pt).wf(),
        final(pt)@ == without_range(old(pt)@, s, e),
        final(pt).table_frames() == old(pt).table_frames(),
        final(pt).root_ppn() == old(pt).root_ppn(),
{
    let mut v = s;
    while v < e
        invariant
            s <= v <= e,
            pt.wf(),
            pt@ == without_range(old(pt)@, s, v),
            pt.table_frames() == old(pt).table_frames(),
            pt.root_ppn() == old(pt).root_ppn(),
            forall|u: u64| s <= u < e ==> #[trigger] old(pt)@.contains_key(u),
        decreases e - v,
    {
        pt.unmap(VirtPageNum(v));
        v = v + 1;
        assert(pt@ =~= without_range(old(pt)@, s, v));
    }
}

/// Maps each page `v` of `[s, e)`, none of them mapped yet, to frame
/// `v - off` with `perm`. When frames for the tables run out, the pages
/// mapped so far are unmapped again and `false` comes out.
fn map_direct_range(pt: &mut PageTable, s: u64, e: u64, off: u64, perm: u8, frames: &mut FrameAllocator) -> (ok: bool)
    requires
        off <= s,
        old(pt).wf(),
        old(frames).wf(),
        s <= e <= VPN_LIMIT,
        legal_flags(perm),
        forall|u: u64| s <= u < e ==> !(#[trigger] old(pt)@.contains_key(u)),
        old(pt).table_frames().subset_of(old(frames).allocated()),
    ensures
        final(pt).wf(),
        final(pt).grew(old(pt), old(frames), final(frames)),
        final(pt).table_frames().subset_of(final(frames).allocated()),
        old(frames).available() >= 2 * (e - s) ==> ok,
        !ok ==> final(pt)@ == old(pt)@,
        ok ==> forall|u: u64| #[trigger] final(pt)@.contains_key(u) <==> (old(pt)@.contains_key(u) || s <= u < e),
        ok ==> forall|u: u64| #[trigger] old(pt)@.contains_key(u) ==> final(pt)@[u] == old(pt)@[u],
        ok ==> forall|u: u64| s <= u < e ==> #[trigger] final(pt)@[u] == (PageTableEntry { ppn: PhysPageNum((u - off) as u64), flags: perm | PTE_V }),
{
    let ghost pt0 = *pt;
    let ghost f0 = *frames;
    proof {
        pt0.lemma_grew_refl(&f0);
    }
    let mut v = s;
    while v < e
        invariant
            s <= v <= e <= VPN_LIMIT,
            off <= s,
            legal_flags(perm),
            pt.wf(),
            pt0 == *old(pt),
            f0 == *old(frames),
            pt.grew(&pt0, &f0, frames),
            pt.table_frames().subset_of(frames.allocated()),
            f0.available() >= 2 * (e - s) ==> frames.available() >= 2 * (e - v),
            forall|u: u64| s <= u < e ==> !(#[trigger] pt0@.contains_key(u)),
            forall|u: u64| #[trigger] pt@.contains_key(u) <==> (pt0@.contains_key(u) || s <= u < v),
            forall|u: u64| #[trigger] pt0@.contains_key(u) ==> pt@[u] == pt0@[u],
            forall|u: u64| s <= u < v ==> #[trigger] pt@[u] == (PageTableEntry { ppn: PhysPageNum((u - off) as u64), flags: perm | PTE_V }),
        decreases e - v,
    {
        let ghost pt1 = *pt;
        let ghost f1 = *frames;
        proof {
            pt1.lemma_walk_cost(v);
        }
        match pt.map(VirtPageNum(v), PhysPageNum(v - off), perm, frames) {
            Ok(()) => {
                proof {
                    PageTable::lemma_grew_trans(&pt0, &pt1, pt, &f0, &f1, frames);
                }
                v = v + 1;
            },
            Err(_) => {
                proof {
                    PageTable::lemma_grew_trans(&pt0, &pt1, pt, &f0, &f1, frames);
                }
                let ghost pt2 = *pt;
                unmap_only(pt, s, v);
                assert(pt@ =~= pt0@);
                assert(pt.table_frames() == pt2.table_frames());
                return false;
            },
        }
    }
    true
}

/// Unmaps the pages `[s, e)` of `pt` and gives their frames back.
fn unmap_range(pt: &mut PageTable, s: u64, e: u64, frames: &mut FrameAllocator)
    requires
        old(pt).wf(),
        old(frames).wf(),
        s <= e,
        forall|u: u64| s <= u < e ==> #[trigger] old(pt)@.contains_key(u),
        forall|u: u64|
            s <= u < e ==> old(frames).allocated().contains(#[trigger] old(pt)@[u].ppn.0 as nat)
                && !old(pt).table_frames().contains(old(pt)@[u].ppn.0 as nat),
        forall|u1: u64, u2: u64|
            s <= u1 < e && s <= u2 < e && u1 != u2 ==> #[trigger] old(pt)@[u1].ppn
                != #[trigger] old(pt)@[u2].ppn,
    ensures
        final(pt).wf(),
        final(pt)@ == without_range(old(pt)@, s, e),
        final(pt).table_frames() == old(pt).table_frames(),
        final(pt).root_ppn() == old(pt).root_ppn(),
        final(frames).wf(),
        final(frames).first_frame() == old(frames).first_frame(),
        final(frames).frame_limit() == old(frames).frame_limit(),
        final(frames).memory() == old(frames).memory(),
        final(frames).available() == old(frames).available() + (e - s),
        final(frames).free_stack() == old(frames).free_stack() + Seq::new((e - s) as nat, |k: int| old(pt)@[(s + k) as u64].ppn.0),
        final(frames).high_water() == old(frames).high_water(),
        forall|w: u64| #[trigger] final(pt).walk_cost(w) == old(pt).walk_cost(w),
        forall|p: nat|
            #[trigger] final(frames).allocated().contains(p) <==> old(frames).allocated().contains(p)
                && !(exists|u: u64| s <= u < e && old(pt)@[u].ppn.0 == p),
{
    let mut v = s;
    while v < e
        invariant
            s <= v <= e,
            pt.wf(),
            frames.wf(),
            pt@ == without_range(old(pt)@, s, v),
            pt.table_frames() == old(pt).table_frames(),
            pt.root_ppn() == old(pt).root_ppn(),
            frames.first_frame() == old(frames).first_frame(),
            frames.frame_limit() == old(frames).frame_limit(),
            frames.memory() == old(frames).memory(),
            frames.available() == old(frames).available() + (v - s),
            frames.free_stack() == old(frames).free_stack() + Seq::new((v - s) as nat, |k: int| old(pt)@[(s + k) as u64].ppn.0),
            frames.high_water() == old(frames).high_water(),
            forall|w: u64| #[trigger] pt.walk_cost(w) == old(pt).walk_cost(w),
            forall|u: u64| s <= u < e ==> #[trigger] old(pt)@.contains_key(u),
            forall|u: u64|
                s <= u < e ==> old(frames).allocated().contains(#[trigger] old(pt)@[u].ppn.0 as nat),
            forall|u1: u64, u2: u64|
                s <= u1 < e && s <= u2 < e && u1 != u2 ==> #[trigger] old(pt)@[u1].ppn
                    != #[trigger] old(pt)@[u2].ppn,
            forall|p: nat|
                #[trigger] frames.allocated().contains(p) <==> old(frames).allocated().contains(p)
                    && !(exists|u: u64| s <= u < v && old(pt)@[u].ppn.0 == p),
        decreases e - v,
    {
        let entry = pt.translate(VirtPageNum(v));
        let ppn = entry.unwrap().ppn;
        assert(ppn == old(pt)@[v].ppn);
        pt.unmap(VirtPageNum(v));
        assert(frames.allocated().contains(ppn.0 as nat)) by {
            if exists|u: u64| s <= u < v && old(pt)@[u].ppn.0 == ppn.0 as nat {
                let u = choose|u: u64| s <= u < v && old(pt)@[u].ppn.0 == ppn.0 as nat;
                assert(old(pt)@[u].ppn != old(pt)@[v].ppn);
            }
        }
        let ghost fb = *frames;
        frames.frame_dealloc(FrameTracker { ppn });
        v = v + 1;
        assert(frames.free_stack() =~= old(frames).free_stack() + Seq::new((v - s) as nat, |k: int| old(pt)@[(s + k) as u64].ppn.0));
        assert(pt@ =~= without_range(old(pt)@, s, v));
        assert forall|p: nat| #[trigger] frames.allocated().contains(p) <==> old(frames).allocated().contains(p)
            && !(exists|u: u64| s <= u < v && old(pt)@[u].ppn.0 == p) by {
            if exists|u: u64| s <= u < v && old(pt)@[u].ppn.0 == p {
                let u = choose|u: u64| s <= u < v && old(pt)@[u].ppn.0 == p;
                if u < v - 1 {
                    assert(!fb.allocated().contains(p));
                }
            }
            if fb.allocated().contains(p) && p != ppn.0 as nat {
                assert(!(exists|u: u64| s <= u < v && old(pt)@[u].ppn.0 == p));
            }
        }
    }
}

proof fn lemma_zero_kept(m1: Seq<u8>, m2: Seq<u8>, p: nat, s: Set<nat>)
    requires
        frame_is_zero(m1, p),
        frames_kept(m1, m2, s),
        s.contains(p),
        p * PAGE_SIZE + PAGE_SIZE <= m1.len(),
    ensures
        frame_is_zero(m2, p),
{
    assert forall|i: int| p * PAGE_SIZE <= i < p * PAGE_SIZE + PAGE_SIZE implies #[trigger] m2[i]
        == 0 by {
        crate::frame_allocator::lemma_frame_of_byte(i, p as int);
        assert(s.contains((i / PAGE_SIZE as int) as nat));
        assert(m1[i] == 0);
    }
}

/// Maps the pages `[s, e)` of `pt`, none of them mapped yet, each to a
/// fresh zeroed frame with `perm`. When frames run out, every page and
/// frame taken so far is given back and `false` comes out.
fn map_fresh_range(pt: &mut PageTable, s: u64, e: u64, perm: u8, frames: &mut FrameAllocator) -> (ok: bool)
    requires
        old(pt).wf(),
        old(frames).wf(),
        s <= e <= VPN_LIMIT,
        legal_flags(perm),
        forall|u: u64| s <= u < e ==> !(#[trigger] old(pt)@.contains_key(u)),
        old(pt).table_frames().subset_of(old(frames).allocated()),
    ensures
        final(pt).wf(),
        final(frames).wf(),
        final(pt).root_ppn() == old(pt).root_ppn(),
        final(frames).first_frame() == old(frames).first_frame(),
        final(frames).frame_limit() == old(frames).frame_limit(),
        old(pt).table_frames().subset_of(final(pt).table_frames()),
        final(pt).table_frames().subset_of(final(frames).allocated()),
        old(frames).allocated().subset_of(final(frames).allocated()),
        forall|p: nat|
            #[trigger] final(pt).table_frames().contains(p) && !old(pt).table_frames().contains(p)
                ==> !old(frames).allocated().contains(p),
        frames_kept(old(frames).memory(), final(frames).memory(), old(frames).allocated()),
        old(frames).available() >= 3 * (e - s) ==> ok,
        ok ==> old(frames).available() >= e - s,
        walks_ready(*old(pt), s, e) && old(frames).available() >= e - s ==> ok,
        walks_ready(*old(pt), s, e) && ok ==> {
            &&& forall|u: u64| s <= u < e ==> (#[trigger] final(pt)@[u]).ppn.0 == nth_fresh(
                old(frames).free_stack(), old(frames).high_water(), u - s)
            &&& final(frames).free_stack() == stack_after(old(frames).free_stack(), e - s)
            &&& final(frames).high_water() == hw_after(old(frames).free_stack(), old(frames).high_water(), e - s)
        },
        !ok ==> final(pt)@ == old(pt)@,
        !ok ==> forall|p: nat| #[trigger] final(frames).allocated().contains(p) ==> old(frames).allocated().contains(p)
            || final(pt).table_frames().contains(p),
        ok ==> forall|u: u64| #[trigger] final(pt)@.contains_key(u) <==> (old(pt)@.contains_key(u) || s <= u < e),
        ok ==> forall|u: u64| #[trigger] old(pt)@.contains_key(u) ==> final(pt)@[u] == old(pt)@[u],
        ok ==> forall|u: u64|
            s <= u < e ==> (#[trigger] final(pt)@[u]).flags == perm | PTE_V
                && final(frames).allocated().contains(final(pt)@[u].ppn.0 as nat)
                && !old(frames).allocated().contains(final(pt)@[u].ppn.0 as nat)
                && !final(pt).table_frames().contains(final(pt)@[u].ppn.0 as nat)
                && frame_is_zero(final(frames).memory(), final(pt)@[u].ppn.0 as nat),
        ok ==> forall|u1: u64, u2: u64|
            s <= u1 < e && s <= u2 < e && u1 != u2 ==> #[trigger] final(pt)@[u1].ppn
                != #[trigger] final(pt)@[u2].ppn,
{
    let ghost pt0 = *pt;
    let ghost f0 = *frames;
    let mut v = s;
    while v < e
        invariant
            s <= v <= e <= VPN_LIMIT,
            legal_flags(perm),
            pt.wf(),
            frames.wf(),
            pt0 == *old(pt),
            f0 == *old(frames),
            pt.root_ppn() == pt0.root_ppn(),
            frames.first_frame() == f0.first_frame(),
            frames.frame_limit() == f0.frame_limit(),
            pt0.table_frames().subset_of(pt.table_frames()),
            pt.table_frames().subset_of(frames.allocated()),
            f0.allocated().subset_of(frames.allocated()),
            forall|p: nat|
                #[trigger] pt.table_frames().contains(p) && !pt0.table_frames().contains(p)
                    ==> !f0.allocated().contains(p),
            frames_kept(f0.memory(), frames.memory(), f0.allocated()),
            f0.available() >= 3 * (e - s) ==> frames.available() >= 3 * (e - v),
            frames.available() + (v - s) <= f0.available(),
            walks_ready(pt0, s, e) ==> {
                &&& walks_ready(*pt, v, e)
                &&& frames.available() + (v - s) == f0.available()
                &&& frames.free_stack() == stack_after(f0.free_stack(), v - s)
                &&& frames.high_water() == hw_after(f0.free_stack(), f0.high_water(), v - s)
                &&& forall|u: u64| s <= u < v ==> (#[trigger] pt@[u]).ppn.0 == nth_fresh(f0.free_stack(), f0.high_water(), u - s)
            },
            forall|u: u64| s <= u < e ==> !(#[trigger] pt0@.contains_key(u)),
            forall|p: nat| #[trigger] frames.allocated().contains(p) ==> f0.allocated().contains(p)
                || pt.table_frames().contains(p) || exists|u: u64| s <= u < v && pt@[u].ppn.0 == p,
            forall|u: u64| #[trigger] pt@.contains_key(u) <==> (pt0@.contains_key(u) || s <= u < v),
            forall|u: u64| #[trigger] pt0@.contains_key(u) ==> pt@[u] == pt0@[u],
            forall|u: u64|
                s <= u < v ==> (#[trigger] pt@[u]).flags == perm | PTE_V
                    && frames.allocated().contains(pt@[u].ppn.0 as nat)
                    && !f0.allocated().contains(pt@[u].ppn.0 as nat)
                    && !pt.table_frames().contains(pt@[u].ppn.0 as nat)
                    && frame_is_zero(frames.memory(), pt@[u].ppn.0 as nat),
            forall|u1: u64, u2: u64|
                s <= u1 < v && s <= u2 < v && u1 != u2 ==> #[trigger] pt@[u1].ppn
                    != #[trigger] pt@[u2].ppn,
        decreases e - v,
    {
        let ghost pt1 = *pt;
        let ghost f1 = *frames;
        match frames.frame_alloc() {
            Some(f) => {
                let ppn = f.ppn;
                let ghost f2 = *frames;
                proof {
                    pt1.lemma_walk_cost(v);
                    crate::frame_allocator::lemma_zeroed_keeps(f1.memory(), ppn.0 as nat, f1.allocated());
                    crate::frame_allocator::lemma_kept_trans(f0.memory(), f1.memory(), f2.memory(), f0.allocated(), f1.allocated());
                }
                match pt.map(VirtPageNum(v), ppn, perm, frames) {
                    Ok(()) => {
                        proof {
                            crate::frame_allocator::lemma_kept_trans(f0.memory(), f2.memory(), frames.memory(), f0.allocated(), f2.allocated());
                            crate::frame_allocator::lemma_kept_trans(f1.memory(), f2.memory(), frames.memory(), f1.allocated(), f2.allocated());
                            if walks_ready(pt0, s, e) {
                                let st = f0.free_stack();
                                let n = v - s;
                                assert(f2 == *frames);
                                if n < st.len() {
                                    assert(stack_after(st, n).last() == st[st.len() - 1 - n]);
                                    assert(stack_after(st, n).drop_last() =~= stack_after(st, n + 1));
                                } else {
                                    assert(stack_after(st, n + 1) =~= stack_after(st, n));
                                }
                                assert forall|u: u64| s <= u < v + 1 implies (#[trigger] pt@[u]).ppn.0 == nth_fresh(st, f0.high_water(), u - s) by {
                                    if u < v {
                                        assert(pt@[u] == pt1@[u]);
                                    }
                                }
                                assert forall|w: u64| v + 1 <= w < e implies #[trigger] pt.walk_cost(w) == 0 by {
                                    assert(pt1.walk_cost(w) == 0);
                                }
                            }
                            assert forall|p: nat| #[trigger] frames.allocated().contains(p) implies f0.allocated().contains(p)
                                || pt.table_frames().contains(p) || exists|u: u64| s <= u < v + 1 && pt@[u].ppn.0 == p by {
                                if p == ppn.0 as nat {
                                    assert(pt@[v].ppn.0 == p);
                                } else if f1.allocated().contains(p) {
                                    if exists|u: u64| s <= u < v && pt1@[u].ppn.0 == p {
                                        let u = choose|u: u64| s <= u < v && pt1@[u].ppn.0 == p;
                                        assert(pt@[u] == pt1@[u]);
                                    }
                                }
                            }
                            assert forall|u: u64| s <= u < v + 1 implies (#[trigger] pt@[u]).flags == perm | PTE_V
                                && frames.allocated().contains(pt@[u].ppn.0 as nat)
                                && !f0.allocated().contains(pt@[u].ppn.0 as nat)
                                && !pt.table_frames().contains(pt@[u].ppn.0 as nat)
                                && frame_is_zero(frames.memory(), pt@[u].ppn.0 as nat) by {
                                let p = pt@[u].ppn.0 as nat;
                                if u < v {
                                    assert(pt@[u] == pt1@[u]);
                                    assert(f1.allocated().contains(p));
                                    f1.lemma_allocated_bounds(p);
                                    lemma_zero_kept(f1.memory(), frames.memory(), p, f1.allocated());
                                } else {
                                    assert(p == ppn.0 as nat);
                                    f2.lemma_allocated_bounds(p);
                                    assert(frame_is_zero(f2.memory(), p)) by {
                                        assert forall|i: int| p * PAGE_SIZE <= i < p * PAGE_SIZE + PAGE_SIZE implies #[trigger] f2.memory()[i] == 0 by {}
                                    }
                                    lemma_zero_kept(f2.memory(), frames.memory(), p, f2.allocated());
                                }
                            }
                        }
                        v = v + 1;
                    },
                    Err(_) => {
                        proof {
                            crate::frame_allocator::lemma_kept_trans(f0.memory(), f2.memory(), frames.memory(), f0.allocated(), f2.allocated());
                        }
                        frames.frame_dealloc(FrameTracker { ppn });
                        unmap_range(pt, s, v, frames);
                        assert(pt@ =~= pt0@);
                        return false;
                    },
                }
            },
            None => {
                unmap_range(pt, s, v, frames);
                assert(pt@ =~= pt0@);
                return false;
            },
        }
    }
    true
}

} // verus!
