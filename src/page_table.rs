//! SV39 page tables: entries, the three-level walk, and mapping of single
//! pages.
//!
//! The table owns its root frame and one frame for every intermediate or leaf
//! table that a walk has created. The two directory levels are kept per
//! index prefix of the virtual page number, and the leaf entries per page.
use vstd::prelude::*;
use std::collections::HashMap;
use crate::MapError;
use crate::address::{PhysPageNum, VirtPageNum};
use crate::config::{PAGE_SIZE, PPN_LIMIT, SATP_SV39, VPN_LIMIT};
use crate::frame_allocator::{
    FrameAllocator, FrameTracker, frames_kept, lemma_kept_trans, lemma_zeroed_keeps, zeroed_frame,
};

verus! {

broadcast use vstd::std_specs::hash::group_hash_axioms;

/// Valid.
pub const PTE_V: u8 = 1;
/// Readable.
pub const PTE_R: u8 = 2;
/// Writable.
pub const PTE_W: u8 = 4;
/// Executable.
pub const PTE_X: u8 = 8;
/// Accessible from user mode.
pub const PTE_U: u8 = 16;
/// Global.
pub const PTE_G: u8 = 32;
/// Accessed.
pub const PTE_A: u8 = 64;
/// Dirty.
pub const PTE_D: u8 = 128;

/// Whether `flags` may be handed to [`PageTable::map`]: the valid bit is set
/// by the table itself, at least one of R, W and X is granted, and W never
/// comes without R.
pub open spec fn legal_flags(flags: u8) -> bool {
    &&& flags & PTE_V == 0
    &&& flags & (PTE_R | PTE_W | PTE_X) != 0
    &&& (flags & PTE_W != 0 ==> flags & PTE_R != 0)
}

/// One page-table entry: a frame number and the flag byte.
#[derive(Debug, Clone, Copy, PartialEq, Eq, Structural)]
pub struct PageTableEntry {
    pub ppn: PhysPageNum,
    pub flags: u8,
}

impl PageTableEntry {
    /// An entry for frame `ppn` with the given flags.
    pub fn new(ppn: PhysPageNum, flags: u8) -> (r: Self)
        ensures
            r.ppn == ppn,
            r.flags == flags,
    {
        PageTableEntry { ppn, flags }
    }

    /// An invalid entry.
    pub fn empty() -> (r: Self)
        ensures
            r.ppn.0 == 0,
            r.flags == 0,
    {
        PageTableEntry { ppn: PhysPageNum(0), flags: 0 }
    }

    /// The hardware word: the frame number above ten flag bits.
    pub fn bits(&self) -> (r: u64)
        requires
            self.ppn.0 < PPN_LIMIT,
        ensures
            r == self.ppn.0 * 1024 + self.flags,
    {
        self.ppn.0 * 1024 + self.flags as u64
    }

    pub fn is_valid(&self) -> (r: bool)
        ensures
            r == (self.flags & PTE_V != 0),
    {
        self.flags & PTE_V != 0
    }

    pub fn readable(&self) -> (r: bool)
        ensures
            r == (self.flags & PTE_R != 0),
    {
        self.flags & PTE_R != 0
    }

    pub fn writable(&self) -> (r: bool)
        ensures
            r == (self.flags & PTE_W != 0),
    {
        self.flags & PTE_W != 0
    }

    pub fn executable(&self) -> (r: bool)
        ensures
            r == (self.flags & PTE_X != 0),
    {
        self.flags & PTE_X != 0
    }

    pub fn user(&self) -> (r: bool)
        ensures
            r == (self.flags & PTE_U != 0),
    {
        self.flags & PTE_U != 0
    }
}

/// Key of the level-one table that a walk for `vpn` passes through.
pub open spec fn mid_key(vpn: nat) -> nat {
    vpn / 0x40000
}

/// Key of the leaf table that a walk for `vpn` ends in.
pub open spec fn low_key(vpn: nat) -> nat {
    vpn / 512
}

/// One address space's page table.
pub struct PageTable {
    root: FrameTracker,
    mid: HashMap<u64, u64>,
    low: HashMap<u64, u64>,
    leaves: HashMap<u64, PageTableEntry>,
    frames: Vec<FrameTracker>,
}

impl View for PageTable {
    type V = Map<u64, PageTableEntry>;

    /// The valid leaf entries, by virtual page number.
    closed spec fn view(&self) -> Map<u64, PageTableEntry> {
        self.leaves@
    }
}

impl PageTable {
    pub closed spec fn wf(&self) -> bool {
        &&& self.root.ppn.0 < PPN_LIMIT
        &&& forall|v: u64| #[trigger]
            self.leaves@.contains_key(v) ==> v < VPN_LIMIT && self.mid@.contains_key(
                (v / 0x40000) as u64,
            ) && self.low@.contains_key((v / 512) as u64) && self.leaves@[v].flags & PTE_V != 0
                && self.leaves@[v].ppn.0 < PPN_LIMIT
    }

    /// The frames that hold the table itself.
    pub closed spec fn table_frames(&self) -> Set<nat> {
        Set::new(
            |p: nat|
                p == self.root.ppn.0 || exists|i: int|
                    0 <= i < self.frames@.len() && self.frames@[i].ppn.0 == p,
        )
    }

    /// Frames a walk for `vpn` would have to create.
    pub closed spec fn walk_cost(&self, vpn: u64) -> nat {
        (if self.mid@.contains_key((vpn / 0x40000) as u64) { 0nat } else { 1nat }) + (
        if self.low@.contains_key((vpn / 512) as u64) {
            0nat
        } else {
            1nat
        })
    }

    /// The root frame number.
    pub closed spec fn root_ppn(&self) -> nat {
        self.root.ppn.0 as nat
    }

    pub proof fn lemma_walk_cost(&self, vpn: u64)
        ensures
            self.walk_cost(vpn) <= 2,
    {
    }

    pub proof fn lemma_mapped_in_range(&self, vpn: u64)
        requires
            self.wf(),
            self@.contains_key(vpn),
        ensures
            vpn < VPN_LIMIT,
            self@[vpn].flags & PTE_V != 0,
            self@[vpn].ppn.0 < PPN_LIMIT,
            self.walk_cost(vpn) == 0,
    {
    }

    /// An empty table with a fresh root frame; `None` when no frame is left.
    pub fn new(frames: &mut FrameAllocator) -> (r: Option<Self>)
        requires
            old(frames).wf(),
            old(frames).frame_limit() <= PPN_LIMIT,
        ensures
            final(frames).wf(),
            final(frames).frame_limit() == old(frames).frame_limit(),
            final(frames).first_frame() == old(frames).first_frame(),
            r.is_some() <==> old(frames).available() > 0,
            r.is_none() ==> *final(frames) == *old(frames),
            match r {
                Some(t) => {
                    &&& t.wf()
                    &&& t@ == Map::<u64, PageTableEntry>::empty()
                    &&& t.table_frames() == set![t.root_ppn()]
                    &&& final(frames).memory() == zeroed_frame(old(frames).memory(), t.root_ppn())
                    &&& final(frames).available() + 1 == old(frames).available()
                    &&& final(frames).allocated() == old(frames).allocated().union(t.table_frames())
                    &&& old(frames).allocated().disjoint(t.table_frames())
                    &&& t.table_frames().subset_of(final(frames).allocated())
                },
                None => true,
            },
    {
        match frames.frame_alloc() {
            Some(root) => {
                proof {
                    frames.lemma_allocated_bounds(root.ppn.0 as nat);
                }
                let t = PageTable {
                    root,
                    mid: HashMap::new(),
                    low: HashMap::new(),
                    leaves: HashMap::new(),
                    frames: Vec::new(),
                };
                assert(t.table_frames() =~= set![t.root.ppn.0 as nat]);
                assert(final(frames).allocated() =~= old(frames).allocated().union(
                    t.table_frames(),
                ));
                Some(t)
            },
            None => None,
        }
    }

    /// The token that activates this address space: SV39 mode above the root
    /// frame number.
    pub fn token(&self) -> (r: u64)
        requires
            self.wf(),
        ensures
            r == SATP_SV39 + self.root_ppn(),
    {
        SATP_SV39 + self.root.ppn.0
    }

    /// Makes sure the directory entry under `key` in `dir` exists, creating
    /// its table frame if needed.
    fn ensure_dir(dir: &mut HashMap<u64, u64>, owned: &mut Vec<FrameTracker>, key: u64, frames: &mut FrameAllocator) -> (ok: bool)
        requires
            old(frames).wf(),
        ensures
            final(frames).wf(),
            final(frames).frame_limit() == old(frames).frame_limit(),
            final(frames).first_frame() == old(frames).first_frame(),
            ok <==> (old(dir)@.contains_key(key) || old(frames).available() > 0),
            ok ==> final(dir)@.contains_key(key),
            final(dir)@.dom() == if ok { old(dir)@.dom().insert(key) } else { old(dir)@.dom() },
            old(dir)@.contains_key(key) || !ok ==> *final(frames) == *old(frames) && final(owned)@ == old(owned)@,
            !old(dir)@.contains_key(key) && ok ==> exists|f: FrameTracker| {
                &&& final(owned)@ == old(owned)@.push(f)
                &&& !old(frames).allocated().contains(f.ppn.0 as nat)
                &&& final(frames).allocated() == old(frames).allocated().insert(f.ppn.0 as nat)
                &&& final(frames).available() + 1 == old(frames).available()
                &&& final(frames).memory() == zeroed_frame(old(frames).memory(), f.ppn.0 as nat)
            },
    {
        if dir.contains_key(&key) {
            return true;
        }
        match frames.frame_alloc() {
            Some(f) => {
                dir.insert(key, f.ppn.0);
                owned.push(f);
                true
            },
            None => false,
        }
    }

    /// What a call that may create table frames does to the allocator: the
    /// frames it took are fresh and now belong to the table, and the bytes of
    /// every frame handed out before are kept.
    pub open spec fn grew(
        &self,
        old_t: &PageTable,
        old_f: &FrameAllocator,
        new_f: &FrameAllocator,
    ) -> bool {
        &&& new_f.wf()
        &&& new_f.frame_limit() == old_f.frame_limit()
        &&& new_f.first_frame() == old_f.first_frame()
        &&& self.root_ppn() == old_t.root_ppn()
        &&& old_t.table_frames().subset_of(self.table_frames())
        &&& old_f.allocated().disjoint(self.table_frames().difference(old_t.table_frames()))
        &&& new_f.allocated() == old_f.allocated().union(
            self.table_frames().difference(old_t.table_frames()),
        )
        &&& frames_kept(old_f.memory(), new_f.memory(), old_f.allocated())
    }

    proof fn lemma_frames_push(a: &PageTable, b: &PageTable)
        requires
            a.root == b.root,
            b.frames@.len() == a.frames@.len() + 1,
            b.frames@.drop_last() == a.frames@,
        ensures
            b.table_frames() == a.table_frames().insert(b.frames@.last().ppn.0 as nat),
    {
        assert forall|p: nat| b.table_frames().contains(p) <==> a.table_frames().insert(
            b.frames@.last().ppn.0 as nat,
        ).contains(p) by {
            if exists|i: int| 0 <= i < b.frames@.len() && b.frames@[i].ppn.0 == p {
                let i = choose|i: int| 0 <= i < b.frames@.len() && b.frames@[i].ppn.0 == p;
                if i < a.frames@.len() {
                    assert(a.frames@[i] == b.frames@[i]);
                }
            }
            if exists|i: int| 0 <= i < a.frames@.len() && a.frames@[i].ppn.0 == p {
                let i = choose|i: int| 0 <= i < a.frames@.len() && a.frames@[i].ppn.0 == p;
                assert(a.frames@[i] == b.frames@[i]);
            }
        }
        assert(b.table_frames() =~= a.table_frames().insert(b.frames@.last().ppn.0 as nat));
    }

    proof fn lemma_frames_same(a: &PageTable, b: &PageTable)
        requires
            a.root == b.root,
            b.frames@ == a.frames@,
        ensures
            b.table_frames() == a.table_frames(),
    {
        assert(b.table_frames() =~= a.table_frames());
    }

    pub proof fn lemma_grew_trans(
        t0: &PageTable,
        t1: &PageTable,
        t2: &PageTable,
        f0: &FrameAllocator,
        f1: &FrameAllocator,
        f2: &FrameAllocator,
    )
        requires
            t1.grew(t0, f0, f1),
            t2.grew(t1, f1, f2),
        ensures
            t2.grew(t0, f0, f2),
    {
        lemma_kept_trans(f0.memory(), f1.memory(), f2.memory(), f0.allocated(), f1.allocated());
        assert(f0.allocated().disjoint(t2.table_frames().difference(t0.table_frames()))) by {
            assert forall|p: nat| f0.allocated().contains(p) implies !t2.table_frames().difference(
                t0.table_frames(),
            ).contains(p) by {
                assert(f1.allocated().contains(p));
            }
        }
        assert(f2.allocated() =~= f0.allocated().union(
            t2.table_frames().difference(t0.table_frames()),
        ));
    }

    pub proof fn lemma_grew_refl(&self, f: &FrameAllocator)
        requires
            f.wf(),
        ensures
            self.grew(self, f, f),
    {
        assert(f.allocated() =~= f.allocated().union(
            self.table_frames().difference(self.table_frames()),
        ));
    }

    /// Maps page `vpn` to frame `ppn` with `flags` (and the valid bit),
    /// creating the intermediate tables on the way.
    pub fn map(&mut self, vpn: VirtPageNum, ppn: PhysPageNum, flags: u8, frames: &mut FrameAllocator) -> (r: Result<(), MapError>)
        requires
            old(self).wf(),
            old(frames).wf(),
            old(self).table_frames().subset_of(old(frames).allocated()),
            ppn.0 < PPN_LIMIT,
        ensures
            final(self).wf(),
            final(self).grew(old(self), old(frames), final(frames)),
            final(self).table_frames().subset_of(final(frames).allocated()),
            !legal_flags(flags) ==> r == Err::<(), MapError>(MapError::InvalidPermissionBits(flags)),
            legal_flags(flags) && vpn.0 >= VPN_LIMIT ==> r == Err::<(), MapError>(MapError::FindPteCreateError),
            legal_flags(flags) && vpn.0 < VPN_LIMIT && old(self)@.contains_key(vpn.0) ==> r == Err::<(), MapError>(MapError::VpnAlreadyMapped(vpn)),
            legal_flags(flags) && vpn.0 < VPN_LIMIT && !old(self)@.contains_key(vpn.0) ==> (r is Ok <==> old(frames).available() >= old(self).walk_cost(vpn.0)),
            legal_flags(flags) && vpn.0 < VPN_LIMIT && !old(self)@.contains_key(vpn.0) && r is Err ==> r == Err::<(), MapError>(MapError::FrameAllocationFailed),
            r is Ok ==> final(self)@ == old(self)@.insert(vpn.0, PageTableEntry { ppn, flags: flags | PTE_V }),
            r is Ok ==> final(frames).available() + old(self).walk_cost(vpn.0) == old(frames).available(),
            r is Err ==> final(self)@ == old(self)@,
            r is Err ==> final(frames).available() <= old(frames).available(),
            r is Ok && old(self).walk_cost(vpn.0) == 0 ==> *final(frames) == *old(frames),
            forall|w: u64| old(self).walk_cost(w) == 0 ==> #[trigger] final(self).walk_cost(w) == 0,
    {
        if !(flags & PTE_V == 0 && flags & (PTE_R | PTE_W | PTE_X) != 0 && (flags & PTE_W == 0 || flags & PTE_R != 0)) {
            proof {
                self.lemma_grew_refl(frames);
            }
            return Err(MapError::InvalidPermissionBits(flags));
        }
        if vpn.0 >= VPN_LIMIT {
            proof {
                self.lemma_grew_refl(frames);
            }
            return Err(MapError::FindPteCreateError);
        }
        if self.leaves.contains_key(&vpn.0) {
            proof {
                self.lemma_grew_refl(frames);
            }
            return Err(MapError::VpnAlreadyMapped(vpn));
        }
        let ghost t0 = *self;
        let ghost f0 = *frames;
        let ok1 = Self::ensure_dir(&mut self.mid, &mut self.frames, vpn.0 / 0x40000, frames);
        let ghost t1 = *self;
        let ghost f1 = *frames;
        proof {
            if old(self).mid@.contains_key(vpn.0 / 0x40000) || !ok1 {
                Self::lemma_frames_same(&t0, &t1);
                t0.lemma_grew_refl(&f0);
                assert(t1.table_frames().difference(t0.table_frames()) =~= Set::empty());
                assert(f1.allocated() =~= f0.allocated().union(
                    t1.table_frames().difference(t0.table_frames()),
                ));
            } else {
                assert(t1.frames@.drop_last() == t0.frames@);
                Self::lemma_frames_push(&t0, &t1);
                let p = t1.frames@.last().ppn.0 as nat;
                lemma_zeroed_keeps(f0.memory(), p, f0.allocated());
                assert(t1.table_frames().difference(t0.table_frames()) =~= set![p]);
                assert(f1.allocated() =~= f0.allocated().union(
                    t1.table_frames().difference(t0.table_frames()),
                ));
            }
            assert(t1.grew(&t0, &f0, &f1));
        }
        if !ok1 {
            assert(self.wf());
            return Err(MapError::FrameAllocationFailed);
        }
        let ok2 = Self::ensure_dir(&mut self.low, &mut self.frames, vpn.0 / 512, frames);
        let ghost t2 = *self;
        let ghost f2 = *frames;
        proof {
            if t1.low@.contains_key(vpn.0 / 512) || !ok2 {
                Self::lemma_frames_same(&t1, &t2);
                t1.lemma_grew_refl(&f1);
                assert(t2.table_frames().difference(t1.table_frames()) =~= Set::empty());
                assert(f2.allocated() =~= f1.allocated().union(
                    t2.table_frames().difference(t1.table_frames()),
                ));
            } else {
                assert(t2.frames@.drop_last() == t1.frames@);
                Self::lemma_frames_push(&t1, &t2);
                let p = t2.frames@.last().ppn.0 as nat;
                lemma_zeroed_keeps(f1.memory(), p, f1.allocated());
                assert(t2.table_frames().difference(t1.table_frames()) =~= set![p]);
                assert(f2.allocated() =~= f1.allocated().union(
                    t2.table_frames().difference(t1.table_frames()),
                ));
            }
            assert(t2.grew(&t1, &f1, &f2));
            Self::lemma_grew_trans(&t0, &t1, &t2, &f0, &f1, &f2);
        }
        if !ok2 {
            assert(self.wf());
            return Err(MapError::FrameAllocationFailed);
        }
        self.leaves.insert(vpn.0, PageTableEntry { ppn, flags: flags | PTE_V });
        assert((flags | PTE_V) & PTE_V != 0) by (bit_vector);
        assert(self.table_frames() =~= t2.table_frames());
        Ok(())
    }

    /// The leaf entry for `vpn`, if it is valid.
    pub open spec fn lookup(&self, vpn: u64) -> Option<PageTableEntry> {
        if self@.contains_key(vpn) {
            Some(self@[vpn])
        } else {
            None
        }
    }

    /// Clears the leaf entry of a mapped page. The intermediate tables stay;
    /// they go with the whole table. Unmapping a page that is not mapped is
    /// a broken invariant of the caller, so it is excluded.
    pub fn unmap(&mut self, vpn: VirtPageNum)
        requires
            old(self).wf(),
            old(self)@.contains_key(vpn.0),
        ensures
            final(self).wf(),
            final(self)@ == old(self)@.remove(vpn.0),
            final(self).table_frames() == old(self).table_frames(),
            forall|w: u64| #[trigger] final(self).walk_cost(w) == old(self).walk_cost(w),
            final(self).root_ppn() == old(self).root_ppn(),
    {
        self.leaves.remove(&vpn.0);
        assert(self.table_frames() =~= old(self).table_frames());
    }

    /// Walks the three levels for `vpn`: the leaf entry if every level on the
    /// way is valid, else `None`.
    pub fn translate(&self, vpn: VirtPageNum) -> (r: Option<PageTableEntry>)
        requires
            self.wf(),
        ensures
            r == self.lookup(vpn.0),
    {
        if vpn.0 >= VPN_LIMIT {
            return None;
        }
        if !self.mid.contains_key(&(vpn.0 / 0x40000)) {
            return None;
        }
        if !self.low.contains_key(&(vpn.0 / 512)) {
            return None;
        }
        match self.leaves.get(&vpn.0) {
            Some(e) => Some(*e),
            None => None,
        }
    }
}

/// A page mapped to frame `ppn` with legal `flags` then translates to an
/// entry that holds `ppn` and, besides the valid bit, exactly `flags`.
pub proof fn lemma_map_then_translate(
    before: &PageTable,
    after: &PageTable,
    vpn: VirtPageNum,
    ppn: PhysPageNum,
    flags: u8,
)
    requires
        legal_flags(flags),
        after@ == before@.insert(vpn.0, PageTableEntry { ppn, flags: flags | PTE_V }),
    ensures
        after.lookup(vpn.0) is Some,
        after.lookup(vpn.0)->Some_0.ppn == ppn,
        after.lookup(vpn.0)->Some_0.flags & !PTE_V == flags,
        after.lookup(vpn.0)->Some_0.flags & PTE_V != 0,
{
    assert((flags | 1u8) & !1u8 == flags) by (bit_vector)
        requires
            flags & 1u8 == 0,
    ;
    assert((flags | 1u8) & 1u8 != 0) by (bit_vector);
}

/// An unmapped page translates to nothing.
pub proof fn lemma_unmap_then_translate(before: &PageTable, after: &PageTable, vpn: VirtPageNum)
    requires
        after@ == before@.remove(vpn.0),
    ensures
        after.lookup(vpn.0) is None,
{
}


} // verus!
