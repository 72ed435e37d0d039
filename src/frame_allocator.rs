//! Physical frames: a stack allocator over a simulated physical memory.
//!
//! Frames are numbered from `start` up to `end`. Freed frames are kept on a
//! stack and handed out again, last freed first, before the allocator moves
//! its high-water mark into untouched memory.
use vstd::prelude::*;
use crate::address::PhysPageNum;
use crate::config::{MAX_FRAMES, PAGE_SIZE};
use vstd::set_lib::{lemma_int_range, lemma_len_subset, set_int_range};

verus! {

/// `m` with the bytes of frame `ppn` set to zero.
pub open spec fn zeroed_frame(m: Seq<u8>, ppn: nat) -> Seq<u8> {
    Seq::new(
        m.len(),
        |i: int|
            if ppn * PAGE_SIZE <= i < ppn * PAGE_SIZE + PAGE_SIZE {
                0u8
            } else {
                m[i]
            },
    )
}

/// `m2` holds the same bytes as `m1` in every frame of `s`.
pub open spec fn frames_kept(m1: Seq<u8>, m2: Seq<u8>, s: Set<nat>) -> bool {
    &&& m2.len() == m1.len()
    &&& forall|i: int|
        0 <= i < m1.len() && #[trigger] s.contains((i / PAGE_SIZE as int) as nat) ==> m2[i] == m1[i]
}

/// Byte `i` lies in frame `p` exactly when `i / PAGE_SIZE == p`.
pub proof fn lemma_frame_of_byte(i: int, p: int)
    requires
        0 <= i,
        0 <= p,
    ensures
        (p * PAGE_SIZE <= i < p * PAGE_SIZE + PAGE_SIZE) <==> i / PAGE_SIZE as int == p,
{
    assert((p * 4096 <= i < p * 4096 + 4096) <==> i / 4096 == p) by (nonlinear_arith)
        requires
            0 <= i,
            0 <= p,
    ;
}

/// Zeroing a frame outside `s` keeps the bytes of every frame of `s`.
pub proof fn lemma_zeroed_keeps(m: Seq<u8>, p: nat, s: Set<nat>)
    requires
        !s.contains(p),
    ensures
        frames_kept(m, zeroed_frame(m, p), s),
{
    assert forall|i: int|
        0 <= i < m.len() && #[trigger] s.contains((i / PAGE_SIZE as int) as nat) implies zeroed_frame(
        m,
        p,
    )[i] == m[i] by {
        lemma_frame_of_byte(i, p as int);
    }
}

/// Keeping bytes composes.
pub proof fn lemma_kept_trans(m0: Seq<u8>, m1: Seq<u8>, m2: Seq<u8>, s0: Set<nat>, s1: Set<nat>)
    requires
        frames_kept(m0, m1, s0),
        frames_kept(m1, m2, s1),
        s0.subset_of(s1),
    ensures
        frames_kept(m0, m2, s0),
{
    assert forall|i: int|
        0 <= i < m0.len() && #[trigger] s0.contains((i / PAGE_SIZE as int) as nat) implies m2[i]
        == m0[i] by {
        assert(s1.contains((i / PAGE_SIZE as int) as nat));
    }
}

/// Every memory keeps its own bytes.
pub proof fn lemma_kept_refl(m: Seq<u8>, s: Set<nat>)
    ensures
        frames_kept(m, m, s),
{
}

/// The `k`-th frame (from 0) that successive allocations hand out from a
/// free stack `stack` and high-water mark `hw`: the stack from its top
/// down, then untouched frames upward.
pub open spec fn nth_fresh(stack: Seq<u64>, hw: nat, k: int) -> nat {
    if k < stack.len() {
        stack[stack.len() - 1 - k] as nat
    } else {
        (hw + (k - stack.len())) as nat
    }
}

/// The free stack after `n` allocations.
pub open spec fn stack_after(stack: Seq<u64>, n: int) -> Seq<u64> {
    if n <= stack.len() {
        stack.subrange(0, stack.len() - n)
    } else {
        Seq::empty()
    }
}

/// The high-water mark after `n` allocations.
pub open spec fn hw_after(stack: Seq<u64>, hw: nat, n: int) -> nat {
    if n <= stack.len() {
        hw
    } else {
        (hw + (n - stack.len())) as nat
    }
}

/// Exclusive ownership of one physical frame, handed out by
/// [`FrameAllocator::frame_alloc`] and given back with [`FrameAllocator::frame_dealloc`].
#[derive(Debug, PartialEq, Eq, Structural)]
pub struct FrameTracker {
    pub ppn: PhysPageNum,
}

/// The frame allocator, together with the bytes of physical memory.
pub struct FrameAllocator {
    start: u64,
    current: u64,
    end: u64,
    recycled: Vec<u64>,
    mem: Vec<u8>,
}

impl FrameAllocator {
    /// The frames that are handed out and not given back.
    pub closed spec fn allocated(&self) -> Set<nat> {
        Set::new(|p: nat| self.start <= p < self.current && !self.recycled@.contains(p as u64))
    }

    /// How many more frames can be handed out.
    pub closed spec fn available(&self) -> nat {
        self.recycled@.len() + (self.end - self.current) as nat
    }

    /// The frame that the next allocation hands out, if any.
    pub closed spec fn next_frame(&self) -> Option<nat> {
        if self.recycled@.len() > 0 {
            Some(self.recycled@.last() as nat)
        } else if self.current < self.end {
            Some(self.current as nat)
        } else {
            None
        }
    }

    /// The frames given back and not handed out again, the last given back
    /// at the end.
    pub closed spec fn free_stack(&self) -> Seq<u64> {
        self.recycled@
    }

    /// The lowest frame that has never been handed out.
    pub closed spec fn high_water(&self) -> nat {
        self.current as nat
    }

    /// The lowest frame number handed out.
    pub closed spec fn first_frame(&self) -> nat {
        self.start as nat
    }

    /// One past the highest frame number.
    pub closed spec fn frame_limit(&self) -> nat {
        self.end as nat
    }

    /// The bytes of physical memory, frame after frame from frame zero.
    pub closed spec fn memory(&self) -> Seq<u8> {
        self.mem@
    }

    pub closed spec fn wf(&self) -> bool {
        &&& self.start <= self.current <= self.end <= MAX_FRAMES
        &&& self.mem@.len() == self.end * PAGE_SIZE
        &&& self.recycled@.no_duplicates()
        &&& forall|i: int|
            0 <= i < self.recycled@.len() ==> self.start <= #[trigger] self.recycled@[i]
                < self.current
    }

    /// A fresh allocator over `end` frames of zeroed memory, handing out the
    /// frames from `start` on.
    pub fn new(start: u64, end: u64) -> (r: Self)
        requires
            start <= end <= MAX_FRAMES,
        ensures
            r.wf(),
            r.allocated() == Set::<nat>::empty(),
            r.available() == end - start,
            r.first_frame() == start,
            r.free_stack() == Seq::<u64>::empty(),
            r.high_water() == start,
            r.frame_limit() == end,
            r.memory() == Seq::new((end * PAGE_SIZE) as nat, |i: int| 0u8),
    {
        let mem = vec![0u8; (end * PAGE_SIZE) as usize];
        let r = FrameAllocator { start, current: start, end, recycled: Vec::new(), mem };
        assert(r.allocated() =~= Set::<nat>::empty());
        assert(r.memory() =~= Seq::new((end * PAGE_SIZE) as nat, |i: int| 0u8));
        r
    }

    proof fn lemma_recycled_bound(&self)
        requires
            self.wf(),
        ensures
            self.recycled@.len() <= self.current - self.start,
    {
        let s = self.recycled@.map_values(|x: u64| x as int);
        assert(s.no_duplicates()) by {
            assert forall|i: int, j: int| 0 <= i < s.len() && 0 <= j < s.len() && i != j implies s[i]
                != s[j] by {
                assert(self.recycled@[i] != self.recycled@[j]);
            }
        }
        s.unique_seq_to_set();
        lemma_int_range(self.start as int, self.current as int);
        assert(s.to_set().subset_of(set_int_range(self.start as int, self.current as int))) by {
            assert forall|x: int| s.to_set().contains(x) implies set_int_range(
                self.start as int,
                self.current as int,
            ).contains(x) by {
                let i = choose|i: int| 0 <= i < s.len() && s[i] == x;
                assert(self.recycled@[i] as int == x);
            }
        }
        lemma_len_subset(s.to_set(), set_int_range(self.start as int, self.current as int));
    }

    /// How many more frames can be handed out.
    pub fn free_frames(&self) -> (r: u64)
        requires
            self.wf(),
        ensures
            r == self.available(),
    {
        proof {
            self.lemma_recycled_bound();
        }
        self.recycled.len() as u64 + (self.end - self.current)
    }

    pub proof fn lemma_allocated_bounds(&self, p: nat)
        requires
            self.wf(),
            self.allocated().contains(p),
        ensures
            self.first_frame() <= p < self.frame_limit(),
            p * PAGE_SIZE + PAGE_SIZE <= self.memory().len(),
    {
        let end = self.end as int;
        assert(p * 4096 + 4096 <= end * 4096) by (nonlinear_arith)
            requires
                p < end,
        ;
    }

    /// Hands out a zero-filled frame: the last one given back if any, else
    /// the next untouched one; `None` when memory is exhausted.
    pub fn frame_alloc(&mut self) -> (r: Option<FrameTracker>)
        requires
            old(self).wf(),
        ensures
            final(self).wf(),
            final(self).first_frame() == old(self).first_frame(),
            final(self).frame_limit() == old(self).frame_limit(),
            r.is_some() <==> old(self).available() > 0,
            match r {
                Some(f) => {
                    &&& f.ppn.0 < MAX_FRAMES
                    &&& old(self).free_stack().len() > 0 ==> f.ppn.0 == old(self).free_stack().last()
                        && final(self).free_stack() == old(self).free_stack().drop_last()
                        && final(self).high_water() == old(self).high_water()
                    &&& old(self).free_stack().len() == 0 ==> f.ppn.0 == old(self).high_water()
                        && final(self).free_stack() == old(self).free_stack()
                        && final(self).high_water() == old(self).high_water() + 1
                    &&& old(self).next_frame() == Some(f.ppn.0 as nat)
                    &&& !old(self).allocated().contains(f.ppn.0 as nat)
                    &&& final(self).allocated() == old(self).allocated().insert(f.ppn.0 as nat)
                    &&& final(self).available() + 1 == old(self).available()
                    &&& final(self).memory() == zeroed_frame(old(self).memory(), f.ppn.0 as nat)
                },
                None => *final(self) == *old(self),
            },
    {
        let ppn: u64;
        if self.recycled.len() > 0 {
            ppn = self.recycled.pop().unwrap();
            assert(old(self).recycled@ == self.recycled@.push(ppn));
            assert(forall|i: int|
                0 <= i < self.recycled@.len() ==> self.recycled@[i] == old(self).recycled@[i]);
            assert(!self.recycled@.contains(ppn)) by {
                assert(old(self).recycled@[old(self).recycled@.len() - 1] == ppn);
            }
        } else if self.current < self.end {
            ppn = self.current;
            self.current = self.current + 1;
        } else {
            return None;
        }
        self.zero_frame(ppn);
        assert(self.allocated() =~= old(self).allocated().insert(ppn as nat));
        Some(FrameTracker { ppn: PhysPageNum(ppn) })
    }

    fn zero_frame(&mut self, ppn: u64)
        requires
            old(self).mem@.len() == old(self).end * PAGE_SIZE,
            ppn < old(self).end <= MAX_FRAMES,
        ensures
            final(self).mem@ == zeroed_frame(old(self).mem@, ppn as nat),
            final(self).start == old(self).start,
            final(self).current == old(self).current,
            final(self).end == old(self).end,
            final(self).recycled == old(self).recycled,
    {
        let base = (ppn * PAGE_SIZE) as usize;
        let mut i: usize = 0;
        while i < PAGE_SIZE as usize
            invariant
                base == ppn * PAGE_SIZE,
                base + PAGE_SIZE <= self.mem@.len(),
                i <= PAGE_SIZE,
                self.mem@.len() == old(self).mem@.len(),
                self.start == old(self).start,
                self.current == old(self).current,
                self.end == old(self).end,
                self.recycled == old(self).recycled,
                forall|k: int|
                    0 <= k < self.mem@.len() && !(base <= k < base + i) ==> self.mem@[k]
                        == old(self).mem@[k],
                forall|k: int| base <= k < base + i ==> self.mem@[k] == 0,
            decreases PAGE_SIZE - i,
        {
            self.mem.set(base + i, 0);
            i = i + 1;
        }
        assert(self.mem@ =~= zeroed_frame(old(self).mem@, ppn as nat));
    }

    /// Gives a frame back; it is handed out again before untouched memory.
    /// Giving back a frame that is not handed out is a broken invariant of
    /// the caller, so it is excluded.
    pub fn frame_dealloc(&mut self, frame: FrameTracker)
        requires
            old(self).wf(),
            old(self).allocated().contains(frame.ppn.0 as nat),
        ensures
            final(self).wf(),
            final(self).first_frame() == old(self).first_frame(),
            final(self).frame_limit() == old(self).frame_limit(),
            final(self).allocated() == old(self).allocated().remove(frame.ppn.0 as nat),
            final(self).available() == old(self).available() + 1,
            final(self).next_frame() == Some(frame.ppn.0 as nat),
            final(self).free_stack() == old(self).free_stack().push(frame.ppn.0),
            final(self).high_water() == old(self).high_water(),
            final(self).memory() == old(self).memory(),
    {
        let ppn = frame.ppn.0;
        self.recycled.push(ppn);
        assert(self.recycled@.last() == ppn);
        assert forall|p: u64| self.recycled@.contains(p) <==> (old(self).recycled@.contains(p) || p
            == ppn) by {
            if old(self).recycled@.contains(p) {
                let i = choose|i: int| 0 <= i < old(self).recycled@.len() && old(self).recycled@[i] == p;
                assert(self.recycled@[i] == p);
            }
            if self.recycled@.contains(p) && p != ppn {
                let i = choose|i: int| 0 <= i < self.recycled@.len() && self.recycled@[i] == p;
                assert(old(self).recycled@[i] == p);
            }
        }
        assert(self.allocated() =~= old(self).allocated().remove(ppn as nat));
    }

    /// The number of bytes of physical memory.
    pub fn memory_len(&self) -> (r: usize)
        ensures
            r == self.memory().len(),
    {
        self.mem.len()
    }

    /// Reads one byte of physical memory.
    pub fn read_byte(&self, pa: u64) -> (r: u8)
        requires
            pa < self.memory().len(),
        ensures
            r == self.memory()[pa as int],
    {
        let n = self.mem.len();
        assert(pa < n);
        self.mem[pa as usize]
    }

    /// Writes one byte of physical memory.
    pub fn write_byte(&mut self, pa: u64, b: u8)
        requires
            old(self).wf(),
            pa < old(self).memory().len(),
        ensures
            final(self).wf(),
            final(self).allocated() == old(self).allocated(),
            final(self).available() == old(self).available(),
            final(self).next_frame() == old(self).next_frame(),
            final(self).first_frame() == old(self).first_frame(),
            final(self).frame_limit() == old(self).frame_limit(),
            final(self).free_stack() == old(self).free_stack(),
            final(self).high_water() == old(self).high_water(),
            final(self).memory() == old(self).memory().update(pa as int, b),
    {
        self.mem.set(pa as usize, b);
    }

    /// The `len` bytes of physical memory from `pa`, or `None` when they
    /// run past its end.
    pub fn read_bytes(&self, pa: u64, len: u64) -> (r: Option<Vec<u8>>)
        ensures
            pa + len <= self.memory().len() ==> r is Some && r->Some_0@ == self.memory().subrange(pa as int, pa + len),
            pa + len > self.memory().len() ==> r is None,
    {
        let n = self.mem.len();
        if pa > n as u64 || len > n as u64 - pa {
            return None;
        }
        let mut out: Vec<u8> = Vec::new();
        let mut i: u64 = 0;
        while i < len
            invariant
                i <= len,
                n == self.mem@.len(),
                pa + len <= self.mem@.len(),
                out@ == self.mem@.subrange(pa as int, pa + i),
            decreases len - i,
        {
            out.push(self.mem[(pa + i) as usize]);
            i = i + 1;
            assert(out@ =~= self.mem@.subrange(pa as int, pa + i));
        }
        Some(out)
    }

    /// Writes `data` into physical memory from `pa`; `false`, with nothing
    /// written, when it would run past the end.
    pub fn write_bytes(&mut self, pa: u64, data: &[u8]) -> (ok: bool)
        requires
            old(self).wf(),
        ensures
            final(self).wf(),
            final(self).allocated() == old(self).allocated(),
            final(self).available() == old(self).available(),
            final(self).next_frame() == old(self).next_frame(),
            final(self).first_frame() == old(self).first_frame(),
            final(self).frame_limit() == old(self).frame_limit(),
            ok == (pa + data@.len() <= old(self).memory().len()),
            ok ==> final(self).memory() == old(self).memory().subrange(0, pa as int) + data@
                + old(self).memory().subrange(pa + data@.len(), old(self).memory().len() as int),
            !ok ==> final(self).memory() == old(self).memory(),
    {
        let n = self.mem.len();
        if pa > n as u64 || data.len() as u64 > n as u64 - pa {
            return false;
        }
        let mut i: usize = 0;
        while i < data.len()
            invariant
                i <= data@.len(),
                n == self.mem@.len(),
                pa + data@.len() <= self.mem@.len(),
                self.mem@.len() == old(self).mem@.len(),
                self.start == old(self).start,
                self.current == old(self).current,
                self.end == old(self).end,
                self.recycled == old(self).recycled,
                forall|k: int| 0 <= k < self.mem@.len() && !(pa <= k < pa + i) ==> self.mem@[k] == old(self).mem@[k],
                forall|k: int| pa <= k < pa + i ==> self.mem@[k] == data@[k - pa],
            decreases data@.len() - i,
        {
            self.mem.set(pa as usize + i, data[i]);
            i = i + 1;
        }
        assert(self.mem@ =~= old(self).memory().subrange(0, pa as int) + data@
            + old(self).memory().subrange(pa + data@.len(), old(self).memory().len() as int));
        true
    }
}

} // verus!
