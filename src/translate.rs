//! Turning a user buffer, given by its virtual address and length, into the
//! physical byte ranges that hold it, one per page it touches.
use vstd::prelude::*;
use crate::address::{VirtPageNum, page_of, offset_of};
use crate::config::{PAGE_SIZE, PPN_LIMIT};
use crate::memory_set::MemorySet;
use crate::frame_allocator::FrameAllocator;
use crate::page_table::{PTE_R, PTE_U, PTE_W};

verus! {

/// A piece of a user buffer that lies in one page: `len` bytes from virtual
/// address `va`, held from physical address `pa` on.
#[derive(Debug, Clone, Copy, PartialEq, Eq, Structural)]
pub struct UserSpan {
    pub va: u64,
    pub pa: u64,
    pub len: u64,
}

/// Whether the task may reach page `vpn` from user mode, to write when
/// `write` holds and to read otherwise.
pub open spec fn user_accessible(ms: MemorySet, vpn: u64, write: bool) -> bool {
    &&& ms.table()@.contains_key(vpn)
    &&& ms.table()@[vpn].flags & PTE_U != 0
    &&& if write {
        ms.table()@[vpn].flags & PTE_W != 0
    } else {
        ms.table()@[vpn].flags & PTE_R != 0
    }
}

/// The physical address of virtual address `a` in `ms`.
pub open spec fn phys_of(ms: MemorySet, a: nat) -> nat {
    (ms.table()@[page_of(a) as u64].ppn.0 * PAGE_SIZE + offset_of(a)) as nat
}

/// Whether `sp` is the piece of a buffer ending at `end` that starts at
/// `sp.va`: it runs to the end of its page or to `end`, whichever is first.
pub open spec fn span_fits(ms: MemorySet, end: nat, sp: UserSpan) -> bool {
    &&& sp.len > 0
    &&& sp.len == if (page_of(sp.va as nat) + 1) * PAGE_SIZE <= end {
        (page_of(sp.va as nat) + 1) * PAGE_SIZE - sp.va
    } else {
        end - sp.va
    }
    &&& sp.pa == phys_of(ms, sp.va as nat)
}

/// Whether `spans` cut `[ptr, ptr + len)` at every page boundary, in order,
/// each span holding its bytes' physical addresses.
pub open spec fn spans_of(ms: MemorySet, ptr: nat, len: nat, spans: Seq<UserSpan>) -> bool {
    &&& spans.len() == 0 <==> len == 0
    &&& spans.len() > 0 ==> spans[0].va == ptr && spans.last().va + spans.last().len == ptr + len
    &&& forall|k: int| 0 <= k < spans.len() - 1 ==> #[trigger] spans[k].va + spans[k].len == spans[k + 1].va
    &&& forall|k: int| 0 <= k < spans.len() ==> span_fits(ms, ptr + len, #[trigger] spans[k])
}

/// The pieces of the user buffer `[ptr, ptr + len)`, one per page it
/// touches, in address order; `None` when some page of it is not reachable
/// from user mode for reading (or, with `write`, for writing).
pub fn translated_byte_buffer(ms: &MemorySet, ptr: u64, len: u64, write: bool) -> (r: Option<Vec<UserSpan>>)
    requires
        ms.wf(),
        ptr + len <= u64::MAX,
    ensures
        r is None <==> exists|a: u64| ptr <= a < ptr + len && !user_accessible(*ms, page_of(a as nat) as u64, write),
        r matches Some(spans) ==> spans_of(*ms, ptr as nat, len as nat, spans@),
{
    let end = ptr + len;
    let mut cur = ptr;
    let mut spans: Vec<UserSpan> = Vec::new();
    while cur < end
        invariant
            ms.wf(),
            end == ptr + len,
            ptr <= cur <= end,
            forall|a: u64| ptr <= a < cur ==> user_accessible(*ms, page_of(a as nat) as u64, write),
            spans@.len() == 0 <==> cur == ptr,
            spans@.len() > 0 ==> spans@[0].va == ptr && spans@.last().va + spans@.last().len == cur,
            forall|k: int| 0 <= k < spans@.len() - 1 ==> #[trigger] spans@[k].va + spans@[k].len == spans@[k + 1].va,
            forall|k: int| 0 <= k < spans@.len() ==> span_fits(*ms, (ptr + len) as nat, #[trigger] spans@[k]),
        decreases end - cur,
    {
        let vpn = cur / PAGE_SIZE;
        assert(page_of(cur as nat) == vpn);
        let entry = match ms.translate(VirtPageNum(vpn)) {
            Some(e) => e,
            None => {
                assert(!user_accessible(*ms, page_of(cur as nat) as u64, write));
                return None;
            },
        };
        if entry.flags & PTE_U == 0 || (write && entry.flags & PTE_W == 0) || (!write && entry.flags & PTE_R == 0) {
            assert(!user_accessible(*ms, page_of(cur as nat) as u64, write));
            return None;
        }
        proof {
            ms.lemma_table_ppn(vpn);
            crate::frame_allocator::lemma_frame_of_byte(cur as int, vpn as int);
        }
        let page_end: u64 = (vpn + 1) * PAGE_SIZE;
        let chunk_end = if page_end <= end { page_end } else { end };
        let pa = entry.ppn.0 * PAGE_SIZE + cur % PAGE_SIZE;
        let ghost old_cur = cur;
        let sp = UserSpan { va: cur, pa, len: chunk_end - cur };
        assert(span_fits(*ms, (ptr + len) as nat, sp)) by {
            assert(page_end == (page_of(cur as nat) + 1) * PAGE_SIZE);
        }
        spans.push(sp);
        assert forall|a: u64| ptr <= a < chunk_end implies user_accessible(*ms, page_of(a as nat) as u64, write) by {
            if a >= cur {
                crate::frame_allocator::lemma_frame_of_byte(a as int, vpn as int);
            }
        }
        cur = chunk_end;
        assert forall|k: int| 0 <= k < spans@.len() - 1 implies #[trigger] spans@[k].va + spans@[k].len == spans@[k + 1].va by {
            if k < spans@.len() - 2 {
            }
        }
    }
    Some(spans)
}

/// Whether the task can read the byte at virtual address `a` and it lies in
/// physical memory.
pub open spec fn byte_readable(ms: MemorySet, frames: &FrameAllocator, a: nat) -> bool {
    &&& a < u64::MAX
    &&& user_accessible(ms, page_of(a) as u64, false)
    &&& phys_of(ms, a) < frames.memory().len()
}

/// The byte at virtual address `a` of the task.
pub open spec fn user_byte(ms: MemorySet, frames: &FrameAllocator, a: nat) -> u8 {
    frames.memory()[phys_of(ms, a) as int]
}

/// Whether `v` is the string at `ptr`: readable bytes, none of them 0, then
/// a readable 0.
pub open spec fn is_user_str(ms: MemorySet, frames: &FrameAllocator, ptr: u64, v: Seq<u8>) -> bool {
    &&& forall|k: int| 0 <= k < v.len() ==> byte_readable(ms, frames, (ptr + k) as nat)
        && #[trigger] v[k] == user_byte(ms, frames, (ptr + k) as nat) && v[k] != 0
    &&& byte_readable(ms, frames, (ptr + v.len()) as nat)
    &&& user_byte(ms, frames, (ptr + v.len()) as nat) == 0
}

/// Whether the string at `ptr` runs into a byte the task cannot read before
/// its terminating 0.
pub open spec fn user_str_broken(ms: MemorySet, frames: &FrameAllocator, ptr: u64) -> bool {
    exists|n: nat| {
        &&& forall|k: int| 0 <= k < n ==> #[trigger] byte_readable(ms, frames, (ptr + k) as nat)
            && user_byte(ms, frames, (ptr + k) as nat) != 0
        &&& !#[trigger] byte_readable(ms, frames, (ptr + n) as nat)
    }
}

proof fn lemma_broken_at(ms: MemorySet, frames: &FrameAllocator, ptr: u64, n: nat)
    requires
        forall|k: int| 0 <= k < n ==> #[trigger] byte_readable(ms, frames, (ptr + k) as nat)
            && user_byte(ms, frames, (ptr + k) as nat) != 0,
        !byte_readable(ms, frames, (ptr + n) as nat),
    ensures
        user_str_broken(ms, frames, ptr),
{
    assert(!byte_readable(ms, frames, (ptr + n) as nat));
}

/// The bytes of the string at `ptr`, up to (not including) the first 0, one
/// byte at a time; `None` when a byte up to and including that 0 cannot be
/// read from user mode.
pub fn translated_str(ms: &MemorySet, frames: &FrameAllocator, ptr: u64) -> (r: Option<Vec<u8>>)
    requires
        ms.wf(),
    ensures
        r matches Some(v) ==> is_user_str(*ms, frames, ptr, v@),
        r is None ==> user_str_broken(*ms, frames, ptr),
{
    let mut out: Vec<u8> = Vec::new();
    let mut a = ptr;
    let n = frames.memory_len();
    loop
        invariant
            ms.wf(),
            n == frames.memory().len(),
            a == ptr + out@.len(),
            forall|k: int| 0 <= k < out@.len() ==> byte_readable(*ms, frames, (ptr + k) as nat)
                && #[trigger] out@[k] == user_byte(*ms, frames, (ptr + k) as nat) && out@[k] != 0,
        decreases u64::MAX - a,
    {
        assert forall|k: int| 0 <= k < out@.len() implies #[trigger] byte_readable(*ms, frames, (ptr + k) as nat)
            && user_byte(*ms, frames, (ptr + k) as nat) != 0 by {
            assert(out@[k] == user_byte(*ms, frames, (ptr + k) as nat));
        }
        if a == u64::MAX {
            assert(!byte_readable(*ms, frames, (ptr + out@.len()) as nat));
            proof {
                lemma_broken_at(*ms, frames, ptr, out@.len() as nat);
            }
            return None;
        }
        let vpn = a / PAGE_SIZE;
        assert(page_of(a as nat) == vpn);
        let entry = match ms.translate(VirtPageNum(vpn)) {
            Some(e) => e,
            None => {
                assert(!byte_readable(*ms, frames, (ptr + out@.len()) as nat));
                proof {
                    lemma_broken_at(*ms, frames, ptr, out@.len() as nat);
                }
                return None;
            },
        };
        if entry.flags & PTE_U == 0 || entry.flags & PTE_R == 0 {
            assert(!byte_readable(*ms, frames, (ptr + out@.len()) as nat));
            proof {
                lemma_broken_at(*ms, frames, ptr, out@.len() as nat);
            }
            return None;
        }
        proof {
            ms.lemma_table_ppn(vpn);
        }
        let pa = entry.ppn.0 * PAGE_SIZE + a % PAGE_SIZE;
        if pa >= n as u64 {
            assert(!byte_readable(*ms, frames, (ptr + out@.len()) as nat));
            proof {
                lemma_broken_at(*ms, frames, ptr, out@.len() as nat);
            }
            return None;
        }
        let b = frames.read_byte(pa);
        if b == 0 {
            return Some(out);
        }
        out.push(b);
        a = a + 1;
    }
}

proof fn lemma_offsets_differ(a1: int, a2: int)
    requires
        0 <= a1 < a2 < a1 + PAGE_SIZE,
    ensures
        a1 % (PAGE_SIZE as int) != a2 % (PAGE_SIZE as int),
{
    vstd::arithmetic::div_mod::lemma_fundamental_div_mod(a1, 4096);
    vstd::arithmetic::div_mod::lemma_fundamental_div_mod(a2, 4096);
    vstd::arithmetic::div_mod::lemma_mod_pos_bound(a1, 4096);
    vstd::arithmetic::div_mod::lemma_mod_pos_bound(a2, 4096);
    let q1 = a1 / 4096;
    let q2 = a2 / 4096;
    if a1 % 4096 == a2 % 4096 {
        assert(a2 - a1 == 4096 * (q2 - q1));
        if q2 - q1 >= 1 {
            assert(4096 * (q2 - q1) >= 4096);
        } else {
            assert(4096 * (q2 - q1) <= 0);
        }
    }
}

proof fn lemma_phys_distinct(ms: MemorySet, a1: nat, a2: nat)
    requires
        a1 < a2 < a1 + PAGE_SIZE,
    ensures
        phys_of(ms, a1) != phys_of(ms, a2),
{
    lemma_offsets_differ(a1 as int, a2 as int);
    let p1 = ms.table()@[page_of(a1) as u64].ppn.0 as int;
    let p2 = ms.table()@[page_of(a2) as u64].ppn.0 as int;
    let r1 = offset_of(a1) as int;
    let r2 = offset_of(a2) as int;
    vstd::arithmetic::div_mod::lemma_mod_pos_bound(a1 as int, 4096);
    vstd::arithmetic::div_mod::lemma_mod_pos_bound(a2 as int, 4096);
    if p1 * 4096 + r1 == p2 * 4096 + r2 {
        if p1 > p2 {
            assert(p1 * 4096 >= p2 * 4096 + 4096) by (nonlinear_arith)
                requires p1 > p2;
        } else if p1 < p2 {
            assert(p2 * 4096 >= p1 * 4096 + 4096) by (nonlinear_arith)
                requires p1 < p2;
        }
    }
}

/// Writes `data` into the task's memory from virtual address `va` on, one
/// byte at a time through the page table, across page boundaries. Every
/// page written must be user-writable and `data` at most a page long.
/// `false`, with nothing written, when a byte's frame lies outside physical
/// memory.
pub fn write_user(ms: &MemorySet, frames: &mut FrameAllocator, va: u64, data: &[u8]) -> (ok: bool)
    requires
        ms.wf(),
        old(frames).wf(),
        data@.len() <= PAGE_SIZE,
        va + data@.len() <= u64::MAX,
        forall|a: u64| va <= a < va + data@.len() ==> user_accessible(*ms, page_of(a as nat) as u64, true),
    ensures
        final(frames).wf(),
        final(frames).allocated() == old(frames).allocated(),
        final(frames).available() == old(frames).available(),
        final(frames).free_stack() == old(frames).free_stack(),
        final(frames).high_water() == old(frames).high_water(),
        final(frames).first_frame() == old(frames).first_frame(),
        final(frames).frame_limit() == old(frames).frame_limit(),
        final(frames).memory().len() == old(frames).memory().len(),
        ok <==> forall|k: int| 0 <= k < data@.len() ==> #[trigger] phys_of(*ms, (va + k) as nat) < old(frames).memory().len(),
        ok ==> forall|k: int| 0 <= k < data@.len() ==> #[trigger] user_byte(*ms, final(frames), (va + k) as nat) == data@[k],
        !ok ==> final(frames).memory() == old(frames).memory(),
        ms.owns(old(frames)) ==> ms.owns(final(frames)),
{
    let n = frames.memory_len();
    let mut k: usize = 0;
    while k < data.len()
        invariant
            k <= data@.len(),
            ms.wf(),
            *frames == *old(frames),
            frames.wf(),
            n == frames.memory().len(),
            va + data@.len() <= u64::MAX,
            forall|a: u64| va <= a < va + data@.len() ==> user_accessible(*ms, page_of(a as nat) as u64, true),
            forall|j: int| 0 <= j < k ==> #[trigger] phys_of(*ms, (va + j) as nat) < n,
        decreases data@.len() - k,
    {
        let a = va + k as u64;
        let vpn = a / PAGE_SIZE;
        assert(page_of(a as nat) == vpn);
        let entry = ms.translate(VirtPageNum(vpn)).unwrap();
        proof {
            ms.lemma_table_ppn(vpn);
        }
        let pa = entry.ppn.0 * PAGE_SIZE + a % PAGE_SIZE;
        assert(pa == phys_of(*ms, (va + k) as nat));
        if pa >= n as u64 {
            return false;
        }
        k = k + 1;
    }
    let ghost m0 = frames.memory();
    let mut k: usize = 0;
    while k < data.len()
        invariant
            k <= data@.len(),
            data@.len() <= PAGE_SIZE,
            ms.wf(),
            frames.wf(),
            frames.allocated() == old(frames).allocated(),
            frames.available() == old(frames).available(),
            frames.free_stack() == old(frames).free_stack(),
            frames.high_water() == old(frames).high_water(),
            frames.first_frame() == old(frames).first_frame(),
            frames.frame_limit() == old(frames).frame_limit(),
            n == frames.memory().len(),
            va + data@.len() <= u64::MAX,
            forall|a: u64| va <= a < va + data@.len() ==> user_accessible(*ms, page_of(a as nat) as u64, true),
            forall|j: int| 0 <= j < data@.len() ==> #[trigger] phys_of(*ms, (va + j) as nat) < n,
            forall|j: int| 0 <= j < k ==> #[trigger] user_byte(*ms, frames, (va + j) as nat) == data@[j],
        decreases data@.len() - k,
    {
        let a = va + k as u64;
        let vpn = a / PAGE_SIZE;
        assert(page_of(a as nat) == vpn);
        let entry = ms.translate(VirtPageNum(vpn)).unwrap();
        proof {
            ms.lemma_table_ppn(vpn);
        }
        let pa = entry.ppn.0 * PAGE_SIZE + a % PAGE_SIZE;
        assert(pa == phys_of(*ms, (va + k) as nat));
        assert(phys_of(*ms, (va + k) as nat) < n);
        let ghost before = *frames;
        frames.write_byte(pa, data[k]);
        assert forall|j: int| 0 <= j < k + 1 implies #[trigger] user_byte(*ms, frames, (va + j) as nat) == data@[j] by {
            if j < k {
                lemma_phys_distinct(*ms, (va + j) as nat, (va + k) as nat);
                assert(user_byte(*ms, &before, (va + j) as nat) == data@[j]);
            }
        }
        k = k + 1;
    }
    proof {
        if ms.owns(old(frames)) {
            crate::memory_set::lemma_owns_same_frames(ms, old(frames), frames);
        }
    }
    true
}

/// The physical address of a value of `size` bytes at `ptr` that lies in
/// one page the task can reach (to write when `write` holds), for reading or
/// writing it in place; `None` when the page is not reachable or the value
/// would straddle a page boundary (such values go through
/// [`translated_byte_buffer`]).
pub fn translated_ref(ms: &MemorySet, ptr: u64, size: u64, write: bool) -> (r: Option<u64>)
    requires
        ms.wf(),
    ensures
        r is Some <==> offset_of(ptr as nat) + size <= PAGE_SIZE && user_accessible(*ms, page_of(ptr as nat) as u64, write),
        r matches Some(pa) ==> pa == phys_of(*ms, ptr as nat),
{
    if size > PAGE_SIZE || ptr % PAGE_SIZE + size > PAGE_SIZE {
        return None;
    }
    let vpn = ptr / PAGE_SIZE;
    let entry = match ms.translate(VirtPageNum(vpn)) {
        Some(e) => e,
        None => {
            return None;
        },
    };
    if entry.flags & PTE_U == 0 || (write && entry.flags & PTE_W == 0) || (!write && entry.flags & PTE_R == 0) {
        return None;
    }
    proof {
        ms.lemma_table_ppn(vpn);
    }
    Some(entry.ppn.0 * PAGE_SIZE + ptr % PAGE_SIZE)
}

} // verus!
