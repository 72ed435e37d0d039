//! The system calls that sit on the memory subsystem and on a process's
//! synchronization tables. Each call decides on the process state it is
//! given and returns the value the calling task sees; where the call needs a
//! scheduler or a file system, it says what the caller has to do next.
use vstd::prelude::*;
use crate::MapError;
use crate::address::{VirtAddr, offset_of, page_of, page_ceil};
use crate::config::PAGE_SIZE;
use crate::frame_allocator::FrameAllocator;
use crate::memory_set::{MapArea, MapType, MemorySet, frame_is_zero, insert_outcome, remove_outcome, walks_ready, without_range};
use crate::frame_allocator::{hw_after, nth_fresh, stack_after};
use crate::address::VirtPageNum;
use crate::page_table::PTE_V;
use crate::page_table::PTE_U;
use crate::translate::{UserSpan, is_user_str, spans_of, translated_byte_buffer, translated_str, user_accessible, user_str_broken, write_user};

verus! {

/// Wall-clock time as seconds and microseconds.
#[derive(Debug, Clone, Copy, PartialEq, Eq, Structural)]
pub struct TimeVal {
    pub sec: u64,
    pub usec: u64,
}

/// What a task reports of itself.
#[derive(Debug)]
pub struct TaskInfo {
    /// The task's life-cycle status, as the scheduler numbers it.
    pub status: u32,
    /// How often each system call was made, by call number.
    pub syscall_times: Vec<u32>,
    /// Running time in milliseconds.
    pub time: u64,
}

/// An open file as the system calls see it.
#[derive(Debug, Clone, Copy, PartialEq, Eq, Structural)]
pub struct OpenFile {
    pub readable: bool,
    pub writable: bool,
}

/// The state of one process that these system calls read and change.
pub struct Process {
    pub fd_table: Vec<Option<OpenFile>>,
    /// One entry per mutex id: `Some(blocking)` while the mutex exists.
    pub mutex_list: Vec<Option<bool>>,
    /// One entry per semaphore id: `Some(initial count)` while it exists.
    pub semaphore_list: Vec<Option<u64>>,
    /// One entry per condition variable id: whether it exists.
    pub condvar_list: Vec<bool>,
    pub enable_deadlock_detect: bool,
    /// How often each system call was made, by call number.
    pub syscall_times: Vec<u32>,
    /// Units of each mutex that are free, by mutex id.
    pub mutex_available: Vec<i64>,
    /// Units of each semaphore that are free, by semaphore id.
    pub semaphore_available: Vec<i64>,
    /// The lowest address of the heap and its current end.
    pub heap_bottom: u64,
    pub program_brk: u64,
}

/// Call number of `unlinkat`.
pub const SYSCALL_UNLINKAT: usize = 35;
/// Call number of `linkat`.
pub const SYSCALL_LINKAT: usize = 37;
/// Call number of `open`.
pub const SYSCALL_OPEN: usize = 56;
/// Call number of `close`.
pub const SYSCALL_CLOSE: usize = 57;
/// Call number of `read`.
pub const SYSCALL_READ: usize = 63;
/// Call number of `write`.
pub const SYSCALL_WRITE: usize = 64;

/// The counters after one more call `id`: the counter goes up by one where
/// there is one and it has room.
pub open spec fn counted(times: Seq<u32>, id: usize) -> Seq<u32> {
    if id < times.len() && times[id as int] < u32::MAX {
        times.update(id as int, (times[id as int] + 1) as u32)
    } else {
        times
    }
}

fn record(times: &mut Vec<u32>, id: usize)
    ensures
        final(times)@ == counted(old(times)@, id),
{
    if id < times.len() && times[id] < u32::MAX {
        let c = times[id];
        times.set(id, c + 1);
    }
}

/// `counts` with slot `id` set to `val`, grown with zeros where it is short.
pub open spec fn with_count(counts: Seq<i64>, id: usize, val: i64) -> Seq<i64> {
    if id < counts.len() {
        counts.update(id as int, val)
    } else {
        counts + Seq::new((id - counts.len()) as nat, |k: int| 0i64) + seq![val]
    }
}

fn set_count(counts: &mut Vec<i64>, id: usize, val: i64)
    requires
        id < usize::MAX,
    ensures
        final(counts)@ == with_count(old(counts)@, id, val),
{
    if id < counts.len() {
        counts.set(id, val);
        return;
    }
    while counts.len() < id
        invariant
            old(counts)@.len() <= counts@.len() <= id,
            counts@ == old(counts)@ + Seq::new((counts@.len() - old(counts)@.len()) as nat, |k: int| 0i64),
        decreases id - counts@.len(),
    {
        counts.push(0);
        assert(counts@ =~= old(counts)@ + Seq::new((counts@.len() - old(counts)@.len()) as nat, |k: int| 0i64));
    }
    counts.push(val);
    assert(counts@ =~= with_count(old(counts)@, id, val));
}

/// The permission mask that an `mmap` port value asks for: its three low
/// bits are R, W and X, and the pages are user-accessible.
pub open spec fn port_perm(port: u64) -> u8 {
    ((((port & 7) * 2) as u8) | PTE_U) as u8
}

/// The error of mapping `[start, start + len)` with `port`, in the order the
/// checks run, or `Ok` when the range was mapped.
pub open spec fn mmap_outcome(ms: MemorySet, start: u64, len: u64, port: u64, available: nat, r: Result<(), MapError>) -> Result<(), MapError> {
    if port & !7u64 != 0 || port & 7 == 0 {
        Err(MapError::InvalidPermissionBits((port & 0xff) as u8))
    } else if offset_of(start as nat) != 0 {
        Err(MapError::UnalignedVirtualAddress)
    } else if start + len > u64::MAX - PAGE_SIZE {
        Err(MapError::FindPteCreateError)
    } else {
        insert_outcome(ms, VirtAddr(start), VirtAddr((page_ceil((start + len) as nat) * PAGE_SIZE) as u64), port_perm(port), available, r)
    }
}

/// What a successful `mmap` of `[start, start + len)` with `port` did to
/// the space `before`, giving `after`: a non-empty rounded range became one
/// more framed area with the port's permissions, each of its pages mapped
/// with those permissions to its own fresh zeroed frame, and every entry
/// that was there before stayed; an empty range changed nothing.
pub open spec fn mmap_done(
    before: MemorySet,
    after: MemorySet,
    f0: &FrameAllocator,
    f1: &FrameAllocator,
    start: u64,
    len: u64,
    port: u64,
) -> bool {
    let s = page_of(start as nat);
    let e = page_ceil((start + len) as nat);
    if s >= e {
        after.areas() == before.areas() && after.table()@ == before.table()@
    } else {
        &&& after.areas() == before.areas().push(MapArea {
            start: VirtPageNum(s as u64),
            end: VirtPageNum(e as u64),
            map_type: MapType::Framed,
            perm: port_perm(port),
        })
        &&& forall|u: u64| #[trigger] after.table()@.contains_key(u) <==> (before.table()@.contains_key(u) || s <= u < e)
        &&& forall|u: u64| #[trigger] before.table()@.contains_key(u) ==> after.table()@[u] == before.table()@[u]
        &&& forall|u: u64| s <= u < e ==> {
            &&& frame_is_zero(f1.memory(), #[trigger] after.table()@[u].ppn.0 as nat)
            &&& after.table()@[u].flags == port_perm(port) | PTE_V
            &&& !f0.allocated().contains(after.table()@[u].ppn.0 as nat)
            &&& f1.allocated().contains(after.table()@[u].ppn.0 as nat)
            &&& f1.first_frame() <= after.table()@[u].ppn.0 < f1.frame_limit()
        }
        &&& forall|u1: u64, u2: u64| s <= u1 < e && s <= u2 < e && u1 != u2
            ==> #[trigger] after.table()@[u1].ppn != #[trigger] after.table()@[u2].ppn
        &&& walks_ready(before.table(), s as u64, e as u64) ==> {
            &&& forall|u: u64| s <= u < e ==> (#[trigger] after.table()@[u]).ppn.0 == nth_fresh(f0.free_stack(), f0.high_water(), u - s)
            &&& f1.free_stack() == stack_after(f0.free_stack(), e - s)
            &&& f1.high_water() == hw_after(f0.free_stack(), f0.high_water(), e - s)
        }
    }
}

/// Maps `[start, start + len)`, rounded up to whole pages, as fresh zeroed
/// user pages with the permissions of `port`. Besides a port with no R/W/X
/// bit or with bits above them, a port that asks for W without R (2 or 6)
/// is refused with `InvalidPermissionBits`, since SV39 reserves that
/// combination.
pub fn map_addr(ms: &mut MemorySet, frames: &mut FrameAllocator, start: u64, len: u64, port: u64) -> (r: Result<(), MapError>)
    requires
        old(ms).wf(),
        old(frames).wf(),
        old(ms).owns(old(frames)),
    ensures
        final(ms).wf(),
        final(frames).wf(),
        final(ms).owns(final(frames)),
        r == mmap_outcome(*old(ms), start, len, port, old(frames).available(), r),
        r is Err ==> final(ms).areas() == old(ms).areas() && final(ms).table()@ == old(ms).table()@,
        r is Err ==> forall|p: nat| #[trigger] final(frames).allocated().contains(p) ==> old(frames).allocated().contains(p)
            || final(ms).table().table_frames().contains(p),
        r is Ok ==> mmap_done(*old(ms), *final(ms), old(frames), final(frames), start, len, port),
        r is Err && r != Err::<(), MapError>(MapError::FrameAllocationFailed) ==> *final(frames) == *old(frames),
        port & !7u64 != 0 || port & 7 == 0 || offset_of(start as nat) != 0 || start + len > u64::MAX - PAGE_SIZE
            ==> r is Err && *final(frames) == *old(frames) && *final(ms) == *old(ms),
        final(frames).first_frame() == old(frames).first_frame(),
        final(frames).frame_limit() == old(frames).frame_limit(),
{
    assert(port & 0xff <= 0xff && port & 7 <= 7) by (bit_vector);
    if port & !7u64 != 0 || port & 7 == 0 {
        return Err(MapError::InvalidPermissionBits((port & 0xff) as u8));
    }
    if start % PAGE_SIZE != 0 {
        return Err(MapError::UnalignedVirtualAddress);
    }
    if start > u64::MAX - PAGE_SIZE || len > u64::MAX - PAGE_SIZE - start {
        return Err(MapError::FindPteCreateError);
    }
    let end = VirtAddr(start + len).ceil().0 * PAGE_SIZE;
    proof {
        let c = page_ceil((start + len) as nat);
        assert((c * 4096) / 4096 == c && (c * 4096) % 4096 == 0) by (nonlinear_arith);
        assert(page_of(start as nat) * 4096 == start) by (nonlinear_arith)
            requires start % 4096 == 0;
    }
    let perm: u8 = (((port & 7) * 2) as u8) | PTE_U;
    let r = ms.insert_framed_area(VirtAddr(start), VirtAddr(end), perm, frames);
    proof {
        if r is Ok {
            assert forall|u: u64| page_of(start as nat) <= u < page_ceil((start + len) as nat) implies
                frames.first_frame() <= (#[trigger] ms.table()@[u]).ppn.0 < frames.frame_limit() by {
                frames.lemma_allocated_bounds(ms.table()@[u].ppn.0 as nat);
            }
        }
    }
    r
}

/// `mmap`: 0 when the range was mapped, -1 on any error (including a port
/// that asks for W without R).
pub fn sys_mmap(ms: &mut MemorySet, frames: &mut FrameAllocator, start: u64, len: u64, port: u64) -> (r: i64)
    requires
        old(ms).wf(),
        old(frames).wf(),
        old(ms).owns(old(frames)),
    ensures
        final(ms).wf(),
        final(frames).wf(),
        final(ms).owns(final(frames)),
        r == 0 || r == -1,
        exists|res: Result<(), MapError>| res == mmap_outcome(*old(ms), start, len, port, old(frames).available(), res)
            && (r == 0 <==> res is Ok),
        r == 0 ==> mmap_done(*old(ms), *final(ms), old(frames), final(frames), start, len, port),
        final(frames).first_frame() == old(frames).first_frame(),
        final(frames).frame_limit() == old(frames).frame_limit(),
        port & !7u64 != 0 || port & 7 == 0 || offset_of(start as nat) != 0 || start + len > u64::MAX - PAGE_SIZE
            ==> r == -1 && *final(frames) == *old(frames) && *final(ms) == *old(ms),
        r == -1 ==> final(ms).areas() == old(ms).areas() && final(ms).table()@ == old(ms).table()@,
        r == -1 ==> forall|p: nat| #[trigger] final(frames).allocated().contains(p) ==> old(frames).allocated().contains(p)
            || final(ms).table().table_frames().contains(p),
{
    match map_addr(ms, frames, start, len, port) {
        Ok(()) => 0,
        Err(_) => -1,
    }
}

/// The index of the first empty slot of `list`, if any.
pub open spec fn first_free<T>(list: Seq<Option<T>>) -> Option<int> {
    if exists|i: int| 0 <= i < list.len() && list[i] is None {
        Some(choose|i: int| 0 <= i < list.len() && list[i] is None && forall|j: int| 0 <= j < i ==> list[j] is Some)
    } else {
        None
    }
}

/// The id a new object takes: the first empty slot, or a new slot at the end.
pub open spec fn new_id<T>(list: Seq<Option<T>>) -> int {
    match first_free(list) {
        Some(i) => i,
        None => list.len() as int,
    }
}

/// The list after a new object `x` took its id.
pub open spec fn with_new<T>(list: Seq<Option<T>>, x: T) -> Seq<Option<T>> {
    match first_free(list) {
        Some(i) => list.update(i, Some(x)),
        None => list.push(Some(x)),
    }
}

/// Puts `x` into the first empty slot of `list`, or at its end, and returns
/// the slot's index.
fn place<T>(list: &mut Vec<Option<T>>, x: T) -> (r: usize)
    requires
        old(list)@.len() < usize::MAX,
    ensures
        r <= old(list)@.len(),
        r == new_id(old(list)@),
        final(list)@ == with_new(old(list)@, x),
{
    let mut i: usize = 0;
    while i < list.len()
        invariant
            i <= list@.len(),
            list@ == old(list)@,
            forall|j: int| 0 <= j < i ==> list@[j] is Some,
        decreases list@.len() - i,
    {
        if list[i].is_none() {
            let ghost l = list@;
            assert(first_free(l) == Some(i as int)) by {
                let k = choose|k: int| 0 <= k < l.len() && l[k] is None && forall|j: int| 0 <= j < k ==> l[j] is Some;
                if k < i {
                } else if k > i {
                    assert(l[i as int] is Some);
                }
            }
            list.set(i, Some(x));
            return i;
        }
        i = i + 1;
    }
    list.push(Some(x));
    i
}

/// `close`: empties slot `fd`; -1 when there is no such open file.
pub fn sys_close(p: &mut Process, fd: usize) -> (r: i64)
    ensures
        final(p).syscall_times@ == counted(old(p).syscall_times@, SYSCALL_CLOSE),
        fd < old(p).fd_table@.len() && old(p).fd_table@[fd as int] is Some ==> r == 0
            && final(p).fd_table@ == old(p).fd_table@.update(fd as int, None),
        !(fd < old(p).fd_table@.len() && old(p).fd_table@[fd as int] is Some) ==> r == -1
            && final(p).fd_table@ == old(p).fd_table@,
        final(p).mutex_list == old(p).mutex_list,
        final(p).semaphore_list == old(p).semaphore_list,
        final(p).condvar_list == old(p).condvar_list,
        final(p).enable_deadlock_detect == old(p).enable_deadlock_detect,
        final(p).program_brk == old(p).program_brk,
        final(p).heap_bottom == old(p).heap_bottom,
{
    record(&mut p.syscall_times, SYSCALL_CLOSE);
    if fd >= p.fd_table.len() {
        return -1;
    }
    if p.fd_table[fd].is_none() {
        return -1;
    }
    p.fd_table.set(fd, None);
    0
}

/// `enable_deadlock_detect`: turns detection on for a nonzero argument and
/// off for zero.
pub fn sys_enable_deadlock_detect(p: &mut Process, enabled: usize) -> (r: i64)
    ensures
        r == 0,
        final(p).enable_deadlock_detect == (enabled != 0),
        final(p).syscall_times == old(p).syscall_times,
        final(p).mutex_available == old(p).mutex_available,
        final(p).semaphore_available == old(p).semaphore_available,
        final(p).fd_table == old(p).fd_table,
        final(p).mutex_list == old(p).mutex_list,
        final(p).semaphore_list == old(p).semaphore_list,
        final(p).condvar_list == old(p).condvar_list,
        final(p).program_brk == old(p).program_brk,
        final(p).heap_bottom == old(p).heap_bottom,
{
    p.enable_deadlock_detect = enabled != 0;
    0
}

/// `mutex_create`: a new mutex takes the first free id, or a new one.
pub fn sys_mutex_create(p: &mut Process, blocking: bool) -> (r: i64)
    requires
        old(p).mutex_list@.len() < i64::MAX,
        old(p).mutex_list@.len() < usize::MAX,
    ensures
        r == new_id(old(p).mutex_list@),
        final(p).mutex_list@ == with_new(old(p).mutex_list@, blocking),
        final(p).mutex_available@ == with_count(old(p).mutex_available@, r as usize, 1),
        final(p).fd_table == old(p).fd_table,
        final(p).semaphore_list == old(p).semaphore_list,
        final(p).condvar_list == old(p).condvar_list,
        final(p).enable_deadlock_detect == old(p).enable_deadlock_detect,
{
    let id = place(&mut p.mutex_list, blocking);
    set_count(&mut p.mutex_available, id, 1);
    id as i64
}

/// `semaphore_create`: a new semaphore with `res_count` units takes the
/// first free id, or a new one.
pub fn sys_semaphore_create(p: &mut Process, res_count: u64) -> (r: i64)
    requires
        old(p).semaphore_list@.len() < i64::MAX,
        old(p).semaphore_list@.len() < usize::MAX,
    ensures
        r == new_id(old(p).semaphore_list@),
        final(p).semaphore_list@ == with_new(old(p).semaphore_list@, res_count),
        final(p).semaphore_available@ == with_count(
            old(p).semaphore_available@,
            r as usize,
            if res_count > i64::MAX { i64::MAX } else { res_count as i64 },
        ),
        final(p).fd_table == old(p).fd_table,
        final(p).mutex_list == old(p).mutex_list,
        final(p).condvar_list == old(p).condvar_list,
        final(p).enable_deadlock_detect == old(p).enable_deadlock_detect,
{
    let id = place(&mut p.semaphore_list, res_count);
    let units: i64 = if res_count > i64::MAX as u64 { i64::MAX } else { res_count as i64 };
    set_count(&mut p.semaphore_available, id, units);
    id as i64
}

/// The id a new condition variable takes: the first free one, or a new one.
pub open spec fn new_condvar_id(list: Seq<bool>) -> int {
    if exists|i: int| 0 <= i < list.len() && !list[i] {
        choose|i: int| 0 <= i < list.len() && !list[i] && forall|j: int| 0 <= j < i ==> list[j]
    } else {
        list.len() as int
    }
}

/// `condvar_create`: a new condition variable takes the first free id, or a
/// new one.
pub fn sys_condvar_create(p: &mut Process) -> (r: i64)
    requires
        old(p).condvar_list@.len() < i64::MAX,
        old(p).condvar_list@.len() < usize::MAX,
    ensures
        r == new_condvar_id(old(p).condvar_list@),
        r < old(p).condvar_list@.len() ==> final(p).condvar_list@ == old(p).condvar_list@.update(r as int, true),
        r == old(p).condvar_list@.len() ==> final(p).condvar_list@ == old(p).condvar_list@.push(true),
        final(p).fd_table == old(p).fd_table,
        final(p).mutex_list == old(p).mutex_list,
        final(p).semaphore_list == old(p).semaphore_list,
        final(p).enable_deadlock_detect == old(p).enable_deadlock_detect,
{
    let mut i: usize = 0;
    while i < p.condvar_list.len()
        invariant
            i <= p.condvar_list@.len(),
            p.condvar_list@.len() < i64::MAX,
            p.condvar_list@ == old(p).condvar_list@,
            p.fd_table == old(p).fd_table,
            p.mutex_list == old(p).mutex_list,
            p.semaphore_list == old(p).semaphore_list,
            p.enable_deadlock_detect == old(p).enable_deadlock_detect,
            forall|j: int| 0 <= j < i ==> p.condvar_list@[j],
        decreases p.condvar_list@.len() - i,
    {
        if !p.condvar_list[i] {
            let ghost l = p.condvar_list@;
            assert(new_condvar_id(l) == i as int) by {
                let k = choose|k: int| 0 <= k < l.len() && !l[k] && forall|j: int| 0 <= j < k ==> l[j];
                if k > i {
                    assert(l[i as int]);
                }
            }
            p.condvar_list.set(i, true);
            return i as i64;
        }
        i = i + 1;
    }
    p.condvar_list.push(true);
    i as i64
}

/// `condvar_signal`: the id must name a condition variable; the caller then
/// wakes one waiter. Always 0.
pub fn sys_condvar_signal(p: &Process, condvar_id: usize) -> (r: i64)
    requires
        condvar_id < p.condvar_list@.len(),
        p.condvar_list@[condvar_id as int],
    ensures
        r == 0,
{
    0
}

/// `condvar_wait`: both ids must name live objects; the caller then
/// releases the mutex and blocks. Always 0.
pub fn sys_condvar_wait(p: &Process, condvar_id: usize, mutex_id: usize) -> (r: i64)
    requires
        condvar_id < p.condvar_list@.len(),
        p.condvar_list@[condvar_id as int],
        mutex_id < p.mutex_list@.len(),
        p.mutex_list@[mutex_id as int] is Some,
    ensures
        r == 0,
{
    0
}

/// `sbrk`: moves the end of the heap by `size` bytes and returns the old
/// end, or -1 when the end would fall below the heap's bottom or out of
/// range. Only the bookkeeping of the heap's end is kept here; the heap's
/// pages are mapped and unmapped through the memory set.
pub fn sys_sbrk(p: &mut Process, size: i32) -> (r: i64)
    requires
        old(p).program_brk <= i64::MAX,
    ensures
        old(p).program_brk + size < old(p).heap_bottom || old(p).program_brk + size > i64::MAX ==> r == -1
            && final(p).program_brk == old(p).program_brk,
        old(p).heap_bottom <= old(p).program_brk + size <= i64::MAX ==> r == old(p).program_brk
            && final(p).program_brk == old(p).program_brk + size,
        final(p).heap_bottom == old(p).heap_bottom,
        final(p).fd_table == old(p).fd_table,
        final(p).mutex_list == old(p).mutex_list,
        final(p).semaphore_list == old(p).semaphore_list,
        final(p).condvar_list == old(p).condvar_list,
        final(p).enable_deadlock_detect == old(p).enable_deadlock_detect,
{
    let old_brk = p.program_brk;
    if size >= 0 {
        let inc = size as u64;
        if inc > i64::MAX as u64 - old_brk {
            return -1;
        }
        if old_brk + inc < p.heap_bottom {
            return -1;
        }
        p.program_brk = old_brk + inc;
    } else {
        let dec = (0 - size as i64) as u64;
        if dec > old_brk || old_brk - dec < p.heap_bottom {
            return -1;
        }
        p.program_brk = old_brk - dec;
    }
    old_brk as i64
}

/// `sleep`: the time at which the caller is woken, `ms` after `now_ms`,
/// held at the largest time there is.
pub fn sys_sleep(now_ms: u64, ms: u64) -> (r: u64)
    ensures
        now_ms + ms <= u64::MAX ==> r == now_ms + ms,
        now_ms + ms > u64::MAX ==> r == u64::MAX,
{
    if ms > u64::MAX - now_ms {
        u64::MAX
    } else {
        now_ms + ms
    }
}

/// `yield`: the caller gives up the processor; the task sees 0.
pub fn sys_yield(p: &mut Process) -> (r: i64)
    ensures
        r == 0,
        final(p).syscall_times@ == counted(old(p).syscall_times@, SYSCALL_YIELD),
        final(p).fd_table == old(p).fd_table,
{
    record(&mut p.syscall_times, SYSCALL_YIELD);
    0
}

/// Whether `fd` names an open file of `p` that allows writing (or, with
/// `write` false, reading).
pub open spec fn file_allows(p: &Process, fd: usize, write: bool) -> bool {
    &&& fd < p.fd_table@.len()
    &&& p.fd_table@[fd as int] is Some
    &&& if write {
        p.fd_table@[fd as int]->Some_0.writable
    } else {
        p.fd_table@[fd as int]->Some_0.readable
    }
}

/// Whether the whole buffer `[buf, buf + len)` can be reached from user mode
/// (to write into it when `write` holds).
pub open spec fn buffer_ok(ms: &MemorySet, buf: u64, len: u64, write: bool) -> bool {
    &&& buf + len <= u64::MAX
    &&& forall|a: u64| buf <= a < buf + len ==> user_accessible(*ms, page_of(a as nat) as u64, write)
}

fn file_io(p: &Process, ms: &MemorySet, fd: usize, buf: u64, len: u64, write: bool) -> (r: Result<Vec<UserSpan>, i64>)
    requires
        ms.wf(),
    ensures
        r is Ok <==> file_allows(p, fd, write) && buffer_ok(ms, buf, len, !write),
        r matches Ok(spans) ==> spans_of(*ms, buf as nat, len as nat, spans@),
        r matches Err(e) ==> e == -1,
{
    if fd >= p.fd_table.len() {
        return Err(-1);
    }
    let allowed = match p.fd_table[fd] {
        Some(f) => if write { f.writable } else { f.readable },
        None => false,
    };
    if !allowed {
        return Err(-1);
    }
    if buf > u64::MAX - len {
        return Err(-1);
    }
    match translated_byte_buffer(ms, buf, len, !write) {
        Some(spans) => Ok(spans),
        None => Err(-1),
    }
}

/// `write`: when `fd` is open for writing and the buffer is readable from
/// user mode, the pieces of the buffer that the caller hands to the file;
/// else -1.
pub fn sys_write(p: &mut Process, ms: &MemorySet, fd: usize, buf: u64, len: u64) -> (r: Result<Vec<UserSpan>, i64>)
    requires
        ms.wf(),
    ensures
        final(p).syscall_times@ == counted(old(p).syscall_times@, SYSCALL_WRITE),
        final(p).fd_table == old(p).fd_table,
        r is Ok <==> file_allows(old(p), fd, true) && buffer_ok(ms, buf, len, false),
        r matches Ok(spans) ==> spans_of(*ms, buf as nat, len as nat, spans@),
        r matches Err(e) ==> e == -1,
{
    record(&mut p.syscall_times, SYSCALL_WRITE);
    file_io(p, ms, fd, buf, len, true)
}

/// `read`: when `fd` is open for reading and the buffer is writable from
/// user mode, the pieces of the buffer that the caller fills from the file;
/// else -1.
pub fn sys_read(p: &mut Process, ms: &MemorySet, fd: usize, buf: u64, len: u64) -> (r: Result<Vec<UserSpan>, i64>)
    requires
        ms.wf(),
    ensures
        final(p).syscall_times@ == counted(old(p).syscall_times@, SYSCALL_READ),
        final(p).fd_table == old(p).fd_table,
        r is Ok <==> file_allows(old(p), fd, false) && buffer_ok(ms, buf, len, true),
        r matches Ok(spans) ==> spans_of(*ms, buf as nat, len as nat, spans@),
        r matches Err(e) ==> e == -1,
{
    record(&mut p.syscall_times, SYSCALL_READ);
    file_io(p, ms, fd, buf, len, false)
}

/// Boot: a frame allocator over `end` frames that hands out those from
/// `start` on, and the kernel's address space on it, which maps the frames
/// below `start` (the kernel image) to themselves, readable, writable and
/// executable, and not user-accessible. `None` when the frames do not
/// suffice for the tables.
pub fn init(start: u64, end: u64) -> (r: Option<(FrameAllocator, MemorySet)>)
    requires
        start <= end <= crate::config::MAX_FRAMES,
    ensures
        r is Some ==> start < end,
        end - start >= 1 + 2 * start ==> r is Some,
        r matches Some((frames, ms)) ==> {
            &&& frames.wf() && ms.wf() && ms.owns(&frames)
            &&& frames.allocated() == ms.table().table_frames()
            &&& start > 0 ==> ms.areas() == seq![MapArea {
                start: VirtPageNum(0),
                end: VirtPageNum(start),
                map_type: MapType::Identical,
                perm: KERNEL_PERM,
            }]
            &&& start == 0 ==> ms.areas().len() == 0
            &&& forall|u: u64| u < start ==> #[trigger] ms.table()@[u] == (crate::page_table::PageTableEntry { ppn: crate::address::PhysPageNum(u), flags: KERNEL_PERM | PTE_V })
        },
{
    let mut frames = FrameAllocator::new(start, end);
    let mut ms = match MemorySet::new_bare(&mut frames) {
        Some(ms) => ms,
        None => {
            return None;
        },
    };
    let ghost t0 = ms.table();
    assert(frames.allocated() =~= t0.table_frames());
    proof {
        let st = start as int;
        assert((st * 4096) / 4096 == st && (st * 4096) % 4096 == 0) by (nonlinear_arith);
        assert(st * 4096 <= 0x8_0000 * 4096) by (nonlinear_arith)
            requires st <= 0x8_0000;
    }
    assert(14u8 & !(2u8 | 4u8 | 8u8 | 16u8) == 0 && 14u8 & 1u8 == 0 && 14u8 & (2u8 | 4u8 | 8u8) != 0 && 14u8 & 2u8 != 0) by (bit_vector);
    match ms.insert_identical_area(VirtAddr(0), VirtAddr(start * PAGE_SIZE), KERNEL_PERM, &mut frames) {
        Ok(()) => {
            assert(frames.allocated() =~= ms.table().table_frames());
            assert(start > 0 ==> ms.areas() =~= seq![MapArea {
                start: VirtPageNum(0),
                end: VirtPageNum(start),
                map_type: MapType::Identical,
                perm: KERNEL_PERM,
            }]);
            Some((frames, ms))
        },
        Err(_) => None,
    }
}

/// The kernel image's permissions: readable, writable, executable.
pub const KERNEL_PERM: u8 = 14;


/// The error of unmapping `[start, start + len)`, rounded up to whole
/// pages, or `Ok` when the pages were taken out.
pub open spec fn munmap_outcome(ms: MemorySet, start: u64, len: u64) -> Result<(), MapError> {
    if offset_of(start as nat) != 0 {
        Err(MapError::UnalignedVirtualAddress)
    } else if start + len > u64::MAX - PAGE_SIZE {
        Err(MapError::RemoveAreaFailed)
    } else {
        remove_outcome(ms, VirtAddr(start), VirtAddr((page_ceil((start + len) as nat) * PAGE_SIZE) as u64))
    }
}

/// Unmaps `[start, start + len)`, rounded up to whole pages, out of the
/// framed area that holds all of it, giving the frames back.
pub fn unmap_addr(ms: &mut MemorySet, frames: &mut FrameAllocator, start: u64, len: u64) -> (r: Result<(), MapError>)
    requires
        old(ms).wf(),
        old(frames).wf(),
        old(ms).owns(old(frames)),
    ensures
        final(ms).wf(),
        final(frames).wf(),
        final(ms).owns(final(frames)),
        r == munmap_outcome(*old(ms), start, len),
        r is Err ==> final(ms).areas() == old(ms).areas() && final(ms).table()@ == old(ms).table()@
            && *final(frames) == *old(frames),
        r is Ok ==> munmap_done(*old(ms), *final(ms), old(frames), final(frames), start, len),
        final(frames).memory() == old(frames).memory(),
        final(frames).first_frame() == old(frames).first_frame(),
        final(frames).frame_limit() == old(frames).frame_limit(),
{
    if start % PAGE_SIZE != 0 {
        return Err(MapError::UnalignedVirtualAddress);
    }
    if start > u64::MAX - PAGE_SIZE || len > u64::MAX - PAGE_SIZE - start {
        return Err(MapError::RemoveAreaFailed);
    }
    let end = VirtAddr(start + len).ceil().0 * PAGE_SIZE;
    proof {
        let c = page_ceil((start + len) as nat);
        assert((c * 4096) / 4096 == c && (c * 4096) % 4096 == 0) by (nonlinear_arith);
    }
    ms.remove_framed_area(VirtAddr(start), VirtAddr(end), frames)
}

/// What a successful `munmap` of `[start, start + len)` did: for a
/// non-empty rounded range, the framed area that held it was dropped, shrunk
/// or split, its pages lost their entries, and exactly their frames went
/// back to the allocator; an empty range changed nothing.
pub open spec fn munmap_done(before: MemorySet, after: MemorySet, f0: &FrameAllocator, f1: &FrameAllocator, start: u64, len: u64) -> bool {
    let s = page_of(start as nat) as u64;
    let e = page_ceil((start + len) as nat) as u64;
    if s >= e {
        after.areas() == before.areas() && after.table()@ == before.table()@ && *f1 == *f0
    } else {
        &&& exists|i: int| 0 <= i < before.areas().len() && crate::memory_set::fits(#[trigger] before.areas()[i], s, e)
            && after.areas() == crate::memory_set::areas_after_removal(before.areas(), i, s, e)
        &&& after.table()@ == without_range(before.table()@, s, e)
        &&& f1.available() == f0.available() + (e - s)
        &&& f1.free_stack() == f0.free_stack() + Seq::new((e - s) as nat, |k: int| before.table()@[(s + k) as u64].ppn.0)
        &&& f1.high_water() == f0.high_water()
        &&& forall|w: u64| #[trigger] after.table().walk_cost(w) == before.table().walk_cost(w)
        &&& forall|p: nat| #[trigger] f1.allocated().contains(p) <==> f0.allocated().contains(p)
            && !(exists|u: u64| s <= u < e && before.table()@[u].ppn.0 == p)
    }
}

/// `munmap`: 0 when the pages were taken out, -1 on any error.
pub fn sys_munmap(ms: &mut MemorySet, frames: &mut FrameAllocator, start: u64, len: u64) -> (r: i64)
    requires
        old(ms).wf(),
        old(frames).wf(),
        old(ms).owns(old(frames)),
    ensures
        final(ms).wf(),
        final(frames).wf(),
        final(ms).owns(final(frames)),
        r == 0 <==> munmap_outcome(*old(ms), start, len) is Ok,
        r == 0 || r == -1,
        r == 0 ==> munmap_done(*old(ms), *final(ms), old(frames), final(frames), start, len),
        final(frames).memory() == old(frames).memory(),
        final(frames).first_frame() == old(frames).first_frame(),
        final(frames).frame_limit() == old(frames).frame_limit(),
        r == -1 ==> final(ms).areas() == old(ms).areas() && final(ms).table()@ == old(ms).table()@
            && *final(frames) == *old(frames),
{
    match unmap_addr(ms, frames, start, len) {
        Ok(()) => 0,
        Err(_) => -1,
    }
}

/// Bytes of a [`TimeVal`] in user memory.
pub const TIME_VAL_SIZE: u64 = 16;

/// Bytes of a [`TaskInfo`] in user memory: the status word, one counter per
/// system call number (500 of them), and the running time.
pub const TASK_INFO_SIZE: u64 = 2016;

/// Bytes of a file's status record in user memory.
pub const STAT_SIZE: u64 = 80;

/// A time in microseconds as seconds and microseconds.
pub fn time_val(us: u64) -> (r: TimeVal)
    ensures
        r.sec == us / 1_000_000,
        r.usec == us % 1_000_000,
{
    TimeVal { sec: us / 1_000_000, usec: us % 1_000_000 }
}

/// The `n` low bytes of `x`, least significant first.
pub open spec fn le_bytes(x: u64, n: nat) -> Seq<u8> {
    Seq::new(n, |i: int| ((x >> ((8 * i) as u64)) & 0xff) as u8)
}

fn push_le(v: &mut Vec<u8>, x: u64, n: u64)
    requires
        n <= 8,
    ensures
        final(v)@ == old(v)@ + le_bytes(x, n as nat),
{
    let mut i: u64 = 0;
    while i < n
        invariant
            i <= n <= 8,
            v@ == old(v)@ + le_bytes(x, i as nat),
        decreases n - i,
    {
        v.push(((x >> (8 * i)) & 0xff) as u8);
        i = i + 1;
        assert(v@ =~= old(v)@ + le_bytes(x, i as nat));
    }
}

/// The bytes of a [`TimeVal`] in user memory: seconds, then microseconds,
/// each as eight little-endian bytes.
pub open spec fn time_bytes(t: TimeVal) -> Seq<u8> {
    le_bytes(t.sec, 8) + le_bytes(t.usec, 8)
}

/// The counter for call `i`, zero where there is none.
pub open spec fn count_at(times: Seq<u32>, i: int) -> u64 {
    if 0 <= i < times.len() { times[i] as u64 } else { 0 }
}

/// The first `n` counters as four little-endian bytes each.
pub open spec fn counter_bytes(times: Seq<u32>, n: nat) -> Seq<u8>
    decreases n,
{
    if n == 0 {
        Seq::empty()
    } else {
        counter_bytes(times, (n - 1) as nat) + le_bytes(count_at(times, n - 1), 4)
    }
}

/// The bytes of a [`TaskInfo`] in user memory: the status word, 500
/// counters, four bytes of padding, and the running time.
pub open spec fn task_info_bytes(status: u32, times: Seq<u32>, time: u64) -> Seq<u8> {
    le_bytes(status as u64, 4) + counter_bytes(times, 500) + le_bytes(0, 4) + le_bytes(time, 8)
}

fn encode_task_info(status: u32, times: &Vec<u32>, time: u64) -> (r: Vec<u8>)
    ensures
        r@ == task_info_bytes(status, times@, time),
        r@.len() == TASK_INFO_SIZE,
{
    let mut v: Vec<u8> = Vec::new();
    push_le(&mut v, status as u64, 4);
    let ghost head = v@;
    let mut i: usize = 0;
    while i < 500
        invariant
            i <= 500,
            head == le_bytes(status as u64, 4),
            v@ == head + counter_bytes(times@, i as nat),
        decreases 500 - i,
    {
        let c: u64 = if i < times.len() { times[i] as u64 } else { 0 };
        push_le(&mut v, c, 4);
        i = i + 1;
        assert(v@ =~= head + counter_bytes(times@, i as nat));
    }
    push_le(&mut v, 0, 4);
    push_le(&mut v, time, 8);
    assert(v@ =~= task_info_bytes(status, times@, time));
    proof {
        lemma_counter_bytes_len(times@, 500);
    }
    v
}

proof fn lemma_counter_bytes_len(times: Seq<u32>, n: nat)
    ensures
        counter_bytes(times, n).len() == 4 * n,
    decreases n,
{
    if n > 0 {
        lemma_counter_bytes_len(times, (n - 1) as nat);
    }
}

/// Whether every byte of `[va, va + len)` lies in a page the task can write
/// and in a frame inside physical memory.
pub open spec fn record_writable(ms: &MemorySet, frames: &FrameAllocator, va: u64, len: u64) -> bool {
    &&& buffer_ok(ms, va, len, true)
    &&& forall|k: int| 0 <= k < len ==> #[trigger] crate::translate::phys_of(*ms, (va + k) as nat) < frames.memory().len()
}

/// Whether the task's bytes from `va` on are `data`.
pub open spec fn user_holds(ms: &MemorySet, frames: &FrameAllocator, va: u64, data: Seq<u8>) -> bool {
    forall|k: int| 0 <= k < data.len() ==> #[trigger] crate::translate::user_byte(*ms, frames, (va + k) as nat) == data[k]
}

/// What writing a record into user memory keeps: the allocator's frames
/// and their ownership; only bytes change.
pub open spec fn only_bytes_changed(ms: &MemorySet, f0: &FrameAllocator, f1: &FrameAllocator) -> bool {
    &&& f1.wf()
    &&& f1.allocated() == f0.allocated()
    &&& f1.available() == f0.available()
    &&& f1.free_stack() == f0.free_stack()
    &&& f1.high_water() == f0.high_water()
    &&& f1.first_frame() == f0.first_frame()
    &&& f1.frame_limit() == f0.frame_limit()
    &&& (ms.owns(f0) ==> ms.owns(f1))
}

/// Writes `data` at `va` when the whole record is writable; -1 otherwise,
/// with memory unchanged.
fn put_record(ms: &MemorySet, frames: &mut FrameAllocator, va: u64, data: &Vec<u8>) -> (r: i64)
    requires
        ms.wf(),
        old(frames).wf(),
        data@.len() <= PAGE_SIZE,
    ensures
        only_bytes_changed(ms, old(frames), final(frames)),
        r == 0 <==> record_writable(ms, old(frames), va, data@.len() as u64),
        r == 0 || r == -1,
        r == 0 ==> user_holds(ms, final(frames), va, data@),
        r == -1 ==> final(frames).memory() == old(frames).memory(),
{
    let len = data.len() as u64;
    if va > u64::MAX - len {
        return -1;
    }
    if translated_byte_buffer(ms, va, len, true).is_none() {
        return -1;
    }
    if write_user(ms, frames, va, data.as_slice()) {
        0
    } else {
        -1
    }
}

/// Call number of `yield`.
pub const SYSCALL_YIELD: usize = 124;
/// Call number of `fstat`.
pub const SYSCALL_FSTAT: usize = 80;
/// Call number of `get_time`.
pub const SYSCALL_GET_TIME: usize = 169;
/// Call number of `task_info`.
pub const SYSCALL_TASK_INFO: usize = 410;

/// `get_time`: writes `time_val(now_us)` into the user's record at `ts`,
/// across a page boundary if need be; 0, or -1 when the record cannot be
/// written.
pub fn sys_get_time(p: &mut Process, ms: &MemorySet, frames: &mut FrameAllocator, ts: u64, now_us: u64) -> (r: i64)
    requires
        ms.wf(),
        old(frames).wf(),
    ensures
        final(p).syscall_times@ == counted(old(p).syscall_times@, SYSCALL_GET_TIME),
        final(p).fd_table == old(p).fd_table,
        only_bytes_changed(ms, old(frames), final(frames)),
        r == 0 <==> record_writable(ms, old(frames), ts, TIME_VAL_SIZE),
        r == 0 || r == -1,
        r == 0 ==> user_holds(ms, final(frames), ts, time_bytes(TimeVal { sec: now_us / 1_000_000, usec: now_us % 1_000_000 })),
        r == -1 ==> final(frames).memory() == old(frames).memory(),
{
    record(&mut p.syscall_times, SYSCALL_GET_TIME);
    let t = time_val(now_us);
    let mut data: Vec<u8> = Vec::new();
    push_le(&mut data, t.sec, 8);
    push_le(&mut data, t.usec, 8);
    put_record(ms, frames, ts, &data)
}

/// `task_info`: writes the task's status, its per-call counters (after
/// counting this call) and its running time into the user's record at
/// `ti`; 0, or -1 when the record cannot be written.
pub fn sys_task_info(p: &mut Process, ms: &MemorySet, frames: &mut FrameAllocator, ti: u64, status: u32, time: u64) -> (r: i64)
    requires
        ms.wf(),
        old(frames).wf(),
    ensures
        final(p).syscall_times@ == counted(old(p).syscall_times@, SYSCALL_TASK_INFO),
        final(p).fd_table == old(p).fd_table,
        only_bytes_changed(ms, old(frames), final(frames)),
        r == 0 <==> record_writable(ms, old(frames), ti, TASK_INFO_SIZE),
        r == 0 || r == -1,
        r == 0 ==> user_holds(ms, final(frames), ti, task_info_bytes(status, final(p).syscall_times@, time)),
        r == -1 ==> final(frames).memory() == old(frames).memory(),
{
    record(&mut p.syscall_times, SYSCALL_TASK_INFO);
    let data = encode_task_info(status, &p.syscall_times, time);
    put_record(ms, frames, ti, &data)
}

/// `fstat`: when `fd` names an open file, writes its status record `stat`
/// (as the file system reports it) into the user's record at `st`; 0, or
/// -1 for a bad descriptor or a record that cannot be written.
pub fn sys_fstat(p: &mut Process, ms: &MemorySet, frames: &mut FrameAllocator, fd: usize, st: u64, stat: &Vec<u8>) -> (r: i64)
    requires
        ms.wf(),
        old(frames).wf(),
        stat@.len() == STAT_SIZE,
    ensures
        final(p).syscall_times@ == counted(old(p).syscall_times@, SYSCALL_FSTAT),
        final(p).fd_table == old(p).fd_table,
        only_bytes_changed(ms, old(frames), final(frames)),
        r == 0 <==> fd < old(p).fd_table@.len() && old(p).fd_table@[fd as int] is Some
            && record_writable(ms, old(frames), st, STAT_SIZE),
        r == 0 || r == -1,
        r == 0 ==> user_holds(ms, final(frames), st, stat@),
        r == -1 ==> final(frames).memory() == old(frames).memory(),
{
    record(&mut p.syscall_times, SYSCALL_FSTAT);
    if fd >= p.fd_table.len() || p.fd_table[fd].is_none() {
        return -1;
    }
    put_record(ms, frames, st, stat)
}

/// `open`: counts the call and returns the path at `path` that the caller
/// hands to the file system; -1 when it cannot be read. The file it opens
/// then goes in through [`install_fd`].
pub fn sys_open(p: &mut Process, ms: &MemorySet, frames: &FrameAllocator, path: u64) -> (r: Result<Vec<u8>, i64>)
    requires
        ms.wf(),
    ensures
        final(p).syscall_times@ == counted(old(p).syscall_times@, SYSCALL_OPEN),
        final(p).fd_table == old(p).fd_table,
        r matches Ok(v) ==> is_user_str(*ms, frames, path, v@),
        r matches Err(e) ==> e == -1 && user_str_broken(*ms, frames, path),
{
    record(&mut p.syscall_times, SYSCALL_OPEN);
    match translated_str(ms, frames, path) {
        Some(v) => Ok(v),
        None => Err(-1),
    }
}

/// Puts an opened file into the first empty slot of the file table, or at
/// its end, and returns its descriptor.
pub fn install_fd(p: &mut Process, file: OpenFile) -> (r: i64)
    requires
        old(p).fd_table@.len() < i64::MAX,
        old(p).fd_table@.len() < usize::MAX,
    ensures
        r == new_id(old(p).fd_table@),
        final(p).fd_table@ == with_new(old(p).fd_table@, file),
        final(p).mutex_list == old(p).mutex_list,
        final(p).semaphore_list == old(p).semaphore_list,
        final(p).condvar_list == old(p).condvar_list,
        final(p).syscall_times == old(p).syscall_times,
{
    let fd = place(&mut p.fd_table, file);
    fd as i64
}

/// `linkat`: counts the call and returns the old and new paths that the
/// caller hands to the file system; -1 when either cannot be read.
pub fn sys_linkat(p: &mut Process, ms: &MemorySet, frames: &FrameAllocator, old_name: u64, new_name: u64) -> (r: Result<(Vec<u8>, Vec<u8>), i64>)
    requires
        ms.wf(),
    ensures
        final(p).syscall_times@ == counted(old(p).syscall_times@, SYSCALL_LINKAT),
        final(p).fd_table == old(p).fd_table,
        r matches Ok((a, b)) ==> is_user_str(*ms, frames, old_name, a@) && is_user_str(*ms, frames, new_name, b@),
        r matches Err(e) ==> e == -1 && (user_str_broken(*ms, frames, old_name) || user_str_broken(*ms, frames, new_name)),
{
    record(&mut p.syscall_times, SYSCALL_LINKAT);
    let a = match translated_str(ms, frames, old_name) {
        Some(v) => v,
        None => {
            return Err(-1);
        },
    };
    match translated_str(ms, frames, new_name) {
        Some(b) => Ok((a, b)),
        None => Err(-1),
    }
}

/// `unlinkat`: counts the call and returns the path that the caller hands
/// to the file system; -1 when it cannot be read.
pub fn sys_unlinkat(p: &mut Process, ms: &MemorySet, frames: &FrameAllocator, name: u64) -> (r: Result<Vec<u8>, i64>)
    requires
        ms.wf(),
    ensures
        final(p).syscall_times@ == counted(old(p).syscall_times@, SYSCALL_UNLINKAT),
        final(p).fd_table == old(p).fd_table,
        r matches Ok(v) ==> is_user_str(*ms, frames, name, v@),
        r matches Err(e) ==> e == -1 && user_str_broken(*ms, frames, name),
{
    record(&mut p.syscall_times, SYSCALL_UNLINKAT);
    match translated_str(ms, frames, name) {
        Some(v) => Ok(v),
        None => Err(-1),
    }
}

/// `mmap` of a non-empty range followed by `munmap` of the same range
/// gives back the areas and the page table that were there before.
pub proof fn lemma_mmap_munmap_round_trip(
    m0: MemorySet,
    m1: MemorySet,
    m2: MemorySet,
    f0: &FrameAllocator,
    f1: &FrameAllocator,
    f2: &FrameAllocator,
    start: u64,
    len: u64,
    port: u64,
)
    requires
        m0.wf(),
        m1.wf(),
        page_of(start as nat) < page_ceil((start + len) as nat),
        mmap_done(m0, m1, f0, f1, start, len, port),
        munmap_done(m1, m2, f1, f2, start, len),
    ensures
        m2.areas() == m0.areas(),
        m2.table()@ == m0.table()@,
{
    let s = page_of(start as nat) as u64;
    let e = page_ceil((start + len) as nat) as u64;
    let n = m0.areas().len() as int;
    let i = choose|i: int| 0 <= i < m1.areas().len() && crate::memory_set::fits(#[trigger] m1.areas()[i], s, e)
        && m2.areas() == crate::memory_set::areas_after_removal(m1.areas(), i, s, e);
    if i != n {
        crate::memory_set::lemma_areas_disjoint(&m1, i, n);
    }
    assert(m2.areas() =~= m0.areas());
    assert forall|u: u64| s <= u < e implies !m0.table()@.contains_key(u) by {
        crate::memory_set::lemma_pages_consistent(&m0, u);
        if m0.table()@.contains_key(u) {
            let k = choose|k: int| 0 <= k < m0.areas().len() && crate::memory_set::covers(#[trigger] m0.areas()[k], u);
            assert(m1.areas()[k] == m0.areas()[k]);
            crate::memory_set::lemma_areas_disjoint(&m1, k, n);
        }
    }
    assert(m2.table()@ =~= m0.table()@);
}

/// A buffer the task can write it can also read: bytes written through the
/// pieces `sys_read` hands out are there for a later `sys_write`.
pub proof fn lemma_writable_is_readable(ms: &MemorySet, buf: u64, len: u64)
    requires
        ms.wf(),
        buffer_ok(ms, buf, len, true),
    ensures
        buffer_ok(ms, buf, len, false),
{
    assert forall|a: u64| buf <= a < buf + len implies user_accessible(*ms, page_of(a as nat) as u64, false) by {
        assert(user_accessible(*ms, page_of(a as nat) as u64, true));
        crate::memory_set::lemma_mapped_flags(ms, page_of(a as nat) as u64);
    }
}

/// `munmap` of a non-empty range followed at once by `mmap` of the same
/// range takes back exactly the frames the `munmap` gave back, last given
/// back first: page `u` gets the frame that page `s + e - 1 - u` had.
pub proof fn lemma_munmap_then_mmap_reuses_frames(
    m0: MemorySet,
    m1: MemorySet,
    m2: MemorySet,
    f0: &FrameAllocator,
    f1: &FrameAllocator,
    f2: &FrameAllocator,
    start: u64,
    len: u64,
    port: u64,
)
    requires
        m0.wf(),
        page_of(start as nat) < page_ceil((start + len) as nat),
        munmap_done(m0, m1, f0, f1, start, len),
        mmap_done(m1, m2, f1, f2, start, len, port),
    ensures
        forall|u: u64| page_of(start as nat) <= u < page_ceil((start + len) as nat) ==> (#[trigger] m2.table()@[u]).ppn
            == m0.table()@[(page_of(start as nat) + page_ceil((start + len) as nat) - 1 - u) as u64].ppn,
{
    let s = page_of(start as nat) as u64;
    let e = page_ceil((start + len) as nat) as u64;
    let i = choose|i: int| 0 <= i < m0.areas().len() && crate::memory_set::fits(#[trigger] m0.areas()[i], s, e)
        && m1.areas() == crate::memory_set::areas_after_removal(m0.areas(), i, s, e);
    assert forall|v: u64| s <= v < e implies #[trigger] m1.table().walk_cost(v) == 0 by {
        assert(crate::memory_set::covers(m0.areas()[i], v));
        crate::memory_set::lemma_pages_consistent(&m0, v);
        assert(m1.table().walk_cost(v) == m0.table().walk_cost(v));
    }
    let st0 = f0.free_stack();
    let n = (e - s) as int;
    assert forall|u: u64| s <= u < e implies (#[trigger] m2.table()@[u]).ppn
        == m0.table()@[(s + e - 1 - u) as u64].ppn by {
        let k = u - s;
        assert(f1.free_stack()[st0.len() + n - 1 - k] == m0.table()@[(s + (n - 1 - k)) as u64].ppn.0);
    }
}

} // verus!
