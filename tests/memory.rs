use kernel_mm::address::{PhysPageNum, VirtAddr, VirtPageNum};
use kernel_mm::frame_allocator::FrameAllocator;
use kernel_mm::memory_set::{MapType, MemorySet};
use kernel_mm::page_table::{PageTable, PTE_R, PTE_U, PTE_V, PTE_W, PTE_X};
use kernel_mm::syscall::{init, map_addr, sys_mmap, sys_munmap, unmap_addr};
use kernel_mm::translate::{translated_byte_buffer, translated_ref, translated_str};
use kernel_mm::MapError;

fn fresh() -> (FrameAllocator, MemorySet) {
    init(0, 64).unwrap()
}

#[test]
fn address_rounding() {
    assert_eq!(VirtAddr(0x1234).floor(), VirtPageNum(1));
    assert_eq!(VirtAddr(0x1234).ceil(), VirtPageNum(2));
    assert_eq!(VirtAddr(0x2000).ceil(), VirtPageNum(2));
    assert_eq!(VirtAddr(0x1234).page_offset(), 0x234);
    assert!(VirtAddr(0x3000).aligned());
    assert!(!VirtAddr(0x3001).aligned());
    assert_eq!(VirtPageNum(0x40201).indexes(), [1, 1, 1]);
}

#[test]
fn frames_are_reused_last_freed_first() {
    let mut fa = FrameAllocator::new(4, 10);
    let a = fa.frame_alloc().unwrap();
    let b = fa.frame_alloc().unwrap();
    let c = fa.frame_alloc().unwrap();
    assert_eq!((a.ppn.0, b.ppn.0, c.ppn.0), (4, 5, 6));
    fa.frame_dealloc(a);
    fa.frame_dealloc(b);
    fa.frame_dealloc(c);
    let x = fa.frame_alloc().unwrap();
    let y = fa.frame_alloc().unwrap();
    let z = fa.frame_alloc().unwrap();
    assert_eq!((x.ppn.0, y.ppn.0, z.ppn.0), (6, 5, 4));
    assert_eq!(fa.free_frames(), 3);
}

#[test]
fn allocator_runs_out() {
    let mut fa = FrameAllocator::new(2, 3);
    assert!(fa.frame_alloc().is_some());
    assert!(fa.frame_alloc().is_none());
}

#[test]
fn allocated_frames_are_zeroed() {
    let mut fa = FrameAllocator::new(1, 4);
    assert!(fa.write_bytes(4096, &[7, 7, 7]));
    let f = fa.frame_alloc().unwrap();
    assert_eq!(f.ppn.0, 1);
    assert_eq!(fa.read_bytes(4096, 3).unwrap(), vec![0, 0, 0]);
}

#[test]
fn map_then_translate_and_unmap() {
    let mut fa = FrameAllocator::new(1, 16);
    let mut pt = PageTable::new(&mut fa).unwrap();
    let vpn = VirtPageNum(0x12345);
    assert!(pt.map(vpn, PhysPageNum(9), PTE_R | PTE_W, &mut fa).is_ok());
    let e = pt.translate(vpn).unwrap();
    assert_eq!(e.ppn, PhysPageNum(9));
    assert_eq!(e.flags & !PTE_V, PTE_R | PTE_W);
    assert!(e.is_valid() && e.readable() && e.writable() && !e.executable());
    assert_eq!(pt.map(vpn, PhysPageNum(10), PTE_R, &mut fa), Err(MapError::VpnAlreadyMapped(vpn)));
    pt.unmap(vpn);
    assert!(pt.translate(vpn).is_none());
}

#[test]
fn map_rejects_bad_flags_and_range() {
    let mut fa = FrameAllocator::new(1, 16);
    let mut pt = PageTable::new(&mut fa).unwrap();
    assert_eq!(pt.map(VirtPageNum(1), PhysPageNum(2), 0, &mut fa), Err(MapError::InvalidPermissionBits(0)));
    assert_eq!(pt.map(VirtPageNum(1), PhysPageNum(2), PTE_W, &mut fa), Err(MapError::InvalidPermissionBits(PTE_W)));
    assert_eq!(pt.map(VirtPageNum(0x800_0000), PhysPageNum(2), PTE_R, &mut fa), Err(MapError::FindPteCreateError));
}

#[test]
fn map_fails_without_table_frames() {
    let mut fa = FrameAllocator::new(1, 2);
    let mut pt = PageTable::new(&mut fa).unwrap();
    assert_eq!(pt.map(VirtPageNum(5), PhysPageNum(0), PTE_R, &mut fa), Err(MapError::FrameAllocationFailed));
    assert!(pt.translate(VirtPageNum(5)).is_none());
}

#[test]
fn token_holds_mode_and_root() {
    let mut fa = FrameAllocator::new(3, 8);
    let pt = PageTable::new(&mut fa).unwrap();
    assert_eq!(pt.token(), 0x8000_0000_0000_0000 | 3);
}

#[test]
fn overlapping_insert_conflicts() {
    let (mut fa, mut ms) = fresh();
    let perm = PTE_R | PTE_W | PTE_U;
    assert_eq!(ms.insert_framed_area(VirtAddr(0x10000), VirtAddr(0x11000), perm, &mut fa), Ok(()));
    assert_eq!(
        ms.insert_framed_area(VirtAddr(0x10800), VirtAddr(0x11800), perm, &mut fa),
        Err(MapError::UnalignedVirtualAddress)
    );
    assert_eq!(
        ms.insert_framed_area(VirtAddr(0x10000), VirtAddr(0x12000), perm, &mut fa),
        Err(MapError::AreaConflict)
    );
    assert_eq!(ms.area_count(), 1);
    let a = ms.area(0);
    assert_eq!((a.start, a.end, a.map_type, a.perm), (VirtPageNum(0x10), VirtPageNum(0x11), MapType::Framed, perm));
}

#[test]
fn insert_checks_permission_and_range() {
    let (mut fa, mut ms) = fresh();
    assert_eq!(
        ms.insert_framed_area(VirtAddr(0x1000), VirtAddr(0x2000), 0, &mut fa),
        Err(MapError::InvalidPermissionBits(0))
    );
    assert_eq!(
        ms.insert_framed_area(VirtAddr(0x1000), VirtAddr(0x2000), PTE_R | 0x20, &mut fa),
        Err(MapError::InvalidPermissionBits(PTE_R | 0x20))
    );
    assert_eq!(
        ms.insert_framed_area(VirtAddr(0x7f_ffff_f000), VirtAddr(0x80_0000_1000), PTE_R, &mut fa),
        Err(MapError::FindPteCreateError)
    );
    assert_eq!(ms.area_count(), 0);
}

#[test]
fn insert_fails_when_frames_run_out() {
    let (mut fa, mut ms) = init(0, 4).unwrap();
    let before = fa.free_frames();
    assert_eq!(
        ms.insert_framed_area(VirtAddr(0x10000), VirtAddr(0x20000), PTE_R | PTE_U, &mut fa),
        Err(MapError::FrameAllocationFailed)
    );
    assert_eq!(ms.area_count(), 0);
    assert!(ms.translate(VirtPageNum(0x10)).is_none());
    assert!(fa.free_frames() <= before);
}

#[test]
fn framed_pages_are_mapped_and_zero() {
    let (mut fa, mut ms) = fresh();
    let perm = PTE_R | PTE_W | PTE_U;
    assert!(ms.insert_framed_area(VirtAddr(0x4000), VirtAddr(0x6000), perm, &mut fa).is_ok());
    let e1 = ms.translate(VirtPageNum(4)).unwrap();
    let e2 = ms.translate(VirtPageNum(5)).unwrap();
    assert_ne!(e1.ppn, e2.ppn);
    assert_eq!(e1.flags, perm | PTE_V);
    assert!(ms.translate(VirtPageNum(6)).is_none());
    let bytes = fa.read_bytes(e1.ppn.0 * 4096, 4096).unwrap();
    assert!(bytes.iter().all(|b| *b == 0));
}

#[test]
fn mmap_rejects_empty_permission() {
    let (mut fa, mut ms) = fresh();
    assert_eq!(map_addr(&mut ms, &mut fa, 0x10000, 0x1000, 0), Err(MapError::InvalidPermissionBits(0)));
    assert_eq!(sys_mmap(&mut ms, &mut fa, 0x10000, 0x1000, 0), -1);
    assert_eq!(sys_mmap(&mut ms, &mut fa, 0x10000, 0x1000, 8), -1);
    assert_eq!(sys_mmap(&mut ms, &mut fa, 0x10001, 0x1000, 1), -1);
    assert_eq!(ms.area_count(), 0);
}

#[test]
fn mmap_rounds_length_up() {
    let (mut fa, mut ms) = fresh();
    assert_eq!(sys_mmap(&mut ms, &mut fa, 0x10000, 0x1001, 3), 0);
    let a = ms.area(0);
    assert_eq!((a.start, a.end), (VirtPageNum(0x10), VirtPageNum(0x12)));
    assert_eq!(a.perm, PTE_R | PTE_W | PTE_U);
    assert_eq!(sys_mmap(&mut ms, &mut fa, 0x11000, 0x1000, 1), -1);
}

#[test]
fn buffer_across_two_pages() {
    let (mut fa, mut ms) = fresh();
    assert_eq!(sys_mmap(&mut ms, &mut fa, 0x10000, 0x2000, 3), 0);
    let spans = translated_byte_buffer(&ms, 0x10fff, 2, true).unwrap();
    assert_eq!(spans.len(), 2);
    assert_eq!(spans[0].len + spans[1].len, 2);
    assert_eq!((spans[0].va, spans[0].len), (0x10fff, 1));
    assert_eq!((spans[1].va, spans[1].len), (0x11000, 1));
    assert!(fa.write_bytes(spans[0].pa, &[0xab]));
    assert!(fa.write_bytes(spans[1].pa, &[0xcd]));
    let p0 = ms.translate(VirtPageNum(0x10)).unwrap().ppn.0;
    let p1 = ms.translate(VirtPageNum(0x11)).unwrap().ppn.0;
    assert_eq!(fa.read_bytes(p0 * 4096 + 0xfff, 1).unwrap(), vec![0xab]);
    assert_eq!(fa.read_bytes(p1 * 4096, 1).unwrap(), vec![0xcd]);
}

#[test]
fn buffer_over_unmapped_page_fails() {
    let (mut fa, mut ms) = fresh();
    assert_eq!(sys_mmap(&mut ms, &mut fa, 0x10000, 0x1000, 1), 0);
    assert!(translated_byte_buffer(&ms, 0x10f00, 0x200, false).is_none());
    assert!(translated_byte_buffer(&ms, 0x10f00, 0x100, true).is_none());
    assert_eq!(translated_byte_buffer(&ms, 0x10f00, 0x100, false).unwrap().len(), 1);
    assert_eq!(translated_byte_buffer(&ms, 0x10f00, 0, false).unwrap().len(), 0);
}

#[test]
fn executable_area_keeps_flags() {
    let (mut fa, mut ms) = fresh();
    assert!(ms.insert_framed_area(VirtAddr(0x1000), VirtAddr(0x2000), PTE_R | PTE_X, &mut fa).is_ok());
    let e = ms.translate(VirtPageNum(1)).unwrap();
    assert!(e.executable() && !e.user());
}

#[test]
fn remove_edge_keeps_rest_with_permissions() {
    let (mut fa, mut ms) = fresh();
    let perm = PTE_R | PTE_W | PTE_U;
    assert!(ms.insert_framed_area(VirtAddr(0x10000), VirtAddr(0x12000), perm, &mut fa).is_ok());
    let before = fa.free_frames();
    assert_eq!(ms.remove_framed_area(VirtAddr(0x10000), VirtAddr(0x11000), &mut fa), Ok(()));
    assert_eq!(fa.free_frames(), before + 1);
    assert_eq!(ms.area_count(), 1);
    let a = ms.area(0);
    assert_eq!((a.start, a.end, a.perm), (VirtPageNum(0x11), VirtPageNum(0x12), perm));
    assert!(ms.translate(VirtPageNum(0x10)).is_none());
    assert!(ms.translate(VirtPageNum(0x11)).is_some());
}

#[test]
fn remove_middle_splits_area() {
    let (mut fa, mut ms) = fresh();
    let perm = PTE_R | PTE_U;
    assert!(ms.insert_framed_area(VirtAddr(0x10000), VirtAddr(0x13000), perm, &mut fa).is_ok());
    assert_eq!(ms.remove_framed_area(VirtAddr(0x11000), VirtAddr(0x12000), &mut fa), Ok(()));
    assert_eq!(ms.area_count(), 2);
    let a = ms.area(0);
    let b = ms.area(1);
    assert_eq!((a.start, a.end, a.perm), (VirtPageNum(0x10), VirtPageNum(0x11), perm));
    assert_eq!((b.start, b.end, b.perm), (VirtPageNum(0x12), VirtPageNum(0x13), perm));
    assert!(ms.translate(VirtPageNum(0x11)).is_none());
    assert!(ms.translate(VirtPageNum(0x12)).is_some());
}

#[test]
fn remove_whole_area_and_failures() {
    let (mut fa, mut ms) = fresh();
    assert!(ms.insert_framed_area(VirtAddr(0x10000), VirtAddr(0x11000), PTE_R | PTE_U, &mut fa).is_ok());
    assert_eq!(ms.remove_framed_area(VirtAddr(0x10800), VirtAddr(0x11000), &mut fa), Err(MapError::UnalignedVirtualAddress));
    assert_eq!(ms.remove_framed_area(VirtAddr(0x10000), VirtAddr(0x12000), &mut fa), Err(MapError::RemoveAreaFailed));
    assert_eq!(ms.remove_framed_area(VirtAddr(0x20000), VirtAddr(0x21000), &mut fa), Err(MapError::RemoveAreaFailed));
    assert_eq!(ms.area_count(), 1);
    assert_eq!(ms.remove_framed_area(VirtAddr(0x10000), VirtAddr(0x11000), &mut fa), Ok(()));
    assert_eq!(ms.area_count(), 0);
    assert!(ms.translate(VirtPageNum(0x10)).is_none());
}

#[test]
fn mmap_then_munmap_round_trip() {
    let (mut fa, mut ms) = fresh();
    assert_eq!(sys_mmap(&mut ms, &mut fa, 0x10000, 0x1000, 3), 0);
    let count = ms.area_count();
    let free = fa.free_frames();
    assert_eq!(sys_mmap(&mut ms, &mut fa, 0x20000, 0x2000, 1), 0);
    assert_eq!(sys_munmap(&mut ms, &mut fa, 0x20000, 0x2000), 0);
    assert_eq!(ms.area_count(), count);
    assert!(ms.translate(VirtPageNum(0x20)).is_none());
    assert!(ms.translate(VirtPageNum(0x21)).is_none());
    assert!(ms.translate(VirtPageNum(0x10)).is_some());
    assert!(fa.free_frames() >= free);
    assert_eq!(sys_munmap(&mut ms, &mut fa, 0x20000, 0x1000), -1);
    assert_eq!(unmap_addr(&mut ms, &mut fa, 0x10001, 0x1000), Err(MapError::UnalignedVirtualAddress));
}

#[test]
fn string_is_read_up_to_nul() {
    let (mut fa, mut ms) = fresh();
    assert_eq!(sys_mmap(&mut ms, &mut fa, 0x10000, 0x2000, 3), 0);
    let spans = translated_byte_buffer(&ms, 0x10ffd, 6, true).unwrap();
    let data = [b'a', b'b', b'c', b'd', 0, b'z'];
    let mut k = 0usize;
    for sp in &spans {
        assert!(fa.write_bytes(sp.pa, &data[k..k + sp.len as usize]));
        k += sp.len as usize;
    }
    assert_eq!(translated_str(&ms, &fa, 0x10ffd).unwrap(), b"abcd".to_vec());
    assert_eq!(translated_str(&ms, &fa, 0x11001).unwrap(), b"".to_vec());
    assert!(translated_str(&ms, &fa, 0x30000).is_none());
}

#[test]
fn kernel_space_maps_its_image_to_itself() {
    let (mut fa, mut ms) = init(4, 16).unwrap();
    assert_eq!(ms.area_count(), 1);
    let a = ms.area(0);
    assert_eq!((a.start, a.end, a.map_type), (VirtPageNum(0), VirtPageNum(4), MapType::Identical));
    let e = ms.translate(VirtPageNum(3)).unwrap();
    assert_eq!(e.ppn, PhysPageNum(3));
    assert!(e.executable() && !e.user());
    assert!(ms.translate(VirtPageNum(4)).is_none());
    assert_eq!(ms.insert_identical_area(VirtAddr(0x3000), VirtAddr(0x5000), PTE_R, &mut fa), Err(MapError::AreaConflict));
    assert_eq!(ms.insert_identical_area(VirtAddr(0x8000), VirtAddr(0x9000), PTE_R | PTE_X, &mut fa), Ok(()));
    assert_eq!(ms.translate(VirtPageNum(8)).unwrap().ppn, PhysPageNum(8));
    assert_eq!(ms.remove_framed_area(VirtAddr(0x8000), VirtAddr(0x9000), &mut fa), Err(MapError::RemoveAreaFailed));
    assert!(init(4, 6).is_none());
}

#[test]
fn munmap_then_mmap_reuses_frames_last_freed_first() {
    let (mut fa, mut ms) = fresh();
    assert_eq!(sys_mmap(&mut ms, &mut fa, 0x10000, 0x2000, 3), 0);
    let p0 = ms.translate(VirtPageNum(0x10)).unwrap().ppn;
    let p1 = ms.translate(VirtPageNum(0x11)).unwrap().ppn;
    assert_eq!(sys_munmap(&mut ms, &mut fa, 0x10000, 0x2000), 0);
    let free = fa.free_frames();
    assert_eq!(sys_mmap(&mut ms, &mut fa, 0x10000, 0x2000, 3), 0);
    assert_eq!(ms.translate(VirtPageNum(0x10)).unwrap().ppn, p1);
    assert_eq!(ms.translate(VirtPageNum(0x11)).unwrap().ppn, p0);
    assert_eq!(fa.free_frames(), free - 2);
}

#[test]
fn mmap_with_tables_present_needs_one_frame_per_page() {
    let (mut fa, mut ms) = init(0, 5).unwrap();
    assert_eq!(sys_mmap(&mut ms, &mut fa, 0x10000, 0x1000, 1), 0);
    assert_eq!(fa.free_frames(), 1);
    assert_eq!(sys_mmap(&mut ms, &mut fa, 0x11000, 0x1000, 1), 0);
    assert_eq!(fa.free_frames(), 0);
    assert_eq!(sys_mmap(&mut ms, &mut fa, 0x12000, 0x1000, 1), -1);
}

#[test]
fn mmap_refuses_write_without_read() {
    let (mut fa, mut ms) = fresh();
    assert_eq!(map_addr(&mut ms, &mut fa, 0x10000, 0x1000, 2), Err(MapError::InvalidPermissionBits(PTE_W | PTE_U)));
    assert_eq!(sys_mmap(&mut ms, &mut fa, 0x10000, 0x1000, 6), -1);
}

#[test]
fn linear_area_maps_with_offset() {
    let (mut fa, mut ms) = fresh();
    assert_eq!(ms.insert_linear_area(VirtAddr(0x7f_ffff_f000), VirtAddr(0x80_0000_0000), 0x7ff_fff0, PTE_R | PTE_X, &mut fa), Ok(()));
    let e = ms.translate(VirtPageNum(0x7ff_ffff)).unwrap();
    assert_eq!(e.ppn, PhysPageNum(0xf));
    assert!(e.executable() && !e.user());
}

#[test]
fn reference_must_stay_in_one_page() {
    let (mut fa, mut ms) = fresh();
    assert_eq!(sys_mmap(&mut ms, &mut fa, 0x10000, 0x2000, 3), 0);
    let p0 = ms.translate(VirtPageNum(0x10)).unwrap().ppn.0;
    assert_eq!(translated_ref(&ms, 0x10ff0, 16, true), Some(p0 * 4096 + 0xff0));
    assert_eq!(translated_ref(&ms, 0x10ff8, 16, true), None);
    assert_eq!(translated_ref(&ms, 0x20000, 4, false), None);
}
