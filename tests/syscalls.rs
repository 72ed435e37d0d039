use kernel_mm::frame_allocator::FrameAllocator;
use kernel_mm::translate::translated_byte_buffer;
use kernel_mm::memory_set::MemorySet;
use kernel_mm::syscall::{
    init, sys_close, sys_condvar_create, sys_condvar_signal, sys_condvar_wait, sys_enable_deadlock_detect,
    sys_mmap, sys_mutex_create, sys_read, sys_sbrk, sys_semaphore_create, sys_sleep, sys_write, sys_yield,
    OpenFile, Process, install_fd, sys_fstat, sys_get_time, sys_linkat, sys_open, sys_task_info, sys_unlinkat,
    time_val,
};

fn process() -> Process {
    Process {
        fd_table: vec![
            Some(OpenFile { readable: true, writable: false }),
            Some(OpenFile { readable: false, writable: true }),
            None,
        ],
        mutex_list: Vec::new(),
        semaphore_list: Vec::new(),
        condvar_list: Vec::new(),
        enable_deadlock_detect: false,
        syscall_times: vec![0; 500],
        mutex_available: Vec::new(),
        semaphore_available: Vec::new(),
        heap_bottom: 0x8000,
        program_brk: 0x9000,
    }
}

fn space() -> (FrameAllocator, MemorySet) {
    init(0, 64).unwrap()
}

#[test]
fn close_empties_slot_once() {
    let mut p = process();
    assert_eq!(sys_close(&mut p, 0), 0);
    assert!(p.fd_table[0].is_none());
    assert_eq!(sys_close(&mut p, 0), -1);
    assert_eq!(sys_close(&mut p, 2), -1);
    assert_eq!(sys_close(&mut p, 7), -1);
    assert_eq!(p.syscall_times[57], 4);
}

#[test]
fn write_and_read_check_file_and_buffer() {
    let mut p = process();
    let (mut fa, mut ms) = space();
    assert_eq!(sys_mmap(&mut ms, &mut fa, 0x10000, 0x1000, 1), 0);
    assert_eq!(sys_write(&mut p, &ms, 1, 0x10010, 16).unwrap().len(), 1);
    assert_eq!(sys_write(&mut p, &ms, 0, 0x10010, 16).unwrap_err(), -1);
    assert_eq!(sys_write(&mut p, &ms, 1, 0x20000, 16).unwrap_err(), -1);
    assert_eq!(sys_read(&mut p, &ms, 0, 0x10010, 16).unwrap_err(), -1);
    assert_eq!(sys_read(&mut p, &ms, 5, 0x10010, 16).unwrap_err(), -1);
    assert_eq!(sys_mmap(&mut ms, &mut fa, 0x20000, 0x1000, 3), 0);
    assert_eq!(sys_read(&mut p, &ms, 0, 0x20000, 16).unwrap()[0].len, 16);
    assert_eq!(p.syscall_times[64], 3);
    assert_eq!(p.syscall_times[63], 3);
}

#[test]
fn mutex_ids_reuse_free_slots() {
    let mut p = process();
    assert_eq!(sys_mutex_create(&mut p, false), 0);
    assert_eq!(sys_mutex_create(&mut p, true), 1);
    p.mutex_list[0] = None;
    assert_eq!(sys_mutex_create(&mut p, true), 0);
    assert_eq!(p.mutex_list, vec![Some(true), Some(true)]);
    assert_eq!(p.mutex_available, vec![1, 1]);
}

#[test]
fn semaphore_and_condvar_ids() {
    let mut p = process();
    assert_eq!(sys_semaphore_create(&mut p, 3), 0);
    assert_eq!(sys_semaphore_create(&mut p, 1), 1);
    assert_eq!(p.semaphore_list, vec![Some(3), Some(1)]);
    assert_eq!(p.semaphore_available, vec![3, 1]);
    assert_eq!(sys_condvar_create(&mut p), 0);
    assert_eq!(sys_condvar_create(&mut p), 1);
    p.condvar_list[0] = false;
    assert_eq!(sys_condvar_create(&mut p), 0);
    assert_eq!(sys_mutex_create(&mut p, false), 0);
    assert_eq!(sys_condvar_signal(&p, 1), 0);
    assert_eq!(sys_condvar_wait(&p, 1, 0), 0);
}

#[test]
fn deadlock_detect_flag() {
    let mut p = process();
    assert_eq!(sys_enable_deadlock_detect(&mut p, 1), 0);
    assert!(p.enable_deadlock_detect);
    assert_eq!(sys_enable_deadlock_detect(&mut p, 0), 0);
    assert!(!p.enable_deadlock_detect);
}

#[test]
fn sbrk_moves_heap_end() {
    let mut p = process();
    assert_eq!(sys_sbrk(&mut p, 0x100), 0x9000);
    assert_eq!(p.program_brk, 0x9100);
    assert_eq!(sys_sbrk(&mut p, -0x1100), 0x9100);
    assert_eq!(p.program_brk, 0x8000);
    assert_eq!(sys_sbrk(&mut p, -1), -1);
    assert_eq!(p.program_brk, 0x8000);
}

#[test]
fn sleep_and_yield() {
    assert_eq!(sys_sleep(100, 50), 150);
    assert_eq!(sys_sleep(u64::MAX - 1, 5), u64::MAX);
    let mut p = process();
    assert_eq!(sys_yield(&mut p), 0);
    assert_eq!(p.syscall_times[124], 1);
}

#[test]
fn init_needs_a_frame() {
    assert!(init(4, 4).is_none());
    let (fa, ms) = init(0, 2).unwrap();
    assert_eq!(fa.free_frames(), 1);
    assert_eq!(ms.area_count(), 0);
    assert_eq!(ms.token(), 0x8000_0000_0000_0000);
}

#[test]
fn time_val_splits_microseconds() {
    let t = time_val(3_000_250);
    assert_eq!((t.sec, t.usec), (3, 250));
}

#[test]
fn time_is_written_across_pages() {
    let mut p = process();
    let (mut fa, mut ms) = space();
    assert_eq!(sys_mmap(&mut ms, &mut fa, 0x10000, 0x2000, 3), 0);
    assert_eq!(sys_get_time(&mut p, &ms, &mut fa, 0x10ff8, 1_500_000), 0);
    let spans = translated_byte_buffer(&ms, 0x10ff8, 16, false).unwrap();
    assert_eq!(spans.len(), 2);
    let mut bytes = fa.read_bytes(spans[0].pa, spans[0].len).unwrap();
    bytes.extend(fa.read_bytes(spans[1].pa, spans[1].len).unwrap());
    let mut want = 1u64.to_le_bytes().to_vec();
    want.extend(500_000u64.to_le_bytes());
    assert_eq!(bytes, want);
    assert_eq!(p.syscall_times[169], 1);
    assert_eq!(sys_get_time(&mut p, &ms, &mut fa, 0x30000, 1), -1);
}

#[test]
fn task_info_holds_counters() {
    let mut p = process();
    let (mut fa, mut ms) = space();
    assert_eq!(sys_mmap(&mut ms, &mut fa, 0x10000, 0x2000, 3), 0);
    p.syscall_times[64] = 7;
    assert_eq!(sys_task_info(&mut p, &ms, &mut fa, 0x10c00, 3, 99), 0);
    let spans = translated_byte_buffer(&ms, 0x10c00, 2016, false).unwrap();
    let mut bytes = fa.read_bytes(spans[0].pa, spans[0].len).unwrap();
    bytes.extend(fa.read_bytes(spans[1].pa, spans[1].len).unwrap());
    assert_eq!(bytes.len(), 2016);
    assert_eq!(&bytes[0..4], &3u32.to_le_bytes());
    assert_eq!(&bytes[4 + 64 * 4..8 + 64 * 4], &7u32.to_le_bytes());
    assert_eq!(&bytes[4 + 410 * 4..8 + 410 * 4], &1u32.to_le_bytes());
    assert_eq!(&bytes[2008..2016], &99u64.to_le_bytes());
    assert_eq!(sys_task_info(&mut p, &ms, &mut fa, 0x11c00, 3, 99), -1);
}

#[test]
fn fstat_writes_record() {
    let mut p = process();
    let (mut fa, mut ms) = space();
    assert_eq!(sys_mmap(&mut ms, &mut fa, 0x10000, 0x1000, 3), 0);
    let stat: Vec<u8> = (0..80).map(|i| i as u8).collect();
    assert_eq!(sys_fstat(&mut p, &ms, &mut fa, 0, 0x10100, &stat), 0);
    let pa = translated_byte_buffer(&ms, 0x10100, 80, false).unwrap()[0].pa;
    assert_eq!(fa.read_bytes(pa, 80).unwrap(), stat);
    assert_eq!(sys_fstat(&mut p, &ms, &mut fa, 2, 0x10100, &stat), -1);
    assert_eq!(sys_fstat(&mut p, &ms, &mut fa, 0, 0x10fc0, &stat), -1);
    assert_eq!(p.syscall_times[80], 3);
}

#[test]
fn paths_are_read_from_user_memory() {
    let mut p = process();
    let (mut fa, mut ms) = space();
    assert_eq!(sys_mmap(&mut ms, &mut fa, 0x10000, 0x1000, 3), 0);
    let sp = translated_byte_buffer(&ms, 0x10000, 6, true).unwrap();
    assert!(fa.write_bytes(sp[0].pa, b"ab\0cd\0"));
    assert_eq!(sys_open(&mut p, &ms, &fa, 0x10000).unwrap(), b"ab".to_vec());
    assert_eq!(sys_unlinkat(&mut p, &ms, &fa, 0x10003).unwrap(), b"cd".to_vec());
    let (a, b) = sys_linkat(&mut p, &ms, &fa, 0x10000, 0x10003).unwrap();
    assert_eq!((a, b), (b"ab".to_vec(), b"cd".to_vec()));
    assert_eq!(sys_open(&mut p, &ms, &fa, 0x40000).unwrap_err(), -1);
    assert_eq!((p.syscall_times[56], p.syscall_times[35], p.syscall_times[37]), (2, 1, 1));
    assert_eq!(install_fd(&mut p, OpenFile { readable: true, writable: true }), 2);
    assert_eq!(install_fd(&mut p, OpenFile { readable: true, writable: false }), 3);
}
