use rcore_os::syscall::{
    mmap_area, munmap_range, sys_get_time, sys_mmap, sys_munmap, sys_sbrk, sys_trace, sys_yield, PteFlags, TimeVal,
    PAGE_SIZE,
};

fn flags(valid: bool, user: bool, readable: bool, writable: bool) -> Option<PteFlags> {
    Some(PteFlags { valid, user, readable, writable })
}

#[test]
fn yield_answers_zero() {
    assert_eq!(sys_yield(), 0);
}

#[test]
fn timeval_splits_microseconds() {
    let tv = TimeVal::from_us(3_500_042);
    assert_eq!(tv.sec, 3);
    assert_eq!(tv.usec, 500_042);
    let tv = TimeVal::from_us(999_999);
    assert_eq!(tv.sec, 0);
    assert_eq!(tv.usec, 999_999);
}

#[test]
fn timeval_bytes_are_sec_then_usec() {
    let w = std::mem::size_of::<usize>();
    let bytes = TimeVal { sec: 0x0102, usec: 0x03 }.to_bytes();
    let mut expected = vec![0u8; 2 * w];
    expected[0] = 0x02;
    expected[1] = 0x01;
    expected[w] = 0x03;
    assert_eq!(bytes, expected);
}

#[test]
fn get_time_writes_across_split_buffers() {
    let w = std::mem::size_of::<usize>();
    let mut buffers = vec![vec![0xffu8; 3], vec![0xffu8; 2 * w - 3]];
    assert_eq!(sys_get_time(2_000_300, &mut buffers), 0);
    let flat: Vec<u8> = buffers.concat();
    let mut expected = Vec::new();
    expected.extend_from_slice(&2usize.to_le_bytes());
    expected.extend_from_slice(&300usize.to_le_bytes());
    assert_eq!(flat, expected);
    assert_eq!(buffers[0].len(), 3);
}

#[test]
fn trace_reads_a_readable_user_byte() {
    let out = sys_trace(0, 0, flags(true, true, true, false), 42, 0);
    assert_eq!(out.ret, 42);
    assert_eq!(out.store, None);
}

#[test]
fn trace_read_refused_without_rights() {
    assert_eq!(sys_trace(0, 0, flags(true, true, false, true), 42, 0).ret, -1);
    assert_eq!(sys_trace(0, 0, flags(true, false, true, true), 42, 0).ret, -1);
    assert_eq!(sys_trace(0, 0, flags(false, true, true, true), 42, 0).ret, -1);
    assert_eq!(sys_trace(0, 0, None, 42, 0).ret, -1);
}

#[test]
fn trace_writes_the_low_byte_of_data() {
    let out = sys_trace(1, 0x1234, flags(true, true, false, true), 0, 0);
    assert_eq!(out.ret, 0);
    assert_eq!(out.store, Some(0x34));
    let out = sys_trace(1, 7, flags(true, true, true, false), 0, 0);
    assert_eq!(out.ret, -1);
    assert_eq!(out.store, None);
    assert_eq!(sys_trace(1, 7, None, 0, 0).store, None);
}

#[test]
fn trace_counts_syscalls_and_refuses_others() {
    assert_eq!(sys_trace(2, 0, None, 0, 17).ret, 17);
    assert_eq!(sys_trace(3, 0, flags(true, true, true, true), 5, 17).ret, -1);
}

#[test]
fn mmap_checks_alignment_and_prot() {
    assert!(mmap_area(PAGE_SIZE + 1, 4096, 3).is_none());
    assert!(mmap_area(0, 4096, 0).is_none());
    assert!(mmap_area(0, 4096, 8).is_none());
    assert!(mmap_area(0, 4096, 0x13).is_none());
    // write without read
    assert!(mmap_area(0, 4096, 2).is_none());
    assert!(mmap_area(0, 4096, 6).is_none());
}

#[test]
fn mmap_maps_with_the_rights_asked() {
    let a = mmap_area(0x10000000, 8192, 3).unwrap();
    assert_eq!(a.start, 0x10000000);
    assert_eq!(a.end, 0x10002000);
    assert!(a.permission.readable && a.permission.writable && !a.permission.executable);
    assert!(a.permission.user);
    let a = mmap_area(PAGE_SIZE, 1, 5).unwrap();
    assert!(a.permission.readable && !a.permission.writable && a.permission.executable);
    assert_eq!(a.end, PAGE_SIZE + 1);
    let a = mmap_area(0, 0, 1).unwrap();
    assert_eq!((a.start, a.end), (0, 0));
}

#[test]
fn munmap_checks_alignment() {
    assert_eq!(munmap_range(3, 4096), None);
    assert_eq!(munmap_range(2 * PAGE_SIZE, 4096), Some((2 * PAGE_SIZE, 3 * PAGE_SIZE)));
}

#[test]
fn mmap_answers_from_the_mapping() {
    let mut seen = None;
    assert_eq!(
        sys_mmap(PAGE_SIZE, 100, 3, |s, e, p| {
            seen = Some((s, e, p.readable, p.writable, p.executable, p.user));
            true
        }),
        0
    );
    assert_eq!(seen, Some((PAGE_SIZE, PAGE_SIZE + 100, true, true, false, true)));
    assert_eq!(sys_mmap(0, 4096, 1, |_, _, _| false), -1);
    assert_eq!(sys_mmap(1, 4096, 1, |_, _, _| panic!("refused calls map nothing")), -1);
    assert_eq!(sys_mmap(0, 4096, 2, |_, _, _| panic!("refused calls map nothing")), -1);
}

#[test]
fn munmap_answers_from_the_unmapping() {
    let mut seen = None;
    assert_eq!(
        sys_munmap(0, 8192, |s, e| {
            seen = Some((s, e));
            true
        }),
        0
    );
    assert_eq!(seen, Some((0, 8192)));
    assert_eq!(sys_munmap(0, 8192, |_, _| false), -1);
    assert_eq!(sys_munmap(5, 8192, |_, _| panic!("refused calls unmap nothing")), -1);
}

#[test]
fn sbrk_answers_the_old_break() {
    assert_eq!(sys_sbrk(Some(0x8000)), 0x8000);
    assert_eq!(sys_sbrk(None), -1);
}
