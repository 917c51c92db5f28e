use rcore_os::fs::dir::RootDir;
use rcore_os::fs::inode::{open_file, OSInode, OpenFlags, CREATE, RDWR};
use rcore_os::mm::{MemorySet, PageTableEntry, PAGE_SIZE};
use rcore_os::syscall::process::{
    sys_exec, sys_fork, sys_get_time, sys_getpid, sys_mmap, sys_munmap, sys_sbrk, sys_spawn, sys_waitpid,
    write_user_data, ChildInfo, TimeVal,
};
use rcore_os::task::manager::{ReadyTask, TaskManager};

#[test]
fn time_val_from_microseconds() {
    assert_eq!(TimeVal::from_us(3_500_000), TimeVal { sec: 3, usec: 500_000 });
    assert_eq!(TimeVal::from_us(999_999), TimeVal { sec: 0, usec: 999_999 });
    assert_eq!(TimeVal::from_us(0), TimeVal { sec: 0, usec: 0 });
}

#[test]
fn time_val_bytes() {
    let tv = TimeVal { sec: 0x0102, usec: 0x030405 };
    assert_eq!(
        tv.to_bytes(),
        vec![0x02, 0x01, 0, 0, 0, 0, 0, 0, 0x05, 0x04, 0x03, 0, 0, 0, 0, 0]
    );
}

#[test]
fn write_user_data_across_pieces() {
    let mut bufs = vec![vec![0u8; 3], vec![0u8; 5]];
    assert_eq!(write_user_data(&mut bufs, &vec![1, 2, 3, 4, 5, 6]), Ok(()));
    assert_eq!(bufs, vec![vec![1, 2, 3], vec![4, 5, 6, 0, 0]]);
}

#[test]
fn write_user_data_too_small() {
    let mut bufs = vec![vec![9u8; 2], vec![9u8; 1]];
    assert_eq!(write_user_data(&mut bufs, &vec![1, 2, 3, 4]), Err(()));
    assert_eq!(bufs, vec![vec![1, 2], vec![3]]);
}

#[test]
fn write_user_data_without_pieces() {
    let mut bufs: Vec<Vec<u8>> = Vec::new();
    assert_eq!(write_user_data(&mut bufs, &vec![]), Err(()));
    let mut one = vec![vec![4u8; 2]];
    assert_eq!(write_user_data(&mut one, &vec![]), Ok(()));
    assert_eq!(one, vec![vec![4u8; 2]]);
}

#[test]
fn get_time_writes_time_val() {
    let mut bufs = vec![vec![0u8; 10], vec![0u8; 6]];
    assert_eq!(sys_get_time(2_000_007, &mut bufs), 0);
    let mut all = bufs[0].clone();
    all.extend_from_slice(&bufs[1]);
    assert_eq!(all, TimeVal { sec: 2, usec: 7 }.to_bytes());
    let mut short = vec![vec![0u8; 8]];
    assert_eq!(sys_get_time(1, &mut short), -1);
}

fn child(pid: usize, zombie: bool, exit_code: i32) -> ChildInfo {
    ChildInfo { pid, zombie, exit_code }
}

#[test]
fn waitpid_no_such_child() {
    let mut children = vec![child(3, true, 1)];
    assert_eq!(sys_waitpid(&mut children, 4), (-1, None));
    let mut none: Vec<ChildInfo> = Vec::new();
    assert_eq!(sys_waitpid(&mut none, -1), (-1, None));
    assert_eq!(children.len(), 1);
}

#[test]
fn waitpid_child_still_running() {
    let mut children = vec![child(3, false, 0), child(4, false, 0)];
    assert_eq!(sys_waitpid(&mut children, 4), (-2, None));
    assert_eq!(sys_waitpid(&mut children, -1), (-2, None));
    assert_eq!(children.len(), 2);
}

#[test]
fn waitpid_reaps_first_exited() {
    let mut children = vec![child(3, false, 0), child(4, true, 7), child(5, true, 9)];
    assert_eq!(sys_waitpid(&mut children, -1), (4, Some(7)));
    assert_eq!(children, vec![child(3, false, 0), child(5, true, 9)]);
    assert_eq!(sys_waitpid(&mut children, 5), (5, Some(9)));
    assert_eq!(children, vec![child(3, false, 0)]);
    assert_eq!(sys_waitpid(&mut children, 5), (-1, None));
}

#[test]
fn waitpid_reaps_the_matching_pid_only() {
    let mut children = vec![child(3, true, 1), child(4, true, 2)];
    assert_eq!(sys_waitpid(&mut children, 4), (4, Some(2)));
    assert_eq!(children, vec![child(3, true, 1)]);
}

#[test]
fn mmap_maps_pages() {
    let mut ms = MemorySet::new();
    let frames = vec![100, 101, 102];
    assert_eq!(sys_mmap(&mut ms, &frames, 0x10000, PAGE_SIZE + 1, 3), 0);
    assert_eq!(ms.translate(0x10), Some(PageTableEntry { ppn: 100, flags: 1 | 16 | 2 | 4 }));
    assert_eq!(ms.translate(0x11), Some(PageTableEntry { ppn: 101, flags: 1 | 16 | 2 | 4 }));
    assert_eq!(ms.translate(0x12), None);
}

#[test]
fn mmap_flags() {
    let mut ms = MemorySet::new();
    assert_eq!(sys_mmap(&mut ms, &vec![5], 0, 1, 4), 0);
    assert_eq!(ms.translate(0), Some(PageTableEntry { ppn: 5, flags: 1 | 16 | 8 }));
    assert_eq!(sys_mmap(&mut ms, &vec![6], PAGE_SIZE, PAGE_SIZE, 7), 0);
    assert_eq!(ms.translate(1), Some(PageTableEntry { ppn: 6, flags: 1 | 16 | 2 | 4 | 8 }));
}

#[test]
fn mmap_errors() {
    let mut ms = MemorySet::new();
    let frames = vec![1, 2, 3, 4];
    assert_eq!(sys_mmap(&mut ms, &frames, 0x10001, 10, 1), -1);
    assert_eq!(sys_mmap(&mut ms, &frames, 0x10000, 10, 0), -1);
    assert_eq!(sys_mmap(&mut ms, &frames, 0x10000, 10, 8), -1);
    assert_eq!(sys_mmap(&mut ms, &frames, 0x10000, 5 * PAGE_SIZE, 1), -1);
    assert_eq!(ms.translate(0x10), None);
    assert_eq!(sys_mmap(&mut ms, &frames, 0x10000, 0, 1), 0);
    assert_eq!(ms.translate(0x10), None);
    assert_eq!(sys_mmap(&mut ms, &frames, 0x10000, PAGE_SIZE, 1), 0);
    assert_eq!(sys_mmap(&mut ms, &frames, 0xf000, 2 * PAGE_SIZE, 1), -1);
    assert_eq!(ms.translate(0xf), None);
}

#[test]
fn munmap_after_mmap() {
    let mut ms = MemorySet::new();
    let frames = vec![10, 11];
    assert_eq!(sys_mmap(&mut ms, &frames, 0x20000, 2 * PAGE_SIZE, 2), 0);
    assert_eq!(sys_munmap(&mut ms, 0x20000, 3 * PAGE_SIZE), -1);
    assert_eq!(ms.translate(0x21).map(|p| p.ppn), Some(11));
    assert_eq!(sys_munmap(&mut ms, 0x20001, PAGE_SIZE), -1);
    assert_eq!(sys_munmap(&mut ms, 0x21000, PAGE_SIZE), 0);
    assert_eq!(ms.translate(0x21), None);
    assert_eq!(ms.translate(0x20).map(|p| p.ppn), Some(10));
    assert_eq!(sys_munmap(&mut ms, 0x20000, 1), 0);
    assert_eq!(ms.translate(0x20), None);
}

#[test]
fn munmap_empty_range() {
    let mut ms = MemorySet::new();
    assert_eq!(sys_munmap(&mut ms, 0x3000, 0), 0);
}

fn ready(pid: usize) -> ReadyTask {
    ReadyTask { pid, stride: 0, pass: 6, prio: 16 }
}

#[test]
fn fork_sets_child_result_and_schedules() {
    let mut m = TaskManager::new();
    let mut regs = [7usize; 32];
    assert_eq!(sys_fork(&mut m, ready(9), &mut regs), 9);
    assert_eq!(regs[10], 0);
    assert_eq!(regs[11], 7);
    assert_eq!(m.fetch().map(|t| t.pid), Some(9));
}

#[test]
fn spawn_records_child() {
    let mut m = TaskManager::new();
    let mut children = vec![child(2, true, 0)];
    let mut parent = None;
    assert_eq!(sys_spawn(&mut children, &mut m, 1, ready(5), &mut parent), 5);
    assert_eq!(children, vec![child(2, true, 0), child(5, false, 0)]);
    assert_eq!(parent, Some(1));
    assert_eq!(m.fetch().map(|t| t.pid), Some(5));
}

#[test]
fn exec_only_existing_files() {
    let mut root = RootDir::new();
    open_file(&mut root, &b"app".to_vec(), OpenFlags::from_bits(CREATE | RDWR).unwrap()).unwrap();
    let mut seen = None;
    assert_eq!(sys_exec(&mut root, &b"app".to_vec(), |f: OSInode| seen = Some(f)), 0);
    assert_eq!(seen, Some(OSInode { readable: true, writable: false, offset: 0, ino: 1 }));
    let mut called = false;
    assert_eq!(sys_exec(&mut root, &b"missing".to_vec(), |_f: OSInode| called = true), -1);
    assert!(!called);
}

#[test]
fn sbrk_and_getpid() {
    assert_eq!(sys_sbrk(16, |_s: i32| Some(0x8000usize)), 0x8000);
    assert_eq!(sys_sbrk(-16, |_s: i32| None), -1);
    assert_eq!(sys_getpid(42), 42);
}
