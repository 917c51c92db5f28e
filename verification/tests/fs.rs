use rcore_os::fs::dir::RootDir;
use rcore_os::fs::inode::{open_file, OSInode, OpenFlags, Stat, StatMode, ALL_FLAGS, CREATE, RDONLY, RDWR, TRUNC, WRONLY};
use rcore_os::syscall::fs::{
    alloc_fd, sys_close, sys_fstat, sys_linkat, sys_open, sys_read, sys_unlinkat, sys_write, FileDesc,
};

fn name(s: &str) -> Vec<u8> {
    s.as_bytes().to_vec()
}

fn flags(bits: u32) -> OpenFlags {
    OpenFlags::from_bits(bits).unwrap()
}

fn create(root: &mut RootDir, s: &str) -> OSInode {
    open_file(root, &name(s), flags(CREATE | RDWR)).unwrap()
}

#[test]
fn read_write_of_flags() {
    assert_eq!(flags(RDONLY).read_write(), (true, false));
    assert_eq!(flags(WRONLY).read_write(), (false, true));
    assert_eq!(flags(RDWR).read_write(), (true, true));
    assert_eq!(flags(CREATE | WRONLY).read_write(), (false, true));
    assert_eq!(flags(CREATE).read_write(), (true, true));
    assert_eq!(flags(TRUNC | RDWR).read_write(), (true, true));
}

#[test]
fn flags_from_bits() {
    assert_eq!(OpenFlags::from_bits(ALL_FLAGS).map(|f| f.bits()), Some(1539));
    assert!(OpenFlags::from_bits(4).is_none());
    assert!(OpenFlags::from_bits(1 << 20).is_none());
    assert!(flags(0).is_empty());
    assert!(flags(CREATE | WRONLY).contains(CREATE));
    assert!(!flags(WRONLY).contains(CREATE));
}

#[test]
fn open_missing_without_create_fails() {
    let mut root = RootDir::new();
    assert_eq!(open_file(&mut root, &name("nope"), flags(RDONLY)), None);
    assert_eq!(root.entry_count(), 0);
}

#[test]
fn create_then_find() {
    let mut root = RootDir::new();
    let f = create(&mut root, "a");
    assert_eq!(f, OSInode { readable: true, writable: true, offset: 0, ino: 1 });
    assert_eq!(root.find(&name("a")), Some(1));
    let g = open_file(&mut root, &name("a"), flags(WRONLY)).unwrap();
    assert_eq!(g.ino(), 1);
    assert!(!g.readable());
    assert!(g.writable());
    let h = create(&mut root, "b");
    assert_eq!(h.ino, 2);
    assert_eq!(root.inode_count(), 3);
}

#[test]
fn write_then_read_back() {
    let mut root = RootDir::new();
    let mut w = create(&mut root, "f");
    let n = w.write(&mut root, &vec![vec![1, 2, 3], vec![], vec![4, 5]]);
    assert_eq!(n, 5);
    assert_eq!(w.offset, 5);
    assert_eq!(root.inode(w.ino).size, 5);
    let mut r = open_file(&mut root, &name("f"), flags(RDONLY)).unwrap();
    let mut bufs = vec![vec![0u8; 2], vec![9u8; 4]];
    assert_eq!(r.read(&root, &mut bufs), 5);
    assert_eq!(bufs, vec![vec![1, 2], vec![3, 4, 5, 9]]);
    assert_eq!(r.offset, 5);
    let mut more = vec![vec![7u8; 3]];
    assert_eq!(r.read(&root, &mut more), 0);
    assert_eq!(more, vec![vec![7u8; 3]]);
}

#[test]
fn read_stops_at_empty_piece() {
    let mut root = RootDir::new();
    let mut w = create(&mut root, "f");
    w.write(&mut root, &vec![vec![1, 2, 3, 4]]);
    let mut r = open_file(&mut root, &name("f"), flags(RDONLY)).unwrap();
    let mut bufs = vec![vec![0u8; 1], vec![], vec![0u8; 3]];
    assert_eq!(r.read(&root, &mut bufs), 1);
    assert_eq!(bufs, vec![vec![1], vec![], vec![0, 0, 0]]);
    assert_eq!(r.offset, 1);
}

#[test]
fn write_past_end_fills_zeros() {
    let mut root = RootDir::new();
    let mut w = create(&mut root, "f");
    w.offset = 3;
    w.write(&mut root, &vec![vec![8]]);
    let mut r = open_file(&mut root, &name("f"), flags(RDONLY)).unwrap();
    assert_eq!(r.read_all(&root), vec![0, 0, 0, 8]);
    assert_eq!(r.offset, 4);
    assert_eq!(r.read_all(&root), Vec::<u8>::new());
}

#[test]
fn read_all_reads_rest() {
    let mut root = RootDir::new();
    let mut w = create(&mut root, "big");
    let data: Vec<u8> = (0..1300u32).map(|i| (i % 251) as u8).collect();
    w.write(&mut root, &vec![data.clone()]);
    let mut r = open_file(&mut root, &name("big"), flags(RDONLY)).unwrap();
    r.offset = 100;
    assert_eq!(r.read_all(&root), data[100..].to_vec());
    assert_eq!(r.offset, 1300);
}

#[test]
fn trunc_and_create_empty_existing_file() {
    let mut root = RootDir::new();
    let mut w = create(&mut root, "f");
    w.write(&mut root, &vec![vec![1, 2, 3]]);
    let _ = open_file(&mut root, &name("f"), flags(RDONLY)).unwrap();
    assert_eq!(root.inode(1).size, 3);
    let _ = open_file(&mut root, &name("f"), flags(TRUNC | WRONLY)).unwrap();
    assert_eq!(root.inode(1).size, 0);
    w.write(&mut root, &vec![vec![5]]);
    let _ = create(&mut root, "f");
    assert_eq!(root.inode(1).size, 0);
    assert_eq!(root.inode_count(), 2);
}

#[test]
fn link_and_unlink() {
    let mut root = RootDir::new();
    let mut f = create(&mut root, "a");
    f.write(&mut root, &vec![vec![1, 2]]);
    assert_eq!(sys_linkat(&mut root, &name("a"), &name("b")), 0);
    assert_eq!(root.find(&name("b")), Some(1));
    assert_eq!(root.inode(1).nlink, 2);
    assert_eq!(sys_unlinkat(&mut root, &name("a")), 0);
    assert_eq!(root.find(&name("a")), None);
    assert_eq!(root.find(&name("b")), Some(1));
    assert_eq!(root.inode(1).nlink, 1);
    assert_eq!(root.inode(1).size, 2);
    assert_eq!(sys_unlinkat(&mut root, &name("b")), 0);
    assert_eq!(root.inode(1).nlink, 0);
    assert_eq!(root.inode(1).size, 0);
    assert_eq!(root.entry_count(), 0);
}

#[test]
fn link_errors() {
    let mut root = RootDir::new();
    create(&mut root, "a");
    create(&mut root, "c");
    assert_eq!(sys_linkat(&mut root, &name("a"), &name("a")), -1);
    assert_eq!(sys_linkat(&mut root, &name("x"), &name("y")), -1);
    assert_eq!(sys_linkat(&mut root, &name("a"), &name("c")), -1);
    assert_eq!(root.entry_count(), 2);
    assert_eq!(root.inode(1).nlink, 1);
    assert_eq!(sys_unlinkat(&mut root, &name("zz")), -1);
}

#[test]
fn unlink_undoes_link() {
    let mut root = RootDir::new();
    create(&mut root, "a");
    create(&mut root, "b");
    let before: Vec<_> = (0..root.inode_count() as u32).map(|i| root.inode(i)).collect();
    assert_eq!(sys_linkat(&mut root, &name("b"), &name("c")), 0);
    assert_eq!(sys_unlinkat(&mut root, &name("c")), 0);
    let after: Vec<_> = (0..root.inode_count() as u32).map(|i| root.inode(i)).collect();
    assert_eq!(before, after);
    assert_eq!(root.entry_count(), 2);
    assert_eq!(root.find(&name("a")), Some(1));
    assert_eq!(root.find(&name("b")), Some(2));
}

#[test]
fn unlink_moves_last_entry_into_the_hole() {
    let mut root = RootDir::new();
    create(&mut root, "a");
    create(&mut root, "b");
    create(&mut root, "c");
    assert_eq!(sys_unlinkat(&mut root, &name("a")), 0);
    assert_eq!(root.find_index(&name("c")), Some(0));
    assert_eq!(root.find_index(&name("b")), Some(1));
}

#[test]
fn fd_allocation_and_close() {
    let mut root = RootDir::new();
    let mut table: Vec<Option<FileDesc>> = vec![
        Some(FileDesc { readable: true, writable: false, inode: None }),
        Some(FileDesc { readable: false, writable: true, inode: None }),
    ];
    assert_eq!(sys_open(&mut root, &mut table, &name("f"), RDONLY), -1);
    assert_eq!(sys_open(&mut root, &mut table, &name("f"), CREATE | WRONLY), 2);
    assert_eq!(table[2], Some(FileDesc { readable: false, writable: true, inode: Some(1) }));
    assert_eq!(sys_open(&mut root, &mut table, &name("f"), RDONLY), 3);
    assert_eq!(sys_close(&mut table, 2), 0);
    assert_eq!(table[2], None);
    assert_eq!(sys_close(&mut table, 2), -1);
    assert_eq!(sys_close(&mut table, 9), -1);
    assert_eq!(alloc_fd(&mut table), 2);
    assert_eq!(table.len(), 4);
    assert_eq!(sys_open(&mut root, &mut table, &name("f"), RDWR), 2);
    assert_eq!(alloc_fd(&mut table), 4);
    assert_eq!(table.len(), 5);
}

#[test]
fn read_and_write_checks() {
    let table: Vec<Option<FileDesc>> = vec![
        Some(FileDesc { readable: true, writable: false, inode: None }),
        Some(FileDesc { readable: false, writable: true, inode: None }),
        None,
    ];
    assert_eq!(sys_read(&table, 0, |_f: FileDesc| 7usize), 7);
    assert_eq!(sys_read(&table, 1, |_f: FileDesc| 7usize), -1);
    assert_eq!(sys_read(&table, 2, |_f: FileDesc| 7usize), -1);
    assert_eq!(sys_read(&table, 3, |_f: FileDesc| 7usize), -1);
    assert_eq!(sys_write(&table, 1, |f: FileDesc| if f.writable { 3usize } else { 0 }), 3);
    assert_eq!(sys_write(&table, 0, |_f: FileDesc| 3usize), -1);
    assert_eq!(sys_write(&table, 2, |_f: FileDesc| 3usize), -1);
}

#[test]
fn fstat_reports() {
    let mut root = RootDir::new();
    let mut table: Vec<Option<FileDesc>> = vec![Some(FileDesc { readable: true, writable: false, inode: None })];
    assert_eq!(sys_open(&mut root, &mut table, &name("f"), CREATE | RDWR), 1);
    assert_eq!(sys_linkat(&mut root, &name("f"), &name("g")), 0);
    assert_eq!(sys_fstat(&table, &root, 1), (0, Some(Stat { dev: 0, ino: 1, mode: StatMode::File, nlink: 2 })));
    assert_eq!(sys_fstat(&table, &root, 0), (0, None));
    assert_eq!(sys_fstat(&table, &root, 5), (-1, None));
    table.push(Some(FileDesc { readable: true, writable: false, inode: Some(0) }));
    assert_eq!(sys_fstat(&table, &root, 2), (0, Some(Stat { dev: 0, ino: 0, mode: StatMode::Dir, nlink: 1 })));
    assert_eq!(sys_close(&mut table, 1), 0);
    assert_eq!(sys_fstat(&table, &root, 1), (-1, None));
}
