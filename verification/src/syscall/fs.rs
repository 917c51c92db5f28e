//! File and file-system related system calls.
use vstd::prelude::*;
use crate::fs::inode::{open_file, inode_stat, opened, opened_ino, stat_of, OpenFlags, Stat, ALL_FLAGS, CREATE};
use crate::fs::dir::{
    count_links, has_name, index_of_name, lemma_count_links_le_len, lemma_count_links_pos,
    lemma_count_links_push, lemma_count_links_swap_removed, lookup, name_eq, names_unique,
    swap_removed, DiskInodeInfo, EntryView, RootDir, RootView,
};

verus! {

/// The entries after an entry called `name` for inode `ino` is added.
pub open spec fn linked(v: RootView, name: Seq<u8>, ino: nat) -> RootView {
    RootView {
        entries: v.entries.push(EntryView { name, ino }),
        inodes: v.inodes.update(ino as int, DiskInodeInfo { nlink: (v.inodes[ino as int].nlink + 1) as u32, ..v.inodes[ino as int] }),
        contents: v.contents,
    }
}

/// The entries after the entry at `i` is removed; its inode loses a link,
/// and its data when that was the last one.
pub open spec fn unlinked(v: RootView, i: int) -> RootView {
    let ino = v.entries[i].ino as int;
    let info = v.inodes[ino];
    let n = (info.nlink - 1) as u32;
    RootView {
        entries: swap_removed(v.entries, i),
        inodes: v.inodes.update(ino, DiskInodeInfo { nlink: n, is_dir: info.is_dir, size: if n == 0 { 0 } else { info.size } }),
        contents: if n == 0 { v.contents.update(ino, Seq::<u8>::empty()) } else { v.contents },
    }
}

proof fn lemma_swap_removed_keeps(entries: Seq<EntryView>, i: int, p: int)
    requires
        0 <= i < entries.len(),
        0 <= p < entries.len() - 1,
    ensures
        swap_removed(entries, i)[p] == (if p == i { entries[entries.len() - 1] } else { entries[p] }),
        swap_removed(entries, i).len() == entries.len() - 1,
{
}

proof fn lemma_swap_removed_unique(entries: Seq<EntryView>, i: int)
    requires
        0 <= i < entries.len(),
        names_unique(entries),
    ensures
        names_unique(swap_removed(entries, i)),
        !has_name(swap_removed(entries, i), entries[i].name),
{
    let s = swap_removed(entries, i);
    let last = entries.len() - 1;
    assert forall|p: int, q: int| 0 <= p < s.len() && 0 <= q < s.len() && p != q implies #[trigger] s[p].name != #[trigger] s[q].name by {
        lemma_swap_removed_keeps(entries, i, p);
        lemma_swap_removed_keeps(entries, i, q);
        let fp = if p == i { last } else { p };
        let fq = if q == i { last } else { q };
        assert(s[p] == entries[fp]);
        assert(s[q] == entries[fq]);
        assert(fp != fq);
    }
    if has_name(s, entries[i].name) {
        let p = choose|p: int| 0 <= p < s.len() && #[trigger] s[p].name == entries[i].name;
        lemma_swap_removed_keeps(entries, i, p);
        let fp = if p == i { last } else { p };
        assert(s[p] == entries[fp]);
        assert(fp != i);
    }
}

proof fn lemma_lookup_at(entries: Seq<EntryView>, i: int)
    requires
        0 <= i < entries.len(),
        names_unique(entries),
    ensures
        has_name(entries, entries[i].name),
        index_of_name(entries, entries[i].name) == i,
        lookup(entries, entries[i].name) == Some(entries[i].ino),
{
    let name = entries[i].name;
    assert(entries[i].name == name);
    let j = index_of_name(entries, name);
    assert(entries[j].name == name);
}

/// Links `new_name` to the file called `old_name`: a second entry for the
/// same inode, whose link count grows by one. Fails with -1 when the names
/// are equal, when `old_name` does not exist, or when `new_name` does.
pub fn sys_linkat(root: &mut RootDir, old_name: &Vec<u8>, new_name: &Vec<u8>) -> (r: isize)
    requires
        old(root).wf(),
        old(root)@.entries.len() < u32::MAX,
    ensures
        final(root).wf(),
        r == 0 || r == -1,
        r == 0 <==> (old_name@ != new_name@ && has_name(old(root)@.entries, old_name@)
            && !has_name(old(root)@.entries, new_name@)),
        r == -1 ==> final(root)@ == old(root)@,
        r == 0 ==> final(root)@ == linked(old(root)@, new_name@, lookup(old(root)@.entries, old_name@).unwrap()),
        r == 0 ==> lookup(final(root)@.entries, new_name@) == lookup(old(root)@.entries, old_name@),
        r == 0 ==> lookup(final(root)@.entries, old_name@) == lookup(old(root)@.entries, old_name@),
{
    if name_eq(old_name, new_name) {
        return -1;
    }
    let ino = match root.find(old_name) {
        Some(ino) => ino,
        None => {
            return -1;
        },
    };
    if root.find(new_name).is_some() {
        return -1;
    }
    let ghost v = root@;
    proof {
        let i = index_of_name(v.entries, old_name@);
        assert(v.entries[i].name == old_name@);
        assert(1 <= v.entries[i].ino < v.inodes.len());
        lemma_count_links_le_len(v.entries, ino as nat);
    }
    let info = root.inode(ino);
    root.push_entry(new_name, ino);
    root.set_nlink(ino, info.nlink + 1);
    proof {
        let w = root@;
        let e = EntryView { name: new_name@, ino: ino as nat };
        assert(w == linked(v, new_name@, ino as nat));
        assert forall|k: int| 1 <= k < w.inodes.len() implies #[trigger] w.inodes[k].nlink == count_links(w.entries, k as nat) by {
            lemma_count_links_push(v.entries, e, k as nat);
        }
        assert forall|p: int, q: int| 0 <= p < w.entries.len() && 0 <= q < w.entries.len() && p != q
            implies #[trigger] w.entries[p].name != #[trigger] w.entries[q].name by {
            if p == v.entries.len() {
                assert(v.entries[q].name != new_name@);
            } else if q == v.entries.len() {
                assert(v.entries[p].name != new_name@);
            }
        }
        assert(w.wf());
        let last = v.entries.len() as int;
        assert(w.entries[last] == e);
        lemma_lookup_at(w.entries, last);
        let i = index_of_name(v.entries, old_name@);
        assert(w.entries[i] == v.entries[i]);
        lemma_lookup_at(w.entries, i);
    }
    0
}

/// Removes the entry called `name`: the last entry moves into its slot,
/// its inode loses a link, and loses its data when no link is left. Fails
/// with -1 when no entry is called `name`.
pub fn sys_unlinkat(root: &mut RootDir, name: &Vec<u8>) -> (r: isize)
    requires
        old(root).wf(),
    ensures
        final(root).wf(),
        r == 0 || r == -1,
        r == 0 <==> has_name(old(root)@.entries, name@),
        r == -1 ==> final(root)@ == old(root)@,
        r == 0 ==> final(root)@ == unlinked(old(root)@, index_of_name(old(root)@.entries, name@)),
        !has_name(final(root)@.entries, name@),
{
    let i = match root.find_index(name) {
        Some(i) => i,
        None => {
            return -1;
        },
    };
    let ghost v = root@;
    proof {
        let j = index_of_name(v.entries, name@);
        assert(v.entries[j].name == name@);
        assert(i == j);
        lemma_count_links_pos(v.entries, i as int);
    }
    let ino = root.inode_id_at(i);
    let info = root.inode(ino);
    root.swap_remove_entry(i);
    let n = info.nlink - 1;
    root.set_nlink(ino, n);
    if n == 0 {
        root.truncate(ino);
    }
    proof {
        let w = root@;
        assert(w.inodes =~= unlinked(v, i as int).inodes);
        assert(w.contents =~= unlinked(v, i as int).contents);
        assert(w == unlinked(v, i as int));
        lemma_swap_removed_unique(v.entries, i as int);
        assert forall|k: int| 1 <= k < w.inodes.len() implies #[trigger] w.inodes[k].nlink == count_links(w.entries, k as nat) by {
            lemma_count_links_swap_removed(v.entries, i as int, k as nat);
        }
        assert forall|p: int| 0 <= p < w.entries.len() implies 1 <= #[trigger] w.entries[p].ino < w.inodes.len() by {
            lemma_swap_removed_keeps(v.entries, i as int, p);
        }
        assert(w.wf());
    }
    0
}

/// Unlinking a name right after linking it restores the directory and the
/// inode table exactly.
pub proof fn lemma_unlink_undoes_link(v: RootView, old_name: Seq<u8>, new_name: Seq<u8>)
    requires
        v.wf(),
        v.entries.len() < u32::MAX,
        old_name != new_name,
        has_name(v.entries, old_name),
        !has_name(v.entries, new_name),
    ensures
        has_name(linked(v, new_name, lookup(v.entries, old_name).unwrap()).entries, new_name),
        unlinked(
            linked(v, new_name, lookup(v.entries, old_name).unwrap()),
            index_of_name(linked(v, new_name, lookup(v.entries, old_name).unwrap()).entries, new_name),
        ) == v,
{
    let i = index_of_name(v.entries, old_name);
    assert(v.entries[i].name == old_name);
    let ino = v.entries[i].ino;
    let w = linked(v, new_name, ino);
    let last = v.entries.len() as int;
    assert forall|p: int, q: int| 0 <= p < w.entries.len() && 0 <= q < w.entries.len() && p != q
        implies #[trigger] w.entries[p].name != #[trigger] w.entries[q].name by {
        if p == last {
            assert(v.entries[q].name != new_name);
        } else if q == last {
            assert(v.entries[p].name != new_name);
        }
    }
    assert(w.entries[last].name == new_name);
    lemma_lookup_at(w.entries, last);
    lemma_count_links_pos(v.entries, i);
    lemma_count_links_le_len(v.entries, ino);
    let u = unlinked(w, last);
    assert(swap_removed(w.entries, last) =~= v.entries);
    assert(u.inodes =~= v.inodes);
    assert(u.contents =~= v.contents);
}

/// An entry of a process's file descriptor table.
#[derive(Copy, Clone, Debug, PartialEq, Eq, Structural)]
pub struct FileDesc {
    /// Whether the file may be read.
    pub readable: bool,
    /// Whether the file may be written.
    pub writable: bool,
    /// The inode behind the file, for files of the root directory; `None`
    /// for the console and pipes.
    pub inode: Option<u32>,
}

/// `i` is the lowest free descriptor of `table`, or its length when every
/// slot is taken.
pub open spec fn is_first_free(table: Seq<Option<FileDesc>>, i: int) -> bool {
    &&& 0 <= i <= table.len()
    &&& i < table.len() ==> table[i] is None
    &&& forall|k: int| 0 <= k < i ==> #[trigger] table[k] is Some
}

/// The descriptor `fd` names an open file.
pub open spec fn is_open(table: Seq<Option<FileDesc>>, fd: int) -> bool {
    0 <= fd < table.len() && table[fd] is Some
}

/// Every open file of `table` backed by an inode names one of `v`.
pub open spec fn table_fits(table: Seq<Option<FileDesc>>, v: RootView) -> bool {
    forall|k: int| 0 <= k < table.len() && #[trigger] table[k] is Some && table[k].unwrap().inode is Some
        ==> table[k].unwrap().inode.unwrap() < v.inodes.len()
}

/// Finds the lowest free descriptor; when none is free the table grows by
/// one empty slot.
pub fn alloc_fd(fd_table: &mut Vec<Option<FileDesc>>) -> (fd: usize)
    ensures
        is_first_free(old(fd_table)@, fd as int),
        fd < old(fd_table)@.len() ==> final(fd_table)@ == old(fd_table)@,
        fd == old(fd_table)@.len() ==> final(fd_table)@ == old(fd_table)@.push(None),
{
    let mut i: usize = 0;
    while i < fd_table.len()
        invariant
            i <= fd_table.len(),
            fd_table@ == old(fd_table)@,
            forall|k: int| 0 <= k < i ==> #[trigger] fd_table@[k] is Some,
        decreases fd_table.len() - i,
    {
        if fd_table[i].is_none() {
            return i;
        }
        i = i + 1;
    }
    fd_table.push(None);
    i
}

/// Opens the file at `path` in the root directory and gives it the lowest
/// free descriptor. Returns the descriptor, or -1 when the file does not
/// exist and `CREATE` is not set.
pub fn sys_open(root: &mut RootDir, fd_table: &mut Vec<Option<FileDesc>>, path: &Vec<u8>, flags: u32) -> (r: isize)
    requires
        old(root).wf(),
        old(root)@.inodes.len() < u32::MAX,
        flags & !ALL_FLAGS == 0,
        old(fd_table)@.len() < isize::MAX,
    ensures
        final(root).wf(),
        final(root)@ == opened(old(root)@, path@, OpenFlags { bits: flags }),
        r == -1 <==> (!OpenFlags { bits: flags }.has(CREATE) && !has_name(old(root)@.entries, path@)),
        r == -1 ==> final(fd_table)@ == old(fd_table)@,
        table_fits(old(fd_table)@, old(root)@) ==> table_fits(final(fd_table)@, final(root)@),
        r != -1 ==> r >= 0 && is_first_free(old(fd_table)@, r as int)
            && final(fd_table)@ == (if r < old(fd_table)@.len() { old(fd_table)@ } else { old(fd_table)@.push(None) }).update(
                r as int,
                Some(FileDesc {
                    readable: OpenFlags { bits: flags }.spec_read_write().0,
                    writable: OpenFlags { bits: flags }.spec_read_write().1,
                    inode: Some(opened_ino(old(root)@, path@)),
                }),
            ),
{
    let f = match OpenFlags::from_bits(flags) {
        Some(f) => f,
        None => {
            return -1;
        },
    };
    match open_file(root, path, f) {
        Some(inode) => {
            let fd = alloc_fd(fd_table);
            fd_table.set(fd, Some(FileDesc { readable: inode.readable, writable: inode.writable, inode: Some(inode.ino) }));
            proof {
                let v = old(root)@;
                if has_name(v.entries, path@) {
                    let i = index_of_name(v.entries, path@);
                    assert(v.entries[i].name == path@);
                    assert(v.entries[i].ino < v.inodes.len());
                }
                assert(root@.inodes.len() >= v.inodes.len());
                assert(inode.ino < root@.inodes.len());
            }
            fd as isize
        },
        None => -1,
    }
}

/// Closes descriptor `fd`. Returns 0, or -1 when `fd` is not open.
pub fn sys_close(fd_table: &mut Vec<Option<FileDesc>>, fd: usize) -> (r: isize)
    ensures
        r == 0 <==> is_open(old(fd_table)@, fd as int),
        r == 0 || r == -1,
        r == 0 ==> final(fd_table)@ == old(fd_table)@.update(fd as int, None),
        r == -1 ==> final(fd_table)@ == old(fd_table)@,
{
    if fd >= fd_table.len() {
        return -1;
    }
    if fd_table[fd].is_none() {
        return -1;
    }
    fd_table.set(fd, None);
    0
}

/// Reads from descriptor `fd` through `read`, which is handed the open
/// file and gives the number of bytes read. Returns that number, or -1
/// when `fd` is not open or not readable.
pub fn sys_read<F: FnOnce(FileDesc) -> usize>(fd_table: &Vec<Option<FileDesc>>, fd: usize, read: F) -> (r: isize)
    requires
        forall|f: FileDesc| read.requires((f,)),
    ensures
        !(is_open(fd_table@, fd as int) && fd_table@[fd as int].unwrap().readable) ==> r == -1,
        is_open(fd_table@, fd as int) && fd_table@[fd as int].unwrap().readable
            ==> exists|n: usize| read.ensures((fd_table@[fd as int].unwrap(),), n) && r == n as isize,
{
    if fd >= fd_table.len() {
        return -1;
    }
    match fd_table[fd] {
        Some(file) => {
            if !file.readable {
                return -1;
            }
            let n = read(file);
            n as isize
        },
        None => -1,
    }
}

/// Writes to descriptor `fd` through `write`, which is handed the open
/// file and gives the number of bytes written. Returns that number, or -1
/// when `fd` is not open or not writable.
pub fn sys_write<F: FnOnce(FileDesc) -> usize>(fd_table: &Vec<Option<FileDesc>>, fd: usize, write: F) -> (r: isize)
    requires
        forall|f: FileDesc| write.requires((f,)),
    ensures
        !(is_open(fd_table@, fd as int) && fd_table@[fd as int].unwrap().writable) ==> r == -1,
        is_open(fd_table@, fd as int) && fd_table@[fd as int].unwrap().writable
            ==> exists|n: usize| write.ensures((fd_table@[fd as int].unwrap(),), n) && r == n as isize,
{
    if fd >= fd_table.len() {
        return -1;
    }
    match fd_table[fd] {
        Some(file) => {
            if !file.writable {
                return -1;
            }
            let n = write(file);
            n as isize
        },
        None => -1,
    }
}

/// Status of the file open at descriptor `fd`: 0 and the status for a file
/// of the root directory, 0 and nothing for another open file, -1 and
/// nothing when `fd` is not open.
pub fn sys_fstat(fd_table: &Vec<Option<FileDesc>>, root: &RootDir, fd: usize) -> (r: (isize, Option<Stat>))
    requires
        table_fits(fd_table@, root@),
    ensures
        !is_open(fd_table@, fd as int) ==> r == (-1isize, None::<Stat>),
        is_open(fd_table@, fd as int) ==> r.0 == 0,
        is_open(fd_table@, fd as int) ==> match fd_table@[fd as int].unwrap().inode {
            Some(ino) => r.1 == Some(stat_of(ino, root@.inodes[ino as int])),
            None => r.1 is None,
        },
{
    if fd >= fd_table.len() {
        return (-1, None);
    }
    match fd_table[fd] {
        Some(file) => match file.inode {
            Some(ino) => (0, Some(inode_stat(root, ino))),
            None => (0, None),
        },
        None => (-1, None),
    }
}

/// Closing the descriptor that `open` just handed out frees it again: the
/// table is as before, or one empty slot longer when it had to grow.
pub proof fn lemma_close_undoes_open(table: Seq<Option<FileDesc>>, fd: int, desc: FileDesc)
    requires
        is_first_free(table, fd),
    ensures
        fd < table.len() ==> table.update(fd, Some(desc)).update(fd, None) == table,
        fd == table.len() ==> table.push(None).update(fd, Some(desc)).update(fd, None) == table.push(None),
{
    if fd < table.len() {
        assert(table.update(fd, Some(desc)).update(fd, None) =~= table);
    } else {
        assert(table.push(None).update(fd, Some(desc)).update(fd, None) =~= table.push(None));
    }
}

/// After `b` is linked to `a`, files opened under either name are the same
/// inode, and its status shows one more link.
pub proof fn lemma_fstat_after_link(v: RootView, a: Seq<u8>, b: Seq<u8>)
    requires
        v.wf(),
        v.entries.len() < u32::MAX,
        a != b,
        has_name(v.entries, a),
        !has_name(v.entries, b),
    ensures
        ({
            let ino = lookup(v.entries, a).unwrap();
            let w = linked(v, b, ino);
            &&& opened_ino(w, a) == ino as u32
            &&& opened_ino(w, b) == ino as u32
            &&& stat_of(opened_ino(w, a), w.inodes[ino as int]).ino == ino as u64
            &&& stat_of(opened_ino(w, a), w.inodes[ino as int]).nlink == v.inodes[ino as int].nlink + 1
            &&& stat_of(opened_ino(w, b), w.inodes[opened_ino(w, b) as int])
                == stat_of(opened_ino(w, a), w.inodes[opened_ino(w, a) as int])
        }),
{
    let i = index_of_name(v.entries, a);
    assert(v.entries[i].name == a);
    let ino = v.entries[i].ino;
    let w = linked(v, b, ino);
    let last = v.entries.len() as int;
    assert forall|p: int, q: int| 0 <= p < w.entries.len() && 0 <= q < w.entries.len() && p != q
        implies #[trigger] w.entries[p].name != #[trigger] w.entries[q].name by {
        if p == last {
            assert(v.entries[q].name != b);
        } else if q == last {
            assert(v.entries[p].name != b);
        }
    }
    assert(w.entries[last].name == b);
    lemma_lookup_at(w.entries, last);
    assert(w.entries[i] == v.entries[i]);
    lemma_lookup_at(w.entries, i);
    lemma_count_links_le_len(v.entries, ino);
}

} // verus!
