//! Process management system calls.
use vstd::prelude::*;
use crate::mm::{lemma_total_len_take, overlaid, total_len, written, MemorySet, PageTableEntry, PAGE_SIZE, PTE_R, PTE_U, PTE_V, PTE_W, PTE_X};
use crate::task::manager::{ReadyTask, TaskManager, BIG_STRIDE};
use crate::fs::dir::{has_name, lookup, RootDir};
use crate::fs::inode::{open_file, OSInode, OpenFlags, CREATE, TRUNC};

verus! {

/// Microseconds per second.
pub const MICROS_PER_SEC: usize = 1000000;

/// A time as seconds and microseconds.
#[derive(Copy, Clone, Debug, PartialEq, Eq, Structural)]
pub struct TimeVal {
    pub sec: usize,
    pub usec: usize,
}

/// The `n` low bytes of `x`, least significant first.
pub open spec fn le_bytes(x: nat, n: nat) -> Seq<u8>
    decreases n,
{
    if n == 0 {
        Seq::empty()
    } else {
        seq![(x % 256) as u8] + le_bytes(x / 256, (n - 1) as nat)
    }
}

impl TimeVal {
    /// The bytes of a `TimeVal` in memory: seconds, then microseconds, each
    /// as eight little-endian bytes.
    pub open spec fn spec_bytes(self) -> Seq<u8> {
        le_bytes(self.sec as nat, 8) + le_bytes(self.usec as nat, 8)
    }

    /// The time `us` microseconds after the epoch.
    pub fn from_us(us: usize) -> (tv: TimeVal)
        ensures
            tv.sec == us / MICROS_PER_SEC,
            tv.usec == us % MICROS_PER_SEC,
    {
        TimeVal { sec: us / MICROS_PER_SEC, usec: us % MICROS_PER_SEC }
    }

    /// The bytes of the value as it lies in memory.
    pub fn to_bytes(&self) -> (b: Vec<u8>)
        ensures
            b@ == self.spec_bytes(),
    {
        let mut b: Vec<u8> = Vec::new();
        push_le_bytes(&mut b, self.sec as u64);
        push_le_bytes(&mut b, self.usec as u64);
        assert(b@ =~= self.spec_bytes());
        b
    }
}

fn push_le_bytes(out: &mut Vec<u8>, x: u64)
    ensures
        final(out)@ == old(out)@ + le_bytes(x as nat, 8),
{
    let mut y: u64 = x;
    let mut i: usize = 0;
    while i < 8
        invariant
            i <= 8,
            out@ + le_bytes(y as nat, (8 - i) as nat) == old(out)@ + le_bytes(x as nat, 8),
        decreases 8 - i,
    {
        let ghost before = out@;
        out.push((y % 256) as u8);
        proof {
            assert(le_bytes(y as nat, (8 - i) as nat) == seq![(y % 256) as u8] + le_bytes((y / 256) as nat, (8 - i - 1) as nat));
            assert(out@ + le_bytes((y / 256) as nat, (8 - i - 1) as nat) =~= before + le_bytes(y as nat, (8 - i) as nat));
        }
        y = y / 256;
        i = i + 1;
    }
    assert(le_bytes(y as nat, 0) =~= Seq::<u8>::empty());
    assert(out@ =~= old(out)@ + le_bytes(x as nat, 8));
}

/// Copies `data` into the pieces of a user buffer, in order. Succeeds when
/// there is at least one piece and the pieces hold all of `data`.
pub fn write_user_data(bufs: &mut Vec<Vec<u8>>, data: &Vec<u8>) -> (r: Result<(), ()>)
    ensures
        r is Ok <==> (old(bufs)@.len() > 0 && total_len(old(bufs)@.map_values(|b: Vec<u8>| b@)) >= data@.len()),
        final(bufs)@.map_values(|b: Vec<u8>| b@) == written(old(bufs)@.map_values(|b: Vec<u8>| b@), data@),
{
    let ghost orig = old(bufs)@.map_values(|b: Vec<u8>| b@);
    if bufs.len() == 0 {
        assert(bufs@.map_values(|b: Vec<u8>| b@) =~= written(orig, data@));
        return Err(());
    }
    let mut total: usize = 0;
    let mut k: usize = 0;
    while k < bufs.len()
        invariant
            bufs@.len() == orig.len(),
            0 < orig.len(),
            k <= orig.len(),
            total <= data@.len(),
            total_len(orig.take(k as int)) >= 0,
            total as int == if total_len(orig.take(k as int)) < data@.len() { total_len(orig.take(k as int)) } else { data@.len() as int },
            forall|q: int| 0 <= q < k ==> #[trigger] bufs@[q]@ == written(orig, data@)[q],
            forall|q: int| k <= q < orig.len() ==> #[trigger] bufs@[q]@ == orig[q],
        decreases orig.len() - k,
    {
        proof {
            lemma_total_len_take(orig, k as int);
        }
        let ghost off = total_len(orig.take(k as int));
        let mut b: Vec<u8> = Vec::new();
        bufs.set_and_swap(k, &mut b);
        assert(b@ == orig[k as int]);
        let remaining = data.len() - total;
        let copy_len = if remaining < b.len() { remaining } else { b.len() };
        let mut i: usize = 0;
        while i < copy_len
            invariant
                k < orig.len(),
                copy_len <= b@.len(),
                b@.len() == orig[k as int].len(),
                total + copy_len <= data.len(),
                total + copy_len <= data@.len(),
                i <= copy_len,
                forall|p: int| 0 <= p < i ==> #[trigger] b@[p] == data@[total + p],
                forall|p: int| i <= p < b@.len() ==> #[trigger] b@[p] == orig[k as int][p],
            decreases copy_len - i,
        {
            b.set(i, data[total + i]);
            i = i + 1;
        }
        proof {
            let w = written(orig, data@)[k as int];
            assert(w == overlaid(orig[k as int], off, data@));
            if off < data@.len() {
                assert(total == off);
            }
            assert(b@ =~= w);
        }
        bufs.set_and_swap(k, &mut b);
        total = total + copy_len;
        k = k + 1;
    }
    proof {
        assert(orig.take(orig.len() as int) =~= orig);
        assert(bufs@.map_values(|b: Vec<u8>| b@) =~= written(orig, data@));
    }
    if total == data.len() {
        Ok(())
    } else {
        Err(())
    }
}

/// Writes the current time, `us` microseconds, into the user buffer pieces
/// `bufs` as a `TimeVal`. Returns 0, or -1 when the pieces cannot hold it.
pub fn sys_get_time(us: usize, bufs: &mut Vec<Vec<u8>>) -> (r: isize)
    ensures
        r == 0 || r == -1,
        r == 0 <==> (old(bufs)@.len() > 0 && total_len(old(bufs)@.map_values(|b: Vec<u8>| b@)) >= 16),
        final(bufs)@.map_values(|b: Vec<u8>| b@) == written(
            old(bufs)@.map_values(|b: Vec<u8>| b@),
            TimeVal { sec: us / MICROS_PER_SEC, usec: us % MICROS_PER_SEC }.spec_bytes(),
        ),
{
    let tv = TimeVal::from_us(us);
    let bytes = tv.to_bytes();
    proof {
        reveal_with_fuel(le_bytes, 9);
        assert(le_bytes(tv.sec as nat, 8).len() == 8);
        assert(le_bytes(tv.usec as nat, 8).len() == 8);
    }
    match write_user_data(bufs, &bytes) {
        Ok(()) => 0,
        Err(()) => -1,
    }
}

/// What a parent knows of one of its children.
#[derive(Copy, Clone, Debug, PartialEq, Eq, Structural)]
pub struct ChildInfo {
    /// The child's process id.
    pub pid: usize,
    /// Whether the child has exited and waits to be reaped.
    pub zombie: bool,
    /// The child's exit code, once it has exited.
    pub exit_code: i32,
}

/// Child `c` is one that `waitpid(pid, ..)` waits for: any child for -1.
pub open spec fn pid_matches(pid: isize, c: ChildInfo) -> bool {
    pid == -1 || pid as usize == c.pid
}

/// `children[i]` is the first exited child that `waitpid(pid, ..)` waits for.
pub open spec fn is_first_reapable(children: Seq<ChildInfo>, pid: isize, i: int) -> bool {
    &&& 0 <= i < children.len()
    &&& children[i].zombie && pid_matches(pid, children[i])
    &&& forall|k: int| 0 <= k < i ==> !(#[trigger] children[k].zombie && pid_matches(pid, children[k]))
}

/// Reaps an exited child. Returns -1 and nothing when no child matches
/// `pid` (any child for -1), -2 and nothing when the matching children are
/// all still running, and otherwise removes the first exited matching
/// child from `children` and returns its pid and exit code.
pub fn sys_waitpid(children: &mut Vec<ChildInfo>, pid: isize) -> (r: (isize, Option<i32>))
    ensures
        !(exists|k: int| 0 <= k < old(children)@.len() && pid_matches(pid, #[trigger] old(children)@[k]))
            ==> r == (-1isize, None::<i32>) && final(children)@ == old(children)@,
        (exists|k: int| 0 <= k < old(children)@.len() && pid_matches(pid, #[trigger] old(children)@[k]))
            && !(exists|k: int| 0 <= k < old(children)@.len() && #[trigger] old(children)@[k].zombie && pid_matches(pid, old(children)@[k]))
            ==> r == (-2isize, None::<i32>) && final(children)@ == old(children)@,
        (exists|k: int| 0 <= k < old(children)@.len() && #[trigger] old(children)@[k].zombie && pid_matches(pid, old(children)@[k]))
            ==> exists|i: int| #[trigger] is_first_reapable(old(children)@, pid, i)
            && r == (old(children)@[i].pid as isize, Some(old(children)@[i].exit_code))
            && final(children)@ == old(children)@.remove(i),
        pid != -1 && r.1 is Some ==> exists|i: int| 0 <= i < old(children)@.len()
            && #[trigger] old(children)@[i].pid == pid as usize
            && old(children)@[i].zombie
            && r == (old(children)@[i].pid as isize, Some(old(children)@[i].exit_code))
            && final(children)@ == old(children)@.remove(i),
        pid != -1 && (forall|k: int| 0 <= k < old(children)@.len() ==> #[trigger] old(children)@[k].pid != pid as usize)
            ==> r == (-1isize, None::<i32>) && final(children)@ == old(children)@,
        pid != -1 && (exists|k: int| 0 <= k < old(children)@.len() && #[trigger] old(children)@[k].pid == pid as usize)
            && (forall|k: int| 0 <= k < old(children)@.len() && #[trigger] old(children)@[k].pid == pid as usize ==> !old(children)@[k].zombie)
            ==> r == (-2isize, None::<i32>) && final(children)@ == old(children)@,
{
    proof {
        lemma_pid_matches(pid);
    }
    let mut any = false;
    let mut i: usize = 0;
    while i < children.len()
        invariant
            i <= children.len(),
            any == exists|k: int| 0 <= k < i && pid_matches(pid, #[trigger] children@[k]),
        decreases children.len() - i,
    {
        let c = children[i];
        if pid == -1 || pid as usize == c.pid {
            any = true;
        }
        i = i + 1;
    }
    if !any {
        return (-1, None);
    }
    let mut j: usize = 0;
    while j < children.len()
        invariant
            j <= children.len(),
            children@ == old(children)@,
            forall|k: int| 0 <= k < j ==> !(#[trigger] children@[k].zombie && pid_matches(pid, children@[k])),
        decreases children.len() - j,
    {
        let c = children[j];
        if c.zombie && (pid == -1 || pid as usize == c.pid) {
            assert(is_first_reapable(old(children)@, pid, j as int));
            let child = children.remove(j);
            let found = child.pid as isize;
            return (found, Some(child.exit_code));
        }
        j = j + 1;
    }
    (-2, None)
}

/// Sets the priority of the calling task, which also sets how far it
/// advances per turn: `BIG_STRIDE / prio`. Returns `prio`, or -1 when
/// `prio` is below 2.
pub fn sys_set_priority(task: &mut ReadyTask, prio: isize) -> (r: isize)
    ensures
        prio <= 1 ==> r == -1 && *final(task) == *old(task),
        prio > 1 ==> r == prio && *final(task) == (ReadyTask {
            prio: prio as usize,
            pass: (BIG_STRIDE / (prio as usize)) as usize,
            ..*old(task)
        }),
{
    if prio <= 1 {
        return -1;
    }
    task.prio = prio as usize;
    task.pass = BIG_STRIDE / task.prio;
    prio
}

/// The first page of a range that starts at byte `start`.
pub open spec fn first_vpn(start: usize) -> int {
    (start as int) / (PAGE_SIZE as int)
}

/// The page after the last one of the range of `len` bytes at `start`.
pub open spec fn end_vpn(start: usize, len: usize) -> int {
    (start + len + PAGE_SIZE - 1) / (PAGE_SIZE as int)
}

/// The page table flags for the protection bits `port` (1 read, 2 write,
/// 4 execute): always valid and user-reachable.
pub open spec fn pte_flags(port: usize) -> u8 {
    (PTE_V + PTE_U + (if port & 1 != 0 { PTE_R } else { 0 }) + (if port & 2 != 0 { PTE_W } else { 0 }) + (if port & 4
        != 0 { PTE_X } else { 0 })) as u8
}

/// `m` maps some page of `[s, e)`.
pub open spec fn any_mapped(m: Map<usize, PageTableEntry>, s: int, e: int) -> bool {
    exists|v: usize| s <= v < e && #[trigger] m.contains_key(v)
}

/// `m` maps every page of `[s, e)`.
pub open spec fn all_mapped(m: Map<usize, PageTableEntry>, s: int, e: int) -> bool {
    forall|v: usize| s <= v < e ==> #[trigger] m.contains_key(v)
}

/// `m` with the pages of `[s, e)` mapped in order to `frames`, with `flags`.
pub open spec fn mapped_range(m: Map<usize, PageTableEntry>, s: int, e: int, frames: Seq<usize>, flags: u8) -> Map<usize, PageTableEntry> {
    m.union_prefer_right(Map::new(|v: usize| s <= v < e, |v: usize| PageTableEntry { ppn: frames[v - s], flags }))
}

/// `m` without the pages of `[s, e)`.
pub open spec fn unmapped_range(m: Map<usize, PageTableEntry>, s: int, e: int) -> Map<usize, PageTableEntry> {
    m.remove_keys(Set::new(|v: usize| s <= v < e))
}

/// The arguments of `mmap` are acceptable: page-aligned start, protection
/// bits within 1, 2 and 4, and at least one of them.
pub open spec fn mmap_args_ok(start: usize, port: usize) -> bool {
    start % PAGE_SIZE == 0 && port & !7usize == 0 && port & 7 != 0
}

/// The last page of `[start, start + len)` computed as the kernel does it:
/// through the last byte, or the byte after it when the last byte starts
/// a page.
fn range_end_vpn(start: usize, len: usize) -> (e: usize)
    requires
        start + len >= 1,
        start + len + PAGE_SIZE - 1 <= usize::MAX,
    ensures
        e == end_vpn(start, len),
{
    let mut end_va = start + len - 1;
    if (start + len - 1) % PAGE_SIZE == 0 {
        end_va = start + len;
    }
    if end_va == 0 {
        0
    } else {
        (end_va - 1 + PAGE_SIZE) / PAGE_SIZE
    }
}

/// Maps `len` bytes at `start` with protection `port`, page by page, to
/// the frames `frames` in order (the frames the allocator hands out for
/// this call). Returns 0 on success. Returns -1 and maps nothing when the
/// arguments are unacceptable, when a page of the range is mapped already,
/// or when there are fewer frames than pages. A zero length maps nothing.
pub fn sys_mmap(ms: &mut MemorySet, frames: &Vec<usize>, start: usize, len: usize, port: usize) -> (r: isize)
    requires
        mmap_args_ok(start, port) && len > 0 ==> start + len + PAGE_SIZE - 1 <= usize::MAX,
    ensures
        r == 0 || r == -1,
        r == 0 <==> mmap_args_ok(start, port) && (len == 0 || (!any_mapped(old(ms)@, first_vpn(start), end_vpn(start, len))
            && frames@.len() >= end_vpn(start, len) - first_vpn(start))),
        r == -1 || len == 0 ==> final(ms)@ == old(ms)@,
        r == 0 && len > 0 ==> final(ms)@ == mapped_range(old(ms)@, first_vpn(start), end_vpn(start, len), frames@, pte_flags(port)),
        r == 0 && len > 0 ==> forall|v: usize| first_vpn(start) <= v < end_vpn(start, len) ==> #[trigger] final(ms)@.contains_key(v)
            && final(ms)@[v].ppn == frames@[v - first_vpn(start)]
            && grants_port(final(ms)@[v].flags, port),
        r == 0 ==> forall|v: usize| !(first_vpn(start) <= v < end_vpn(start, len)) ==> #[trigger] final(ms)@.contains_key(v)
            == old(ms)@.contains_key(v) && (old(ms)@.contains_key(v) ==> final(ms)@[v] == old(ms)@[v]),
{
    proof {
        if mmap_args_ok(start, port) && len > 0 {
            lemma_mmap_maps_range(old(ms)@, first_vpn(start), end_vpn(start, len), frames@, port);
        }
    }
    assert(start & 4095 == start % 4096) by (bit_vector);
    if start & (PAGE_SIZE - 1) != 0 || port & !0x7 != 0 || port & 0x7 == 0 {
        return -1;
    }
    if len == 0 {
        return 0;
    }
    let s = start / PAGE_SIZE;
    let e = range_end_vpn(start, len);
    assert(s == first_vpn(start));
    assert(s <= e);
    let mut v: usize = s;
    while v < e
        invariant
            s <= v <= e,
            s == first_vpn(start),
            e == end_vpn(start, len),
            ms@ == old(ms)@,
            forall|u: usize| s <= u < v ==> !#[trigger] ms@.contains_key(u),
        decreases e - v,
    {
        if ms.translate(v).is_some() {
            assert(ms@.contains_key(v));
            assert(any_mapped(old(ms)@, s as int, e as int));
            return -1;
        }
        v = v + 1;
    }
    if frames.len() < e - s {
        return -1;
    }
    let mut flags: u8 = PTE_V + PTE_U;
    if port & 1 != 0 {
        flags = flags + PTE_R;
    }
    if port & 2 != 0 {
        flags = flags + PTE_W;
    }
    if port & 4 != 0 {
        flags = flags + PTE_X;
    }
    let mut v: usize = s;
    while v < e
        invariant
            s <= v <= e,
            e - s <= frames@.len(),
            flags == pte_flags(port),
            ms@ == mapped_range(old(ms)@, s as int, v as int, frames@, flags),
        decreases e - v,
    {
        ms.map(v, frames[v - s], flags);
        assert(ms@ =~= mapped_range(old(ms)@, s as int, v + 1, frames@, flags));
        v = v + 1;
    }
    proof {
        let mr = mapped_range(old(ms)@, s as int, e as int, frames@, pte_flags(port));
        assert(ms@ == mr);
        assert forall|u: usize| first_vpn(start) <= u < end_vpn(start, len) implies #[trigger] ms@.contains_key(u)
            && ms@[u].ppn == frames@[u - first_vpn(start)] && grants_port(ms@[u].flags, port) by {
            assert(mr.contains_key(u));
        }
        assert forall|u: usize| !(first_vpn(start) <= u < end_vpn(start, len)) implies #[trigger] ms@.contains_key(u)
            == old(ms)@.contains_key(u) && (old(ms)@.contains_key(u) ==> ms@[u] == old(ms)@[u]) by {
            assert(mr.contains_key(u) == old(ms)@.contains_key(u));
        }
    }
    0
}

/// Removes the mappings of `len` bytes at `start`. Returns 0, or -1 and
/// changes nothing when `start` is not page-aligned or some page of the
/// range is not mapped.
pub fn sys_munmap(ms: &mut MemorySet, start: usize, len: usize) -> (r: isize)
    requires
        start % PAGE_SIZE == 0 ==> start + len >= 1 && start + len + PAGE_SIZE - 1 <= usize::MAX,
    ensures
        r == 0 || r == -1,
        r == 0 <==> start % PAGE_SIZE == 0 && all_mapped(old(ms)@, first_vpn(start), end_vpn(start, len)),
        r == -1 ==> final(ms)@ == old(ms)@,
        r == 0 ==> final(ms)@ == unmapped_range(old(ms)@, first_vpn(start), end_vpn(start, len)),
{
    assert(start & 4095 == start % 4096) by (bit_vector);
    if start & (PAGE_SIZE - 1) != 0 {
        return -1;
    }
    let s = start / PAGE_SIZE;
    let e = range_end_vpn(start, len);
    assert(s == first_vpn(start));
    let mut v: usize = s;
    while v < e
        invariant
            s <= v,
            s == first_vpn(start),
            e == end_vpn(start, len),
            ms@ == old(ms)@,
            forall|u: usize| s <= u < v ==> #[trigger] ms@.contains_key(u),
        decreases e - v,
    {
        if ms.translate(v).is_none() {
            assert(!ms@.contains_key(v));
            assert(!all_mapped(old(ms)@, s as int, e as int));
            return -1;
        }
        v = v + 1;
    }
    let mut v: usize = s;
    while v < e
        invariant
            s <= v,
            v <= e || s > e,
            ms@ == unmapped_range(old(ms)@, s as int, v as int),
        decreases e - v,
    {
        ms.unmap(v);
        assert(ms@ =~= unmapped_range(old(ms)@, s as int, v + 1));
        v = v + 1;
    }
    proof {
        if s >= e {
            assert(ms@ =~= unmapped_range(old(ms)@, s as int, e as int));
        }
    }
    0
}

/// The pid of the calling task, as the call returns it.
pub fn sys_getpid(pid: usize) -> (r: isize)
    ensures
        r == pid as isize,
{
    pid as isize
}

/// Index of the register that carries a call's return value (`a0`).
pub const REG_A0: usize = 10;

/// Finishes a fork: the child, whose registers are `child_regs`, sees 0 as
/// the call's result and joins the ready queue; the parent gets its pid.
pub fn sys_fork(manager: &mut TaskManager, child: ReadyTask, child_regs: &mut [usize; 32]) -> (r: isize)
    ensures
        r == child.pid as isize,
        final(child_regs)@ == old(child_regs)@.update(REG_A0 as int, 0),
        final(manager)@ == old(manager)@.push(child),
{
    child_regs[REG_A0] = 0;
    let pid = child.pid;
    manager.add(child);
    pid as isize
}

/// Finishes a spawn by `parent_pid`: the new child is recorded as a running
/// child of the caller, its parent link (`child_parent`) points at the
/// caller, and it joins the ready queue; the caller gets its pid.
pub fn sys_spawn(
    children: &mut Vec<ChildInfo>,
    manager: &mut TaskManager,
    parent_pid: usize,
    child: ReadyTask,
    child_parent: &mut Option<usize>,
) -> (r: isize)
    ensures
        r == child.pid as isize,
        final(children)@ == old(children)@.push(ChildInfo { pid: child.pid, zombie: false, exit_code: 0 }),
        *final(child_parent) == Some(parent_pid),
        final(manager)@ == old(manager)@.push(child),
{
    children.push(ChildInfo { pid: child.pid, zombie: false, exit_code: 0 });
    *child_parent = Some(parent_pid);
    let pid = child.pid;
    manager.add(child);
    pid as isize
}

/// Replaces the caller's program with the file at `path`: when it exists,
/// `exec` is handed the file opened read-only, and the call returns 0;
/// otherwise -1, and `exec` is not called.
pub fn sys_exec<F: FnOnce(OSInode)>(root: &mut RootDir, path: &Vec<u8>, exec: F) -> (r: isize)
    requires
        old(root).wf(),
        old(root)@.inodes.len() < u32::MAX,
        forall|f: OSInode| exec.requires((f,)),
    ensures
        final(root)@ == old(root)@,
        final(root).wf(),
        r == 0 <==> has_name(old(root)@.entries, path@),
        r == 0 || r == -1,
        r == 0 ==> exec.ensures(
            (OSInode::spec_new(true, false, lookup(old(root)@.entries, path@).unwrap() as u32),),
            (),
        ),
{
    let flags = OpenFlags { bits: 0 };
    assert(0u32 & 512u32 == 0u32 && 0u32 & 1024u32 == 0u32) by (bit_vector);
    assert(!flags.has(CREATE) && !flags.has(TRUNC));
    match open_file(root, path, flags) {
        Some(inode) => {
            exec(inode);
            0
        },
        None => -1,
    }
}

/// Moves the end of the caller's heap by `size` bytes through `change_brk`,
/// which gives the old end or `None` when the move is refused. Returns the
/// old end, or -1.
pub fn sys_sbrk<F: FnOnce(i32) -> Option<usize>>(size: i32, change_brk: F) -> (r: isize)
    requires
        change_brk.requires((size,)),
    ensures
        exists|res: Option<usize>| change_brk.ensures((size,), res) && r == match res {
            Some(old_brk) => old_brk as isize,
            None => -1isize,
        },
{
    match change_brk(size) {
        Some(old_brk) => old_brk as isize,
        None => -1,
    }
}

/// Mapping a range that was free and then unmapping the same range gives
/// back the page table it started from.
pub proof fn lemma_munmap_undoes_mmap(m: Map<usize, PageTableEntry>, s: int, e: int, frames: Seq<usize>, flags: u8)
    requires
        !any_mapped(m, s, e),
    ensures
        all_mapped(mapped_range(m, s, e, frames, flags), s, e),
        unmapped_range(mapped_range(m, s, e, frames, flags), s, e) == m,
{
    let mm = mapped_range(m, s, e, frames, flags);
    assert forall|v: usize| s <= v < e implies #[trigger] mm.contains_key(v) by {}
    assert forall|v: usize| m.contains_key(v) implies !(s <= v < e) by {
        if s <= v < e {
            assert(m.contains_key(v));
        }
    }
    assert(unmapped_range(mm, s, e) =~= m);
}

/// Page table flags `flags` make a page valid and user-reachable, and allow
/// reading, writing and executing exactly as the bits 1, 2 and 4 of `port`
/// ask.
pub open spec fn grants_port(flags: u8, port: usize) -> bool {
    &&& (flags & PTE_V) != 0
    &&& (flags & PTE_U) != 0
    &&& ((flags & PTE_R) != 0) == ((port & 1) != 0)
    &&& ((flags & PTE_W) != 0) == ((port & 2) != 0)
    &&& ((flags & PTE_X) != 0) == ((port & 4) != 0)
}

/// The flags given for protection bits `port` hold read, write and execute
/// permission exactly for the bits 1, 2 and 4 of `port`, and are always
/// valid and user-reachable.
pub proof fn lemma_pte_flags_bits(port: usize)
    requires
        port & !7usize == 0,
    ensures
        grants_port(pte_flags(port), port),
{
    let f = pte_flags(port);
    assert(f & 1u8 != 0 && f & 16u8 != 0 && (f & 2u8 != 0) == (port & 1 != 0) && (f & 4u8 != 0) == (port & 2 != 0)
        && (f & 8u8 != 0) == (port & 4 != 0)) by (bit_vector)
        requires
            port & !7usize == 0,
            f == ((1u8 + 16u8 + (if port & 1 != 0 { 2u8 } else { 0u8 }) + (if port & 2 != 0 { 4u8 } else { 0u8 }) + (if port
                & 4 != 0 { 8u8 } else { 0u8 })) as u8),
    ;
}

/// An accepted `mmap` of pages `[s, e)` maps each of them to its frame in
/// order, with read, write and execute permission exactly as the bits 1, 2
/// and 4 of `port` ask, and leaves every other page as it was.
pub proof fn lemma_mmap_maps_range(m: Map<usize, PageTableEntry>, s: int, e: int, frames: Seq<usize>, port: usize)
    requires
        port & !7usize == 0,
    ensures
        forall|v: usize| s <= v < e ==> #[trigger] mapped_range(m, s, e, frames, pte_flags(port)).contains_key(v)
            && mapped_range(m, s, e, frames, pte_flags(port))[v].ppn == frames[v - s]
            && grants_port(mapped_range(m, s, e, frames, pte_flags(port))[v].flags, port),
        forall|v: usize| !(s <= v < e) ==> #[trigger] mapped_range(m, s, e, frames, pte_flags(port)).contains_key(v)
            == m.contains_key(v) && (m.contains_key(v) ==> mapped_range(m, s, e, frames, pte_flags(port))[v] == m[v]),
{
    lemma_pte_flags_bits(port);
}

/// `waitpid(-1, ..)` waits for any child; `waitpid(pid, ..)` for another
/// `pid` waits exactly for the child whose pid is `pid`.
pub proof fn lemma_pid_matches(pid: isize)
    ensures
        pid == -1 ==> forall|c: ChildInfo| #[trigger] pid_matches(pid, c),
        pid != -1 ==> forall|c: ChildInfo| #[trigger] pid_matches(pid, c) == (c.pid == pid as usize),
{
}

} // verus!
