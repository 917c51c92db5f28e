//! Open files, the flags of `open`, and file status.
use vstd::prelude::*;
use crate::fs::dir::{has_name, index_of_name, lookup, read_range, spliced, lemma_spliced_append, lemma_spliced_shape, DiskInodeInfo, EntryView, RootDir, RootView};
use crate::mm::{
    concat, first_empty, is_first_empty, lemma_concat_len, lemma_first_empty, lemma_total_len_nonneg,
    lemma_total_len_take, lemma_total_len_take_mono, overlaid, total_len,
};

verus! {

/// The flags argument of `open`, made of the bits below.
#[derive(Copy, Clone, Debug, PartialEq, Eq, Structural)]
pub struct OpenFlags {
    pub bits: u32,
}

/// Read only (no bit set).
pub const RDONLY: u32 = 0;
/// Write only.
pub const WRONLY: u32 = 1;
/// Read and write.
pub const RDWR: u32 = 2;
/// Create the file when it does not exist.
pub const CREATE: u32 = 512;
/// Truncate the file to size zero.
pub const TRUNC: u32 = 1024;
/// Every bit that has a meaning.
pub const ALL_FLAGS: u32 = 1539;

impl OpenFlags {
    /// Whether every bit of `bits` is set.
    pub open spec fn has(self, bits: u32) -> bool {
        self.bits & bits == bits
    }

    /// What `read_write` returns: (readable, writable).
    pub open spec fn spec_read_write(self) -> (bool, bool) {
        if self.bits == 0 {
            (true, false)
        } else if self.has(WRONLY) {
            (false, true)
        } else {
            (true, true)
        }
    }

    /// The flags made of `bits`, when no unknown bit is set.
    pub fn from_bits(bits: u32) -> (r: Option<OpenFlags>)
        ensures
            r is Some <==> bits & !ALL_FLAGS == 0,
            r matches Some(f) ==> f.bits == bits,
    {
        if bits & !ALL_FLAGS == 0 {
            Some(OpenFlags { bits })
        } else {
            None
        }
    }

    /// The raw bits.
    pub fn bits(&self) -> (r: u32)
        ensures
            r == self.bits,
    {
        self.bits
    }

    /// Whether no bit is set.
    pub fn is_empty(&self) -> (r: bool)
        ensures
            r == (self.bits == 0),
    {
        self.bits == 0
    }

    /// Whether every bit of `other` is set in `self`.
    pub fn contains(&self, other: u32) -> (r: bool)
        ensures
            r == self.has(other),
    {
        self.bits & other == other
    }

    /// Whether a file opened with these flags may be read and written.
    /// Validity is not checked: no bit means read only, the write-only bit
    /// means write only, and anything else means both.
    pub fn read_write(&self) -> (r: (bool, bool))
        ensures
            r == self.spec_read_write(),
    {
        if self.is_empty() {
            (true, false)
        } else if self.contains(WRONLY) {
            (false, true)
        } else {
            (true, true)
        }
    }
}

/// An open file backed by an inode of the root directory.
#[derive(Copy, Clone, Debug, PartialEq, Eq, Structural)]
pub struct OSInode {
    /// Whether the file was opened for reading.
    pub readable: bool,
    /// Whether the file was opened for writing.
    pub writable: bool,
    /// Where the next read or write starts.
    pub offset: usize,
    /// The inode.
    pub ino: u32,
}

impl OSInode {
    pub open spec fn spec_new(readable: bool, writable: bool, ino: u32) -> OSInode {
        OSInode { readable, writable, offset: 0, ino }
    }

    /// A freshly opened file, positioned at its start.
    pub fn new(readable: bool, writable: bool, ino: u32) -> (f: Self)
        ensures
            f == (OSInode { readable, writable, offset: 0, ino }),
    {
        OSInode { readable, writable, offset: 0, ino }
    }

    /// The inode number.
    pub fn ino(&self) -> (r: u32)
        ensures
            r == self.ino,
    {
        self.ino
    }

    /// Whether the file may be read.
    pub fn readable(&self) -> (r: bool)
        ensures
            r == self.readable,
    {
        self.readable
    }

    /// Whether the file may be written.
    pub fn writable(&self) -> (r: bool)
        ensures
            r == self.writable,
    {
        self.writable
    }
}

/// The inode table with the size of inode `ino` set to zero.
pub open spec fn cleared(v: RootView, ino: int) -> RootView {
    RootView {
        inodes: v.inodes.update(ino, DiskInodeInfo { size: 0, ..v.inodes[ino] }),
        contents: v.contents.update(ino, Seq::<u8>::empty()),
        ..v
    }
}

/// The directory after a new, empty file called `name` is created.
pub open spec fn created(v: RootView, name: Seq<u8>) -> RootView {
    RootView {
        entries: v.entries.push(EntryView { name, ino: v.inodes.len() }),
        inodes: v.inodes.push(DiskInodeInfo { nlink: 1, is_dir: false, size: 0 }),
        contents: v.contents.push(Seq::<u8>::empty()),
    }
}

/// The directory after `open_file(name, flags)`.
pub open spec fn opened(v: RootView, name: Seq<u8>, flags: OpenFlags) -> RootView {
    if has_name(v.entries, name) {
        if flags.has(CREATE) || flags.has(TRUNC) {
            cleared(v, lookup(v.entries, name).unwrap() as int)
        } else {
            v
        }
    } else if flags.has(CREATE) {
        created(v, name)
    } else {
        v
    }
}

/// The inode that `open_file(name, ..)` opens when it succeeds.
pub open spec fn opened_ino(v: RootView, name: Seq<u8>) -> u32 {
    if has_name(v.entries, name) {
        lookup(v.entries, name).unwrap() as u32
    } else {
        v.inodes.len() as u32
    }
}

/// Opening an existing file keeps the directory; without `CREATE` and
/// `TRUNC` it keeps the inode table and every file's contents too, whatever
/// the read and write bits are; with either it empties just that file.
pub proof fn lemma_open_existing(v: RootView, name: Seq<u8>, flags: OpenFlags)
    requires
        v.wf(),
        has_name(v.entries, name),
    ensures
        opened(v, name, flags).entries == v.entries,
        opened_ino(v, name) as nat == lookup(v.entries, name).unwrap(),
        !flags.has(CREATE) && !flags.has(TRUNC) ==> opened(v, name, flags).inodes == v.inodes
            && opened(v, name, flags).contents == v.contents,
        flags.has(CREATE) || flags.has(TRUNC) ==> {
            let ino = lookup(v.entries, name).unwrap() as int;
            &&& opened(v, name, flags).contents[ino].len() == 0
            &&& opened(v, name, flags).inodes[ino].size == 0
            &&& opened(v, name, flags).inodes[ino].nlink == v.inodes[ino].nlink
            &&& forall|k: int| 0 <= k < v.inodes.len() && k != ino ==> #[trigger] opened(v, name, flags).contents[k] == v.contents[k]
                && opened(v, name, flags).inodes[k] == v.inodes[k]
        },
{
    let i = index_of_name(v.entries, name);
    assert(v.entries[i].name == name);
    assert(1 <= v.entries[i].ino < v.inodes.len());
}

/// Opens the file called `name` in the root directory. With `CREATE`, an
/// existing file is emptied and a missing one is created; without it, a
/// missing file gives `None` and `TRUNC` empties an existing one.
pub fn open_file(root: &mut RootDir, name: &Vec<u8>, flags: OpenFlags) -> (r: Option<OSInode>)
    requires
        old(root).wf(),
        old(root)@.inodes.len() < u32::MAX,
    ensures
        final(root).wf(),
        final(root)@ == opened(old(root)@, name@, flags),
        r is None <==> (!flags.has(CREATE) && !has_name(old(root)@.entries, name@)),
        r matches Some(f) ==> f == OSInode::spec_new(flags.spec_read_write().0, flags.spec_read_write().1, opened_ino(old(root)@, name@)),
        r matches Some(f) ==> lookup(final(root)@.entries, name@) == Some(f.ino as nat),
        has_name(old(root)@.entries, name@) && !flags.has(CREATE) && !flags.has(TRUNC) ==> final(root)@ == old(root)@,
        has_name(old(root)@.entries, name@) ==> final(root)@.entries == old(root)@.entries,
        has_name(old(root)@.entries, name@) ==> (r is Some && r.unwrap().ino == lookup(old(root)@.entries, name@).unwrap()),
{
    proof {
        if has_name(old(root)@.entries, name@) {
            lemma_open_existing(old(root)@, name@, flags);
        }
    }
    let (readable, writable) = flags.read_write();
    let ghost v = root@;
    match root.find(name) {
        Some(ino) => {
            proof {
                let i = index_of_name(v.entries, name@);
                assert(v.entries[i].name == name@);
                assert(1 <= v.entries[i].ino < v.inodes.len());
            }
            if flags.contains(CREATE) || flags.contains(TRUNC) {
                root.clear(ino);
                proof {
                    assert(root@ == cleared(v, ino as int));
                }
            }
            Some(OSInode::new(readable, writable, ino))
        },
        None => {
            if flags.contains(CREATE) {
                let ino = root.create(name);
                Some(OSInode::new(readable, writable, ino))
            } else {
                None
            }
        },
    }
}

/// The kind of a file, as `fstat` reports it.
#[derive(Copy, Clone, Debug, PartialEq, Eq, Structural)]
pub enum StatMode {
    /// Neither a directory nor a regular file.
    Null,
    /// A directory.
    Dir,
    /// A regular file.
    File,
}

/// File status.
#[derive(Copy, Clone, Debug, PartialEq, Eq, Structural)]
pub struct Stat {
    /// The device holding the file.
    pub dev: u64,
    /// The inode number.
    pub ino: u64,
    /// The kind of file.
    pub mode: StatMode,
    /// Number of hard links.
    pub nlink: u32,
}

/// What `fstat` reports of inode `ino` with stored information `info`.
pub open spec fn stat_of(ino: u32, info: DiskInodeInfo) -> Stat {
    Stat {
        dev: 0,
        ino: ino as u64,
        mode: if info.is_dir { StatMode::Dir } else { StatMode::File },
        nlink: info.nlink,
    }
}

/// The status of inode `ino`.
pub fn inode_stat(root: &RootDir, ino: u32) -> (st: Stat)
    requires
        ino < root@.inodes.len(),
    ensures
        st == stat_of(ino, root@.inodes[ino as int]),
{
    let info = root.inode(ino);
    Stat { dev: 0, ino: ino as u64, mode: if info.is_dir { StatMode::Dir } else { StatMode::File }, nlink: info.nlink }
}

/// The part of `data` from `offset` to its end.
pub open spec fn file_rest(data: Seq<u8>, offset: int) -> Seq<u8> {
    if offset < data.len() {
        data.subrange(offset, data.len() as int)
    } else {
        Seq::empty()
    }
}

/// Number of bytes a read into `bufs` takes from `rest`: reading stops at
/// the end of the data or at the first empty piece.
pub open spec fn read_count(bufs: Seq<Seq<u8>>, rest: Seq<u8>) -> int {
    let cap = total_len(bufs.take(first_empty(bufs)));
    if rest.len() < cap { rest.len() as int } else { cap }
}

/// The pieces after a read of `rest` into them: every piece before the first
/// empty one gets its share of `rest`.
pub open spec fn read_into(bufs: Seq<Seq<u8>>, rest: Seq<u8>) -> Seq<Seq<u8>> {
    Seq::new(bufs.len(), |q: int| if q < first_empty(bufs) { overlaid(bufs[q], total_len(bufs.take(q)), rest) } else { bufs[q] })
}

/// The data of a file after `bufs` are written at `offset` one after the other.
pub open spec fn written_file(data: Seq<u8>, offset: int, bufs: Seq<Seq<u8>>) -> Seq<u8> {
    if bufs.len() == 0 {
        data
    } else {
        spliced(data, offset, concat(bufs))
    }
}

impl OSInode {
    /// Reads the file from the current offset into the pieces `bufs`, one
    /// after the other, until the file ends or an empty piece is reached.
    /// Advances the offset and returns the number of bytes read.
    pub fn read(&mut self, root: &RootDir, bufs: &mut Vec<Vec<u8>>) -> (n: usize)
        requires
            root.wf(),
            old(self).ino < root@.inodes.len(),
        ensures
            n == read_count(old(bufs)@.map_values(|b: Vec<u8>| b@), file_rest(root@.contents[old(self).ino as int], old(self).offset as int)),
            *final(self) == (OSInode { offset: (old(self).offset + n) as usize, ..*old(self) }),
            final(bufs)@.map_values(|b: Vec<u8>| b@) == read_into(
                old(bufs)@.map_values(|b: Vec<u8>| b@),
                file_rest(root@.contents[old(self).ino as int], old(self).offset as int),
            ),
    {
        let ghost orig = old(bufs)@.map_values(|b: Vec<u8>| b@);
        let ghost d = root@.contents[self.ino as int];
        let ghost o = self.offset as int;
        let ghost rest = file_rest(d, o);
        let mut total: usize = 0;
        let mut k: usize = 0;
        let mut done = false;
        while k < bufs.len() && !done
            invariant
                root.wf(),
                self.ino < root@.inodes.len(),
                d == root@.contents[self.ino as int],
                d.len() <= u32::MAX,
                o == old(self).offset as int,
                rest == file_rest(d, o),
                rest.len() == (if o < d.len() { d.len() - o } else { 0int }),
                bufs@.len() == orig.len(),
                k <= orig.len(),
                forall|q: int| 0 <= q < k ==> #[trigger] orig[q].len() > 0,
                total_len(orig.take(k as int)) >= 0,
                total as int == if rest.len() < total_len(orig.take(k as int)) { rest.len() as int } else { total_len(orig.take(k as int)) },
                *self == (OSInode { offset: (o + total) as usize, ..*old(self) }),
                o + total <= usize::MAX,
                forall|q: int| 0 <= q < k ==> #[trigger] bufs@[q]@ == overlaid(orig[q], total_len(orig.take(q)), rest),
                forall|q: int| k <= q < orig.len() ==> #[trigger] bufs@[q]@ == orig[q],
                done ==> k < orig.len() && (orig[k as int].len() == 0 || total == rest.len()),
            decreases orig.len() - k + (if done { 0int } else { 1int }),
        {
            proof {
                lemma_total_len_take(orig, k as int);
            }
            let ghost off = total_len(orig.take(k as int));
            let mut b: Vec<u8> = Vec::new();
            bufs.set_and_swap(k, &mut b);
            assert(b@ == orig[k as int]);
            let m = root.read_at(self.ino, self.offset, &mut b);
            let ghost rr = read_range(d, o + total, orig[k as int].len() as int);
            proof {
                if m > 0 {
                    assert(o + total < d.len());
                    assert(total == off);
                    assert(rr =~= rest.subrange(total as int, total + m));
                    assert(b@ =~= overlaid(orig[k as int], off, rest));
                } else {
                    assert(b@ =~= orig[k as int]);
                }
            }
            bufs.set_and_swap(k, &mut b);
            if m == 0 {
                done = true;
            } else {
                self.offset = self.offset + m;
                total = total + m;
                k = k + 1;
            }
        }
        proof {
            let e = if done && orig[k as int].len() == 0 { k as int } else if done {
                lemma_first_empty_exists_after(orig, k as int);
                first_empty(orig)
            } else {
                k as int
            };
            if !done {
                assert(is_first_empty(orig, k as int));
                lemma_first_empty(orig, k as int);
                assert(orig.take(k as int) =~= orig.take(first_empty(orig)));
            } else if orig[k as int].len() == 0 {
                assert(is_first_empty(orig, k as int));
                lemma_first_empty(orig, k as int);
            } else {
                lemma_first_empty_exists_after(orig, k as int);
                let f = first_empty(orig);
                lemma_total_len_take_mono(orig, k as int, f);
            }
            let f = first_empty(orig);
            assert forall|q: int| k <= q < orig.len() && q < f implies #[trigger] bufs@[q]@ == overlaid(orig[q], total_len(orig.take(q)), rest) by {
                lemma_total_len_take_mono(orig, k as int, q);
                assert(overlaid(orig[q], total_len(orig.take(q)), rest) =~= orig[q]);
            }
            assert(bufs@.map_values(|b: Vec<u8>| b@) =~= read_into(orig, rest));
        }
        total
    }

    /// Writes the pieces `bufs` one after the other at the current offset,
    /// growing the file as needed. Advances the offset and returns the
    /// number of bytes written: all of them.
    pub fn write(&mut self, root: &mut RootDir, bufs: &Vec<Vec<u8>>) -> (n: usize)
        requires
            old(root).wf(),
            old(self).ino < old(root)@.inodes.len(),
            old(self).offset + total_len(bufs@.map_values(|b: Vec<u8>| b@)) <= u32::MAX,
        ensures
            final(root).wf(),
            n == total_len(bufs@.map_values(|b: Vec<u8>| b@)),
            *final(self) == (OSInode { offset: (old(self).offset + n) as usize, ..*old(self) }),
            final(root)@.entries == old(root)@.entries,
            final(root)@.contents == old(root)@.contents.update(
                old(self).ino as int,
                written_file(old(root)@.contents[old(self).ino as int], old(self).offset as int, bufs@.map_values(|b: Vec<u8>| b@)),
            ),
            final(root)@.inodes == old(root)@.inodes.update(old(self).ino as int, DiskInodeInfo {
                size: written_file(old(root)@.contents[old(self).ino as int], old(self).offset as int, bufs@.map_values(|b: Vec<u8>| b@)).len() as u32,
                ..old(root)@.inodes[old(self).ino as int]
            }),
            bufs@.len() > 0 ==> final(root)@.contents[old(self).ino as int].len() == (if old(self).offset + n
                > old(root)@.contents[old(self).ino as int].len() {
                old(self).offset + n
            } else {
                old(root)@.contents[old(self).ino as int].len() as int
            }),
            forall|p: int| 0 <= p < old(root)@.contents[old(self).ino as int].len() && !(old(self).offset <= p < old(self).offset + n)
                ==> #[trigger] final(root)@.contents[old(self).ino as int][p] == old(root)@.contents[old(self).ino as int][p],
    {
        proof {
            if bufs@.len() > 0 {
                lemma_written_file_shape(old(root)@.contents[old(self).ino as int], old(self).offset as int, bufs@.map_values(|b: Vec<u8>| b@));
            }
        }
        let ghost bv = bufs@.map_values(|b: Vec<u8>| b@);
        let ghost ino = self.ino as int;
        let ghost d = old(root)@.contents[ino];
        let ghost o = self.offset as int;
        let mut total: usize = 0;
        let mut k: usize = 0;
        proof {
            lemma_total_len_take_mono(bv, 0, bv.len() as int);
            assert(bv.take(bv.len() as int) =~= bv);
        }
        while k < bufs.len()
            invariant
                root.wf(),
                ino == self.ino as int,
                o == old(self).offset as int,
                old(root).wf(),
                ino < old(root)@.inodes.len(),
                ino < root@.inodes.len(),
                bv == bufs@.map_values(|b: Vec<u8>| b@),
                k <= bv.len(),
                total == total_len(bv.take(k as int)),
                o + total_len(bv) <= u32::MAX,
                *self == (OSInode { offset: (o + total) as usize, ..*old(self) }),
                root@.entries == old(root)@.entries,
                root@.contents == old(root)@.contents.update(ino, written_file(d, o, bv.take(k as int))),
                root@.inodes == old(root)@.inodes.update(ino, DiskInodeInfo {
                    size: written_file(d, o, bv.take(k as int)).len() as u32,
                    ..old(root)@.inodes[ino]
                }),
            decreases bv.len() - k,
        {
            proof {
                lemma_total_len_take(bv, k as int);
                lemma_total_len_take_mono(bv, k as int + 1, bv.len() as int);
                assert(bv.take(bv.len() as int) =~= bv);
                lemma_concat_len(bv.take(k as int));
                assert(bv.take(k as int + 1).drop_last() =~= bv.take(k as int));
                let t = bv.take(k as int);
                let t1 = bv.take(k as int + 1);
                assert(t1.drop_last() =~= t);
                assert(t1.last() == bv[k as int]);
                assert(concat(t1) == concat(t) + bv[k as int]);
                if k > 0 {
                    lemma_spliced_append(d, o, concat(t), bv[k as int]);
                } else {
                    assert(concat(t) =~= Seq::<u8>::empty());
                    assert(concat(t1) =~= bv[0]);
                }
                assert(written_file(d, o, t1) == spliced(written_file(d, o, t), o + total, bv[k as int]));
            }
            assert(bufs@[k as int]@ == bv[k as int]);
            let w = root.write_at(self.ino, self.offset, &bufs[k]);
            self.offset = self.offset + w;
            total = total + w;
            k = k + 1;
            proof {
                assert(root@.contents =~= old(root)@.contents.update(ino, written_file(d, o, bv.take(k as int))));
                assert(root@.inodes =~= old(root)@.inodes.update(ino, DiskInodeInfo {
                    size: written_file(d, o, bv.take(k as int)).len() as u32,
                    ..old(root)@.inodes[ino]
                }));
            }
        }
        proof {
            assert(bv.take(bv.len() as int) =~= bv);
        }
        total
    }

    /// Reads the rest of the file, from the current offset to its end, and
    /// moves the offset there.
    pub fn read_all(&mut self, root: &RootDir) -> (v: Vec<u8>)
        requires
            root.wf(),
            old(self).ino < root@.inodes.len(),
        ensures
            v@ == file_rest(root@.contents[old(self).ino as int], old(self).offset as int),
            *final(self) == (OSInode {
                offset: if old(self).offset < root@.contents[old(self).ino as int].len() {
                    root@.contents[old(self).ino as int].len() as usize
                } else {
                    old(self).offset
                },
                ..*old(self)
            }),
    {
        let ghost d = root@.contents[self.ino as int];
        let ghost o = self.offset as int;
        let mut buffer: Vec<u8> = Vec::new();
        let mut i: usize = 0;
        while i < 512
            invariant
                i <= 512,
                buffer@.len() == i,
            decreases 512 - i,
        {
            buffer.push(0);
            i = i + 1;
        }
        let mut v: Vec<u8> = Vec::new();
        let mut done = false;
        while !done
            invariant
                root.wf(),
                self.ino < root@.inodes.len(),
                d == root@.contents[self.ino as int],
                d.len() <= u32::MAX,
                o == old(self).offset as int,
                buffer@.len() == 512,
                o < d.len() ==> o <= self.offset <= d.len(),
                o >= d.len() ==> self.offset == o,
                *self == (OSInode { offset: self.offset, ..*old(self) }),
                o < d.len() ==> v@ == d.subrange(o, self.offset as int),
                o >= d.len() ==> v@ == Seq::<u8>::empty(),
                done ==> self.offset >= d.len(),
            decreases (if self.offset < d.len() { d.len() - self.offset } else { 0 }) + (if done { 0int } else { 1int }),
        {
            let len = root.read_at(self.ino, self.offset, &mut buffer);
            if len == 0 {
                done = true;
            } else {
                let ghost before = v@;
                let mut j: usize = 0;
                while j < len
                    invariant
                        j <= len,
                        len <= buffer@.len(),
                        v@ == before + buffer@.subrange(0, j as int),
                    decreases len - j,
                {
                    v.push(buffer[j]);
                    j = j + 1;
                    assert(v@ =~= before + buffer@.subrange(0, j as int));
                }
                proof {
                    assert(self.offset < d.len());
                    assert(o < d.len());
                    assert(buffer@.subrange(0, len as int) =~= d.subrange(self.offset as int, self.offset + len));
                    assert(v@ =~= d.subrange(o, self.offset + len));
                }
                self.offset = self.offset + len;
            }
        }
        proof {
            if o < d.len() {
                assert(v@ =~= file_rest(d, o));
            }
        }
        v
    }
}

proof fn lemma_first_empty_exists_after(bufs: Seq<Seq<u8>>, k: int)
    requires
        0 <= k < bufs.len(),
        forall|q: int| 0 <= q <= k ==> #[trigger] bufs[q].len() > 0,
    ensures
        k < first_empty(bufs) <= bufs.len(),
        is_first_empty(bufs, first_empty(bufs)),
    decreases bufs.len() - k,
{
    if k + 1 == bufs.len() || bufs[k + 1].len() == 0 {
        assert(is_first_empty(bufs, k + 1));
        lemma_first_empty(bufs, k + 1);
    } else {
        lemma_first_empty_exists_after(bufs, k + 1);
    }
}

/// What is written can be read back: after `bufs` are written at `offset`,
/// the file from `offset` starts with their bytes, one piece after another.
pub proof fn lemma_read_after_write(data: Seq<u8>, offset: int, bufs: Seq<Seq<u8>>)
    requires
        0 <= offset,
    ensures
        file_rest(written_file(data, offset, bufs), offset).len() >= total_len(bufs),
        file_rest(written_file(data, offset, bufs), offset).take(total_len(bufs)) == concat(bufs),
{
    lemma_concat_len(bufs);
    lemma_total_len_nonneg(bufs);
    let c = concat(bufs);
    if bufs.len() == 0 {
        assert(c =~= Seq::<u8>::empty());
        assert(file_rest(written_file(data, offset, bufs), offset).take(0) =~= c);
    } else {
        let w = spliced(data, offset, c);
        if c.len() > 0 {
            assert(file_rest(w, offset).take(c.len() as int) =~= c);
        } else {
            assert(file_rest(w, offset).take(0) =~= c);
        }
    }
}

/// Writing pieces at `offset` grows the file to the end of what was written
/// when that is past its end and otherwise keeps its length; bytes outside
/// the written range keep their values.
pub proof fn lemma_written_file_shape(data: Seq<u8>, offset: int, bufs: Seq<Seq<u8>>)
    requires
        0 <= offset,
        bufs.len() > 0,
    ensures
        written_file(data, offset, bufs).len() == (if offset + total_len(bufs) > data.len() {
            offset + total_len(bufs)
        } else {
            data.len() as int
        }),
        forall|p: int| 0 <= p < data.len() && !(offset <= p < offset + total_len(bufs))
            ==> #[trigger] written_file(data, offset, bufs)[p] == data[p],
        forall|p: int| 0 <= p < total_len(bufs) ==> #[trigger] written_file(data, offset, bufs)[offset + p] == concat(bufs)[p],
{
    lemma_concat_len(bufs);
    lemma_spliced_shape(data, offset, concat(bufs));
}

} // verus!
