//! The root directory as the file system calls see it: named entries that
//! point at inodes, and the link count, kind and size of every inode.
use vstd::prelude::*;

verus! {

/// Inode number of the root directory itself.
pub const ROOT_INO: u32 = 0;

/// What the file system keeps of an inode on disk.
#[derive(Copy, Clone, Debug, PartialEq, Eq, Structural)]
pub struct DiskInodeInfo {
    /// Number of directory entries that name the inode.
    pub nlink: u32,
    /// Whether the inode is a directory.
    pub is_dir: bool,
    /// Size of its data in bytes.
    pub size: u32,
}

/// A directory entry: a name and the inode it stands for.
pub struct DirEntry {
    pub name: Vec<u8>,
    pub inode_id: u32,
}

/// A directory entry as a value.
pub struct EntryView {
    pub name: Seq<u8>,
    pub ino: nat,
}

/// The root directory, the inode table and the file contents as values.
pub struct RootView {
    pub entries: Seq<EntryView>,
    pub inodes: Seq<DiskInodeInfo>,
    /// `contents[ino]`: the bytes of inode `ino`.
    pub contents: Seq<Seq<u8>>,
}

/// How many entries of `entries` name inode `ino`.
pub open spec fn count_links(entries: Seq<EntryView>, ino: nat) -> nat
    decreases entries.len(),
{
    if entries.len() == 0 {
        0
    } else {
        count_links(entries.drop_last(), ino) + (if entries.last().ino == ino { 1nat } else { 0nat })
    }
}

/// Some entry is called `name`.
pub open spec fn has_name(entries: Seq<EntryView>, name: Seq<u8>) -> bool {
    exists|i: int| 0 <= i < entries.len() && #[trigger] entries[i].name == name
}

/// The position of the entry called `name` (meaningful when there is one).
pub open spec fn index_of_name(entries: Seq<EntryView>, name: Seq<u8>) -> int {
    choose|i: int| 0 <= i < entries.len() && #[trigger] entries[i].name == name
}

/// The inode that `name` stands for, if any entry is called so.
pub open spec fn lookup(entries: Seq<EntryView>, name: Seq<u8>) -> Option<nat> {
    if has_name(entries, name) {
        Some(entries[index_of_name(entries, name)].ino)
    } else {
        None
    }
}

/// No two entries share a name.
pub open spec fn names_unique(entries: Seq<EntryView>) -> bool {
    forall|i: int, j: int|
        0 <= i < entries.len() && 0 <= j < entries.len() && i != j ==> #[trigger] entries[i].name != #[trigger] entries[j].name
}

/// `entries` with the entry at `i` replaced by the last one, and the last
/// slot dropped: how an entry leaves the directory.
pub open spec fn swap_removed(entries: Seq<EntryView>, i: int) -> Seq<EntryView> {
    entries.update(i, entries.last()).drop_last()
}

impl RootView {
    /// The directory is consistent: inode 0 is the root directory, entries
    /// name other existing inodes under distinct names, the link count of
    /// every inode is the number of entries that name it, and its size is
    /// the length of its contents.
    pub open spec fn wf(self) -> bool {
        &&& 1 <= self.inodes.len() <= u32::MAX
        &&& self.contents.len() == self.inodes.len()
        &&& forall|ino: int| 0 <= ino < self.inodes.len() ==> #[trigger] self.contents[ino].len() == self.inodes[ino].size
        &&& self.inodes[0].is_dir
        &&& forall|i: int| 0 <= i < self.entries.len() ==> 1 <= #[trigger] self.entries[i].ino < self.inodes.len()
        &&& names_unique(self.entries)
        &&& forall|ino: int| 1 <= ino < self.inodes.len() ==> #[trigger] self.inodes[ino].nlink == count_links(self.entries, ino as nat)
    }
}

/// The root directory with its inode table.
pub struct RootDir {
    entries: Vec<DirEntry>,
    inodes: Vec<DiskInodeInfo>,
    contents: Vec<Vec<u8>>,
}

pub open spec fn entry_view(e: DirEntry) -> EntryView {
    EntryView { name: e.name@, ino: e.inode_id as nat }
}

impl View for RootDir {
    type V = RootView;

    closed spec fn view(&self) -> RootView {
        RootView {
            entries: self.entries@.map_values(|e: DirEntry| entry_view(e)),
            inodes: self.inodes@,
            contents: self.contents@.map_values(|c: Vec<u8>| c@),
        }
    }
}

/// Whether two names are equal, byte by byte.
pub fn name_eq(a: &Vec<u8>, b: &Vec<u8>) -> (r: bool)
    ensures
        r == (a@ == b@),
{
    if a.len() != b.len() {
        return false;
    }
    let mut i: usize = 0;
    while i < a.len()
        invariant
            a.len() == b.len(),
            i <= a.len(),
            forall|k: int| 0 <= k < i ==> a@[k] == b@[k],
        decreases a.len() - i,
    {
        if a[i] != b[i] {
            return false;
        }
        i = i + 1;
    }
    assert(a@ =~= b@);
    true
}

fn copy_name(name: &Vec<u8>) -> (r: Vec<u8>)
    ensures
        r@ == name@,
{
    let mut r: Vec<u8> = Vec::new();
    let mut i: usize = 0;
    while i < name.len()
        invariant
            i <= name.len(),
            r@ == name@.take(i as int),
        decreases name.len() - i,
    {
        r.push(name[i]);
        i = i + 1;
        assert(r@ =~= name@.take(i as int));
    }
    assert(name@.take(name.len() as int) =~= name@);
    r
}

pub proof fn lemma_count_links_update(entries: Seq<EntryView>, i: int, e: EntryView, ino: nat)
    requires
        0 <= i < entries.len(),
    ensures
        count_links(entries.update(i, e), ino) + (if entries[i].ino == ino { 1nat } else { 0nat })
            == count_links(entries, ino) + (if e.ino == ino { 1nat } else { 0nat }),
    decreases entries.len(),
{
    let u = entries.update(i, e);
    if i == entries.len() - 1 {
        assert(u.drop_last() =~= entries.drop_last());
    } else {
        assert(u.drop_last() =~= entries.drop_last().update(i, e));
        lemma_count_links_update(entries.drop_last(), i, e, ino);
    }
}

pub proof fn lemma_count_links_push(entries: Seq<EntryView>, e: EntryView, ino: nat)
    ensures
        count_links(entries.push(e), ino) == count_links(entries, ino) + (if e.ino == ino { 1nat } else { 0nat }),
{
    assert(entries.push(e).drop_last() =~= entries);
}

pub proof fn lemma_count_links_le_len(entries: Seq<EntryView>, ino: nat)
    ensures
        count_links(entries, ino) <= entries.len(),
    decreases entries.len(),
{
    if entries.len() > 0 {
        lemma_count_links_le_len(entries.drop_last(), ino);
    }
}

/// The entry at `i` names the inode, so it counts one link.
pub proof fn lemma_count_links_pos(entries: Seq<EntryView>, i: int)
    requires
        0 <= i < entries.len(),
    ensures
        count_links(entries, entries[i].ino) >= 1,
    decreases entries.len(),
{
    if i < entries.len() - 1 {
        lemma_count_links_pos(entries.drop_last(), i);
    }
}

/// Removing the entry at `i` by swapping in the last one takes exactly one
/// link from the inode it named.
pub proof fn lemma_count_links_swap_removed(entries: Seq<EntryView>, i: int, ino: nat)
    requires
        0 <= i < entries.len(),
    ensures
        count_links(swap_removed(entries, i), ino) + (if entries[i].ino == ino { 1nat } else { 0nat })
            == count_links(entries, ino),
{
    let last = entries.last();
    let u = entries.update(i, last);
    lemma_count_links_update(entries, i, last, ino);
    assert(u.last() == last);
}

impl RootDir {
    /// Well-formedness of the directory (see `RootView::wf`).
    pub open spec fn wf(&self) -> bool {
        self@.wf()
    }

    /// A directory that holds nothing but the root inode.
    pub fn new() -> (d: Self)
        ensures
            d.wf(),
            d@.entries == Seq::<EntryView>::empty(),
            d@.inodes == seq![DiskInodeInfo { nlink: 1, is_dir: true, size: 0 }],
            d@.contents == seq![Seq::<u8>::empty()],
    {
        let mut inodes: Vec<DiskInodeInfo> = Vec::new();
        inodes.push(DiskInodeInfo { nlink: 1, is_dir: true, size: 0 });
        let mut contents: Vec<Vec<u8>> = Vec::new();
        contents.push(Vec::new());
        let d = RootDir { entries: Vec::new(), inodes, contents };
        assert(d@.contents =~= seq![Seq::<u8>::empty()]);
        assert(d@.entries =~= Seq::<EntryView>::empty());
        assert(d@.inodes =~= seq![DiskInodeInfo { nlink: 1, is_dir: true, size: 0 }]);
        d
    }

    /// Position of the entry called `name`.
    pub fn find_index(&self, name: &Vec<u8>) -> (r: Option<usize>)
        ensures
            r is None <==> !has_name(self@.entries, name@),
            r matches Some(i) ==> i < self@.entries.len() && self@.entries[i as int].name == name@,
            r matches Some(i) ==> forall|k: int| 0 <= k < i ==> #[trigger] self@.entries[k].name != name@,
    {
        let mut i: usize = 0;
        while i < self.entries.len()
            invariant
                i <= self.entries.len(),
                forall|k: int| 0 <= k < i ==> #[trigger] self@.entries[k].name != name@,
            decreases self.entries.len() - i,
        {
            assert(self@.entries[i as int] == entry_view(self.entries@[i as int]));
            if name_eq(&self.entries[i].name, name) {
                assert(self@.entries[i as int].name == name@);
                return Some(i);
            }
            i = i + 1;
        }
        None
    }

    /// The inode that `name` stands for.
    pub fn find(&self, name: &Vec<u8>) -> (r: Option<u32>)
        requires
            self.wf(),
        ensures
            r is Some <==> has_name(self@.entries, name@),
            r matches Some(ino) ==> lookup(self@.entries, name@) == Some(ino as nat),
    {
        match self.find_index(name) {
            Some(i) => {
                proof {
                    let j = index_of_name(self@.entries, name@);
                    assert(self@.entries[j].name == name@);
                    assert(i == j);
                }
                assert(self@.entries[i as int] == entry_view(self.entries@[i as int]));
                Some(self.entries[i].inode_id)
            },
            None => None,
        }
    }

    /// The stored information of inode `ino`.
    pub fn inode(&self, ino: u32) -> (r: DiskInodeInfo)
        requires
            ino < self@.inodes.len(),
        ensures
            r == self@.inodes[ino as int],
    {
        self.inodes[ino as usize]
    }

    /// The inode that the entry at `i` names.
    pub fn inode_id_at(&self, i: usize) -> (r: u32)
        requires
            i < self@.entries.len(),
        ensures
            r == self@.entries[i as int].ino,
    {
        assert(self@.entries[i as int] == entry_view(self.entries@[i as int]));
        self.entries[i].inode_id
    }

    /// Number of inodes in the table.
    pub fn inode_count(&self) -> (r: usize)
        ensures
            r == self@.inodes.len(),
    {
        self.inodes.len()
    }

    /// The names of the directory's entries, in order.
    pub fn ls(&self) -> (names: Vec<Vec<u8>>)
        ensures
            names@.len() == self@.entries.len(),
            forall|i: int| 0 <= i < names@.len() ==> #[trigger] names@[i]@ == self@.entries[i].name,
    {
        let mut names: Vec<Vec<u8>> = Vec::new();
        let mut i: usize = 0;
        while i < self.entries.len()
            invariant
                i <= self.entries.len(),
                names@.len() == i,
                forall|k: int| 0 <= k < i ==> #[trigger] names@[k]@ == self@.entries[k].name,
            decreases self.entries.len() - i,
        {
            assert(self@.entries[i as int] == entry_view(self.entries@[i as int]));
            names.push(copy_name(&self.entries[i].name));
            i = i + 1;
        }
        names
    }

    /// Number of entries in the directory.
    pub fn entry_count(&self) -> (r: usize)
        ensures
            r == self@.entries.len(),
    {
        self.entries.len()
    }

    /// Sets the link count of inode `ino`.
    pub(crate) fn set_nlink(&mut self, ino: u32, nlink: u32)
        requires
            ino < old(self)@.inodes.len(),
        ensures
            final(self)@.entries == old(self)@.entries,
            final(self)@.contents == old(self)@.contents,
            final(self)@.inodes == old(self)@.inodes.update(ino as int, DiskInodeInfo { nlink, ..old(self)@.inodes[ino as int] }),
    {
        let info = self.inodes[ino as usize];
        self.inodes.set(ino as usize, DiskInodeInfo { nlink, ..info });
    }

    /// Drops the data of inode `ino`: its size becomes zero.
    pub(crate) fn truncate(&mut self, ino: u32)
        requires
            ino < old(self)@.inodes.len(),
            old(self)@.contents.len() == old(self)@.inodes.len(),
        ensures
            final(self)@.entries == old(self)@.entries,
            final(self)@.contents == old(self)@.contents.update(ino as int, Seq::<u8>::empty()),
            final(self)@.inodes == old(self)@.inodes.update(ino as int, DiskInodeInfo { size: 0, ..old(self)@.inodes[ino as int] }),
    {
        let info = self.inodes[ino as usize];
        self.inodes.set(ino as usize, DiskInodeInfo { size: 0, ..info });
        self.contents.set(ino as usize, Vec::new());
        assert(self@.contents =~= old(self)@.contents.update(ino as int, Seq::<u8>::empty()));
    }

    /// Adds an entry called `name` for inode `ino` at the end of the directory.
    pub(crate) fn push_entry(&mut self, name: &Vec<u8>, ino: u32)
        ensures
            final(self)@.entries == old(self)@.entries.push(EntryView { name: name@, ino: ino as nat }),
            final(self)@.inodes == old(self)@.inodes,
            final(self)@.contents == old(self)@.contents,
    {
        let n = copy_name(name);
        self.entries.push(DirEntry { name: n, inode_id: ino });
        assert(self@.entries =~= old(self)@.entries.push(EntryView { name: name@, ino: ino as nat }));
    }

    /// Removes the entry at `i`: the last entry takes its place.
    pub(crate) fn swap_remove_entry(&mut self, i: usize)
        requires
            i < old(self)@.entries.len(),
        ensures
            final(self)@.entries == swap_removed(old(self)@.entries, i as int),
            final(self)@.inodes == old(self)@.inodes,
            final(self)@.contents == old(self)@.contents,
    {
        let ghost before = self.entries@;
        let last = self.entries.len() - 1;
        if i != last {
            let e = self.entries.pop().unwrap();
            let mut e2 = e;
            self.entries.set_and_swap(i, &mut e2);
        } else {
            self.entries.pop();
        }
        proof {
            let old_v = before.map_values(|e: DirEntry| entry_view(e));
            assert(old_v.last() == entry_view(before[last as int]));
            assert(self@.entries =~= swap_removed(old_v, i as int));
        }
    }

    /// Adds a new file inode with one link, size zero; returns its number.
    pub(crate) fn push_inode(&mut self) -> (ino: u32)
        requires
            old(self)@.inodes.len() < u32::MAX,
        ensures
            ino == old(self)@.inodes.len(),
            final(self)@.entries == old(self)@.entries,
            final(self)@.inodes == old(self)@.inodes.push(DiskInodeInfo { nlink: 1, is_dir: false, size: 0 }),
            final(self)@.contents == old(self)@.contents.push(Seq::<u8>::empty()),
    {
        let ino = self.inodes.len() as u32;
        self.inodes.push(DiskInodeInfo { nlink: 1, is_dir: false, size: 0 });
        self.contents.push(Vec::new());
        assert(self@.contents =~= old(self)@.contents.push(Seq::<u8>::empty()));
        ino
    }

    /// Empties inode `ino`: its data is dropped and its size becomes zero.
    pub fn clear(&mut self, ino: u32)
        requires
            old(self).wf(),
            1 <= ino < old(self)@.inodes.len(),
        ensures
            final(self).wf(),
            final(self)@.entries == old(self)@.entries,
            final(self)@.inodes == old(self)@.inodes.update(ino as int, DiskInodeInfo { size: 0, ..old(self)@.inodes[ino as int] }),
            final(self)@.contents == old(self)@.contents.update(ino as int, Seq::<u8>::empty()),
    {
        self.truncate(ino);
    }
}

impl RootDir {
    /// Creates an empty file called `name`: a new inode with one link and
    /// an entry for it at the end of the directory. Returns the inode.
    pub fn create(&mut self, name: &Vec<u8>) -> (ino: u32)
        requires
            old(self).wf(),
            old(self)@.inodes.len() < u32::MAX,
            !has_name(old(self)@.entries, name@),
        ensures
            final(self).wf(),
            ino == old(self)@.inodes.len(),
            final(self)@.entries == old(self)@.entries.push(EntryView { name: name@, ino: ino as nat }),
            final(self)@.inodes == old(self)@.inodes.push(DiskInodeInfo { nlink: 1, is_dir: false, size: 0 }),
            final(self)@.contents == old(self)@.contents.push(Seq::<u8>::empty()),
            lookup(final(self)@.entries, name@) == Some(ino as nat),
    {
        let ghost v = self@;
        let ino = self.push_inode();
        self.push_entry(name, ino);
        proof {
            let w = self@;
            let e = EntryView { name: name@, ino: ino as nat };
            assert forall|k: int| 1 <= k < w.inodes.len() implies #[trigger] w.inodes[k].nlink == count_links(w.entries, k as nat) by {
                lemma_count_links_push(v.entries, e, k as nat);
                if k < v.inodes.len() {
                    assert(w.inodes[k] == v.inodes[k]);
                } else {
                    assert forall|p: int| 0 <= p < v.entries.len() implies #[trigger] v.entries[p].ino != k by {}
                    lemma_count_links_absent(v.entries, k as nat);
                }
            }
            let last = v.entries.len() as int;
            assert forall|p: int, q: int| 0 <= p < w.entries.len() && 0 <= q < w.entries.len() && p != q
                implies #[trigger] w.entries[p].name != #[trigger] w.entries[q].name by {
                if p == last {
                    assert(v.entries[q].name != name@);
                } else if q == last {
                    assert(v.entries[p].name != name@);
                }
            }
            assert(w.wf());
            assert(w.entries[last].name == name@);
            let j = index_of_name(w.entries, name@);
            assert(w.entries[j].name == name@);
            assert(j == last);
        }
        ino
    }
}

/// An inode that no entry names has no links.
pub proof fn lemma_count_links_absent(entries: Seq<EntryView>, ino: nat)
    requires
        forall|p: int| 0 <= p < entries.len() ==> #[trigger] entries[p].ino != ino,
    ensures
        count_links(entries, ino) == 0,
    decreases entries.len(),
{
    if entries.len() > 0 {
        assert(entries.last().ino != ino);
        lemma_count_links_absent(entries.drop_last(), ino);
    }
}

/// What reading at most `len` bytes at `offset` gives of `data`.
pub open spec fn read_range(data: Seq<u8>, offset: int, len: int) -> Seq<u8> {
    if offset >= data.len() {
        Seq::empty()
    } else if offset + len < data.len() {
        data.subrange(offset, offset + len)
    } else {
        data.subrange(offset, data.len() as int)
    }
}

/// `data` after `buf` is written at `offset`: it grows as needed, and a
/// gap between its old end and `offset` reads as zeros.
pub open spec fn spliced(data: Seq<u8>, offset: int, buf: Seq<u8>) -> Seq<u8> {
    let end = offset + buf.len();
    let new_len = if end > data.len() { end } else { data.len() as int };
    Seq::new(new_len as nat, |p: int| if offset <= p < end { buf[p - offset] } else if p < data.len() { data[p] } else { 0u8 })
}

/// Writing `buf` at `offset`: the data grows to `offset + |buf|` when that
/// is past its end and otherwise keeps its length; `buf` lands at `offset`,
/// the bytes outside it keep their values, and a gap reads as zeros.
pub proof fn lemma_spliced_shape(data: Seq<u8>, offset: int, buf: Seq<u8>)
    requires
        0 <= offset,
    ensures
        spliced(data, offset, buf).len() == (if offset + buf.len() > data.len() { offset + buf.len() } else { data.len() as int }),
        forall|p: int| 0 <= p < buf.len() ==> #[trigger] spliced(data, offset, buf)[offset + p] == buf[p],
        forall|p: int| 0 <= p < data.len() && !(offset <= p < offset + buf.len()) ==> #[trigger] spliced(data, offset, buf)[p] == data[p],
        forall|p: int| data.len() <= p < offset ==> #[trigger] spliced(data, offset, buf)[p] == 0u8,
{
}

/// Writing `a` at `o` and then `b` right after it is writing `a + b` at `o`.
pub proof fn lemma_spliced_append(data: Seq<u8>, o: int, a: Seq<u8>, b: Seq<u8>)
    requires
        0 <= o,
    ensures
        spliced(spliced(data, o, a), o + a.len(), b) == spliced(data, o, a + b),
{
    let l = spliced(spliced(data, o, a), o + a.len(), b);
    let r = spliced(data, o, a + b);
    assert(l.len() == r.len());
    assert forall|p: int| 0 <= p < l.len() implies l[p] == r[p] by {
        if o + a.len() <= p < o + a.len() + b.len() {
            assert((a + b)[p - o] == b[p - o - a.len()]);
        } else if o <= p < o + a.len() {
            assert((a + b)[p - o] == a[p - o]);
        }
    }
    assert(l =~= r);
}

impl RootDir {
    /// Reads inode `ino` from `offset` into the front of `buf`, as far as
    /// `buf` and the file reach. Returns the number of bytes read.
    pub fn read_at(&self, ino: u32, offset: usize, buf: &mut Vec<u8>) -> (n: usize)
        requires
            self.wf(),
            ino < self@.inodes.len(),
        ensures
            n == read_range(self@.contents[ino as int], offset as int, old(buf)@.len() as int).len(),
            final(buf)@.len() == old(buf)@.len(),
            final(buf)@ == read_range(self@.contents[ino as int], offset as int, old(buf)@.len() as int) + old(buf)@.subrange(n as int, old(buf)@.len() as int),
    {
        let ghost d = self@.contents[ino as int];
        assert(self.contents@[ino as int]@ == d);
        let data = &self.contents[ino as usize];
        let mut n: usize = 0;
        if offset < data.len() {
            let avail = data.len() - offset;
            n = if buf.len() < avail { buf.len() } else { avail };
        }
        let mut i: usize = 0;
        while i < n
            invariant
                data@ == d,
                d.len() <= usize::MAX,
                i <= n,
                n <= buf@.len(),
                buf@.len() == old(buf)@.len(),
                n > 0 ==> offset + n <= d.len(),
                forall|p: int| 0 <= p < i ==> #[trigger] buf@[p] == d[offset + p],
                forall|p: int| i <= p < buf@.len() ==> #[trigger] buf@[p] == old(buf)@[p],
            decreases n - i,
        {
            buf.set(i, data[offset + i]);
            i = i + 1;
        }
        let ghost rr = read_range(d, offset as int, old(buf)@.len() as int);
        assert(rr.len() == n);
        assert(buf@ =~= rr + old(buf)@.subrange(n as int, old(buf)@.len() as int));
        n
    }

    /// Writes `buf` into inode `ino` at `offset`, growing the file as
    /// needed. Returns the number of bytes written: all of `buf`.
    pub fn write_at(&mut self, ino: u32, offset: usize, buf: &Vec<u8>) -> (n: usize)
        requires
            old(self).wf(),
            ino < old(self)@.inodes.len(),
            offset + buf@.len() <= u32::MAX,
        ensures
            final(self).wf(),
            n == buf@.len(),
            final(self)@.entries == old(self)@.entries,
            final(self)@.contents == old(self)@.contents.update(ino as int, spliced(old(self)@.contents[ino as int], offset as int, buf@)),
            final(self)@.inodes == old(self)@.inodes.update(ino as int, DiskInodeInfo {
                size: spliced(old(self)@.contents[ino as int], offset as int, buf@).len() as u32,
                ..old(self)@.inodes[ino as int]
            }),
            final(self)@.contents[ino as int].len() == (if offset + buf@.len() > old(self)@.contents[ino as int].len() {
                offset + buf@.len()
            } else {
                old(self)@.contents[ino as int].len() as int
            }),
            forall|p: int| 0 <= p < buf@.len() ==> #[trigger] final(self)@.contents[ino as int][offset + p] == buf@[p],
            forall|p: int| 0 <= p < old(self)@.contents[ino as int].len() && !(offset <= p < offset + buf@.len())
                ==> #[trigger] final(self)@.contents[ino as int][p] == old(self)@.contents[ino as int][p],
            forall|p: int| old(self)@.contents[ino as int].len() <= p < offset
                ==> #[trigger] final(self)@.contents[ino as int][p] == 0u8,
    {
        proof {
            lemma_spliced_shape(self@.contents[ino as int], offset as int, buf@);
        }
        let ghost d = self@.contents[ino as int];
        let mut data: Vec<u8> = Vec::new();
        self.contents.set_and_swap(ino as usize, &mut data);
        assert(data@ == d);
        assert(d.len() <= usize::MAX);
        let end = offset + buf.len();
        while data.len() < end
            invariant
                d.len() <= data@.len(),
                data@.len() <= d.len() || data@.len() <= end,
                forall|p: int| 0 <= p < d.len() ==> #[trigger] data@[p] == d[p],
                forall|p: int| d.len() <= p < data@.len() ==> #[trigger] data@[p] == 0u8,
            decreases end - data.len(),
        {
            data.push(0);
        }
        let mut i: usize = 0;
        while i < buf.len()
            invariant
                end == offset + buf@.len(),
                data@.len() == spliced(d, offset as int, buf@).len(),
                i <= buf@.len(),
                forall|p: int| 0 <= p < data@.len() && !(offset <= p < offset + i) ==> #[trigger] data@[p] == (if p < d.len() { d[p] } else { 0u8 }),
                forall|p: int| offset <= p < offset + i ==> #[trigger] data@[p] == buf@[p - offset],
            decreases buf.len() - i,
        {
            data.set(offset + i, buf[i]);
            i = i + 1;
        }
        assert(data@ =~= spliced(d, offset as int, buf@));
        let size = data.len() as u32;
        self.contents.set_and_swap(ino as usize, &mut data);
        let info = self.inodes[ino as usize];
        self.inodes.set(ino as usize, DiskInodeInfo { size, ..info });
        proof {
            assert(self@.contents =~= old(self)@.contents.update(ino as int, spliced(d, offset as int, buf@)));
        }
        buf.len()
    }
}

} // verus!
