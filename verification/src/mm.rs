//! A process's address space as its page table maps it: virtual page
//! numbers to physical frames with permission flags.
use vstd::prelude::*;
use std::collections::HashMap;

verus! {

broadcast use vstd::std_specs::hash::group_hash_axioms;

/// Bytes per page.
pub const PAGE_SIZE: usize = 4096;

/// Page table entry flag: valid.
pub const PTE_V: u8 = 1;
/// Page table entry flag: readable.
pub const PTE_R: u8 = 2;
/// Page table entry flag: writable.
pub const PTE_W: u8 = 4;
/// Page table entry flag: executable.
pub const PTE_X: u8 = 8;
/// Page table entry flag: reachable from user mode.
pub const PTE_U: u8 = 16;

/// A leaf page table entry: the physical frame and the flags.
#[derive(Copy, Clone, Debug, PartialEq, Eq, Structural)]
pub struct PageTableEntry {
    pub ppn: usize,
    pub flags: u8,
}

/// The mappings of an address space.
pub struct MemorySet {
    page_table: HashMap<usize, PageTableEntry>,
}

impl View for MemorySet {
    type V = Map<usize, PageTableEntry>;

    closed spec fn view(&self) -> Map<usize, PageTableEntry> {
        self.page_table@
    }
}

impl MemorySet {
    /// An address space with nothing mapped.
    pub fn new() -> (ms: Self)
        ensures
            ms@ == Map::<usize, PageTableEntry>::empty(),
    {
        MemorySet { page_table: HashMap::new() }
    }

    /// The entry that maps page `vpn`, if any.
    pub fn translate(&self, vpn: usize) -> (r: Option<PageTableEntry>)
        ensures
            r == (if self@.contains_key(vpn) { Some(self@[vpn]) } else { None::<PageTableEntry> }),
    {
        match self.page_table.get(&vpn) {
            Some(pte) => Some(*pte),
            None => None,
        }
    }

    /// Maps page `vpn` to frame `ppn` with `flags`.
    pub fn map(&mut self, vpn: usize, ppn: usize, flags: u8)
        ensures
            final(self)@ == old(self)@.insert(vpn, PageTableEntry { ppn, flags }),
    {
        self.page_table.insert(vpn, PageTableEntry { ppn, flags });
    }

    /// Removes the mapping of page `vpn`.
    pub fn unmap(&mut self, vpn: usize)
        ensures
            final(self)@ == old(self)@.remove(vpn),
    {
        self.page_table.remove(&vpn);
    }
}

/// Total number of bytes in `bufs`.
pub open spec fn total_len(bufs: Seq<Seq<u8>>) -> int
    decreases bufs.len(),
{
    if bufs.len() == 0 {
        0
    } else {
        total_len(bufs.drop_last()) + bufs.last().len()
    }
}

/// Buffer `b`, which starts at byte `off` of the whole, after `data` is laid
/// over the whole from its start.
pub open spec fn overlaid(b: Seq<u8>, off: int, data: Seq<u8>) -> Seq<u8> {
    Seq::new(b.len(), |p: int| if off + p < data.len() { data[off + p] } else { b[p] })
}

/// The buffers after `data` is copied into them in order, as far as they reach.
pub open spec fn written(bufs: Seq<Seq<u8>>, data: Seq<u8>) -> Seq<Seq<u8>> {
    Seq::new(bufs.len(), |k: int| overlaid(bufs[k], total_len(bufs.take(k)), data))
}

pub proof fn lemma_total_len_take(bufs: Seq<Seq<u8>>, k: int)
    requires
        0 <= k < bufs.len(),
    ensures
        total_len(bufs.take(k + 1)) == total_len(bufs.take(k)) + bufs[k].len(),
{
    assert(bufs.take(k + 1).drop_last() =~= bufs.take(k));
}

pub proof fn lemma_total_len_nonneg(bufs: Seq<Seq<u8>>)
    ensures
        total_len(bufs) >= 0,
    decreases bufs.len(),
{
    if bufs.len() > 0 {
        lemma_total_len_nonneg(bufs.drop_last());
    }
}


/// Adding pieces never lowers the total: `take(j)` holds no more than `take(k)`.
pub proof fn lemma_total_len_take_mono(bufs: Seq<Seq<u8>>, j: int, k: int)
    requires
        0 <= j <= k <= bufs.len(),
    ensures
        total_len(bufs.take(j)) <= total_len(bufs.take(k)),
    decreases k - j,
{
    if j < k {
        lemma_total_len_take(bufs, k - 1);
        lemma_total_len_take_mono(bufs, j, k - 1);
    }
}

/// The bytes of all pieces, one after the other.
pub open spec fn concat(bufs: Seq<Seq<u8>>) -> Seq<u8>
    decreases bufs.len(),
{
    if bufs.len() == 0 {
        Seq::empty()
    } else {
        concat(bufs.drop_last()) + bufs.last()
    }
}

pub proof fn lemma_concat_len(bufs: Seq<Seq<u8>>)
    ensures
        concat(bufs).len() == total_len(bufs),
    decreases bufs.len(),
{
    if bufs.len() > 0 {
        lemma_concat_len(bufs.drop_last());
    }
}

/// `e` is the position of the first empty piece, or the number of pieces
/// when none is empty.
pub open spec fn is_first_empty(bufs: Seq<Seq<u8>>, e: int) -> bool {
    &&& 0 <= e <= bufs.len()
    &&& e < bufs.len() ==> bufs[e].len() == 0
    &&& forall|q: int| 0 <= q < e ==> #[trigger] bufs[q].len() > 0
}

/// The position of the first empty piece, or the number of pieces.
pub open spec fn first_empty(bufs: Seq<Seq<u8>>) -> int {
    choose|e: int| is_first_empty(bufs, e)
}

proof fn lemma_first_empty_from(bufs: Seq<Seq<u8>>, i: int)
    requires
        0 <= i <= bufs.len(),
        forall|q: int| 0 <= q < i ==> #[trigger] bufs[q].len() > 0,
    ensures
        exists|e: int| is_first_empty(bufs, e),
    decreases bufs.len() - i,
{
    if i == bufs.len() || bufs[i].len() == 0 {
        assert(is_first_empty(bufs, i));
    } else {
        lemma_first_empty_from(bufs, i + 1);
    }
}

/// The first empty piece is where `first_empty` says, and nowhere else.
pub proof fn lemma_first_empty(bufs: Seq<Seq<u8>>, e: int)
    requires
        is_first_empty(bufs, e),
    ensures
        first_empty(bufs) == e,
{
    lemma_first_empty_from(bufs, 0);
    let f = first_empty(bufs);
    assert(is_first_empty(bufs, f));
    if f < e {
        assert(bufs[f].len() > 0);
    } else if e < f {
        assert(bufs[e].len() > 0);
    }
}

} // verus!
