use vstd::prelude::*;

use core::marker::PhantomData;

use super::entry::{entry_huge, entry_present, entry_value, lemma_entry_bits, EntryFlags, PageTableEntry};
use super::mapper::Mapper;
use crate::memory::{Frame, MAX_FRAME_COUNT};

verus! {

/// Number of entries in a page table.
pub const ENTRIES_PER_TABLE: usize = 512;

/// A level of the page-table hierarchy.
pub trait Level {}

/// A level whose entries point to tables of the next level down.
pub trait TableLevel: Level {
    type NextLevel: Level;
}

/// The top level: each entry covers 512 GiB.
pub struct L4;
/// Each entry covers 1 GiB.
pub struct L3;
/// Each entry covers 2 MiB.
pub struct L2;
/// The bottom level: each entry maps a 4 KiB page.
pub struct L1;

impl Level for L4 {}
impl Level for L3 {}
impl Level for L2 {}
impl Level for L1 {}

impl TableLevel for L4 {
    type NextLevel = L3;
}

impl TableLevel for L3 {
    type NextLevel = L2;
}

impl TableLevel for L2 {
    type NextLevel = L1;
}

/// A page table of level `L`: [`ENTRIES_PER_TABLE`] entries.
pub struct PageTable<L: Level> {
    pub entries: Vec<PageTableEntry>,
    pub level: PhantomData<L>,
}

impl<L: Level> PageTable<L> {
    /// A table whose entries are all unused.
    pub fn new() -> (r: PageTable<L>)
        ensures
            r.entries.len() == ENTRIES_PER_TABLE,
            forall|i: int| 0 <= i < ENTRIES_PER_TABLE ==> #[trigger] r.entries[i].0 == 0,
    {
        let mut entries: Vec<PageTableEntry> = Vec::new();
        while entries.len() < ENTRIES_PER_TABLE
            invariant
                entries.len() <= ENTRIES_PER_TABLE,
                forall|i: int| 0 <= i < entries.len() ==> #[trigger] entries[i].0 == 0,
            decreases ENTRIES_PER_TABLE - entries.len(),
        {
            entries.push(PageTableEntry::new());
        }
        PageTable { entries, level: PhantomData }
    }

    /// Marks every entry unused.
    pub fn zero(&mut self)
        ensures
            final(self).entries.len() == old(self).entries.len(),
            forall|i: int| 0 <= i < final(self).entries.len() ==> #[trigger] final(self).entries[i].0 == 0,
    {
        let n = self.entries.len();
        let mut k: usize = 0;
        while k < n
            invariant
                k <= n,
                self.entries.len() == n,
                forall|i: int| 0 <= i < k ==> #[trigger] self.entries[i].0 == 0,
            decreases n - k,
        {
            self.entries.set(k, PageTableEntry::new());
            k = k + 1;
        }
    }
}

impl<L: TableLevel> PageTable<L> {
    /// The address at which the table that entry `index` points to is reached
    /// through the recursive mapping, for this table reached at `table_addr`:
    /// `table_addr << 9 | index << 12`. `None` unless the entry is present and
    /// does not map a huge page.
    pub fn next_table_addr(&self, table_addr: usize, index: usize) -> (r: Option<usize>)
        requires
            index < self.entries.len(),
            index < ENTRIES_PER_TABLE,
        ensures
            r == (if entry_present(self.entries[index as int].0) && !entry_huge(
                self.entries[index as int].0,
            ) {
                Some((table_addr << 9usize) | (index << 12usize))
            } else {
                None
            }),
    {
        let flags = self.entries[index].flags();
        proof {
            lemma_entry_bits(self.entries[index as int].0);
        }
        if flags.contains(EntryFlags(EntryFlags::PRESENT)) && !flags.contains(
            EntryFlags(EntryFlags::HUGE_PAGE),
        ) {
            Some((table_addr << 9usize) | (index << 12usize))
        } else {
            None
        }
    }
}

/// Byte position of entry `i` of the table of slot `k` in the flat entry array.
pub open spec fn flat_index(k: int, i: int) -> int {
    k * 512 + i
}

proof fn lemma_flat_index(k: int, i: int, n: int)
    requires
        0 <= k < n,
        0 <= i < 512,
    ensures
        0 <= flat_index(k, i) < n * 512,
        flat_index(k, i) / 512 == k,
        flat_index(k, i) % 512 == i,
{
    assert(0 <= k * 512 + i < n * 512) by (nonlinear_arith)
        requires 0 <= k < n, 0 <= i < 512;
    assert((k * 512 + i) / 512 == k) by (nonlinear_arith)
        requires 0 <= k, 0 <= i < 512;
    assert((k * 512 + i) % 512 == i) by (nonlinear_arith)
        requires 0 <= k, 0 <= i < 512;
}

/// The physical memory that holds page tables, keyed by frame index.
///
/// Reading a frame that holds no table gives zero entries; writing to it makes
/// it hold a table.
pub struct PageTableMemory {
    frames: Vec<u64>,
    entries: Vec<PageTableEntry>,
}

impl PageTableMemory {
    /// The internal invariant.
    pub closed spec fn wf(&self) -> bool {
        &&& self.entries.len() == self.frames.len() * 512
        &&& forall|a: int, b: int|
            0 <= a < b < self.frames.len() ==> #[trigger] self.frames[a] != #[trigger] self.frames[b]
    }

    /// Whether frame `f` holds a table.
    pub closed spec fn holds_table(&self, f: u64) -> bool {
        self.frames@.contains(f)
    }

    spec fn slot(&self, f: u64) -> int {
        choose|k: int| 0 <= k < self.frames.len() && self.frames[k] == f
    }

    /// Entry `i` of the table held in frame `f`.
    pub closed spec fn read(&self, f: u64, i: int) -> u64 {
        if self.holds_table(f) {
            self.entries[flat_index(self.slot(f), i)].0
        } else {
            0
        }
    }

    proof fn lemma_slot(&self, f: u64, k: int)
        requires
            self.wf(),
            0 <= k < self.frames.len(),
            self.frames[k] == f,
        ensures
            self.holds_table(f),
            self.slot(f) == k,
    {
        assert(self.frames@.contains(f));
        let s = self.slot(f);
        assert(0 <= s < self.frames.len() && self.frames[s] == f);
        if s < k {
            assert(self.frames[s] != self.frames[k]);
        } else if k < s {
            assert(self.frames[k] != self.frames[s]);
        }
    }

    /// Memory that holds no table.
    pub fn new() -> (r: PageTableMemory)
        ensures
            r.wf(),
            forall|f: u64| !#[trigger] r.holds_table(f),
            forall|f: u64, i: int| #[trigger] r.read(f, i) == 0,
    {
        PageTableMemory { frames: Vec::new(), entries: Vec::new() }
    }

    fn find(&self, f: u64) -> (r: Option<usize>)
        requires
            self.wf(),
        ensures
            match r {
                Some(k) => k < self.frames.len() && self.frames[k as int] == f && self.slot(f) == k,
                None => !self.holds_table(f),
            },
    {
        let mut k: usize = 0;
        while k < self.frames.len()
            invariant
                self.wf(),
                k <= self.frames.len(),
                forall|j: int| 0 <= j < k ==> self.frames[j] != f,
            decreases self.frames.len() - k,
        {
            if self.frames[k] == f {
                proof {
                    self.lemma_slot(f, k as int);
                }
                return Some(k);
            }
            k = k + 1;
        }
        None
    }

    /// The frames that hold tables.
    pub fn tables(&self) -> (r: Vec<u64>)
        requires
            self.wf(),
        ensures
            forall|f: u64| r@.contains(f) <==> self.holds_table(f),
            r@.no_duplicates(),
    {
        let mut out: Vec<u64> = Vec::new();
        let mut k: usize = 0;
        while k < self.frames.len()
            invariant
                self.wf(),
                k <= self.frames.len(),
                out@ == self.frames@.subrange(0, k as int),
            decreases self.frames.len() - k,
        {
            out.push(self.frames[k]);
            k = k + 1;
        }
        proof {
            assert(out@ == self.frames@);
        }
        out
    }

    /// Entry `i` of the table held in frame `f` (zero where `f` holds no table).
    pub fn read_entry(&self, f: u64, i: usize) -> (r: PageTableEntry)
        requires
            self.wf(),
            i < ENTRIES_PER_TABLE,
        ensures
            r.0 == self.read(f, i as int),
    {
        match self.find(f) {
            Some(k) => {
                proof {
                    lemma_flat_index(k as int, i as int, self.frames.len() as int);
                }
                self.entries[k * 512 + i]
            },
            None => PageTableEntry::new(),
        }
    }

    /// Makes frame `f` hold a table, all zero, if it holds none.
    fn ensure_table(&mut self, f: u64) -> (k: usize)
        requires
            old(self).wf(),
        ensures
            final(self).wf(),
            k < final(self).frames.len(),
            final(self).frames[k as int] == f,
            forall|g: u64| #[trigger] final(self).holds_table(g) == (old(self).holds_table(g) || g == f),
            forall|g: u64, j: int| 0 <= j < 512 ==> #[trigger] final(self).read(g, j) == old(self).read(g, j),
    {
        match self.find(f) {
            Some(k) => k,
            None => {
                let ghost old_self = *self;
                let n = self.frames.len();
                let mut c: usize = 0;
                while c < 512
                    invariant
                        c <= 512,
                        n == old_self.frames.len(),
                        self.frames == old_self.frames,
                        self.entries.len() == n * 512 + c,
                        forall|x: int| 0 <= x < n * 512 ==> #[trigger] self.entries[x] == old_self.entries[x],
                        forall|x: int| n * 512 <= x < n * 512 + c ==> #[trigger] self.entries[x].0 == 0,
                    decreases 512 - c,
                {
                    self.entries.push(PageTableEntry::new());
                    c = c + 1;
                }
                self.frames.push(f);
                proof {
                    assert forall|a: int, b: int|
                        0 <= a < b < self.frames.len() implies #[trigger] self.frames[a] != #[trigger] self.frames[b] by {
                        if b == n as int {
                            assert(old_self.frames[a] != f) by {
                                if old_self.frames[a] == f {
                                    assert(old_self.frames@.contains(f));
                                }
                            }
                        } else {
                            assert(old_self.frames[a] != old_self.frames[b]);
                        }
                    }
                    assert forall|g: u64| #[trigger] self.holds_table(g) == (old_self.holds_table(g) || g == f) by {
                        if old_self.frames@.contains(g) {
                            let j = choose|j: int| 0 <= j < old_self.frames.len() && old_self.frames[j] == g;
                            assert(self.frames[j] == g);
                        }
                        if self.frames@.contains(g) && g != f {
                            let j = choose|j: int| 0 <= j < self.frames.len() && self.frames[j] == g;
                            assert(old_self.frames[j] == g);
                        }
                        assert(self.frames[n as int] == f);
                    }
                    assert forall|g: u64, j: int| 0 <= j < 512 implies #[trigger] self.read(g, j) == old_self.read(g, j) by {
                        if g == f {
                            self.lemma_slot(f, n as int);
                            lemma_flat_index(n as int, j, n as int + 1);
                        } else if old_self.holds_table(g) {
                            let k = choose|k: int| 0 <= k < old_self.frames.len() && old_self.frames[k] == g;
                            old_self.lemma_slot(g, k);
                            self.lemma_slot(g, k);
                            lemma_flat_index(k, j, n as int);
                        }
                    }
                }
                n
            },
        }
    }

    /// Sets entry `i` of the table held in frame `f` to `e`; `f` holds a table
    /// afterwards.
    pub fn write_entry(&mut self, f: u64, i: usize, e: PageTableEntry)
        requires
            old(self).wf(),
            i < ENTRIES_PER_TABLE,
        ensures
            final(self).wf(),
            forall|g: u64| #[trigger] final(self).holds_table(g) == (old(self).holds_table(g) || g == f),
            forall|g: u64, j: int|
                0 <= j < 512 ==> #[trigger] final(self).read(g, j) == (if g == f && j == i {
                    e.0
                } else {
                    old(self).read(g, j)
                }),
    {
        let k = self.ensure_table(f);
        let ghost mid = *self;
        proof {
            lemma_flat_index(k as int, i as int, self.frames.len() as int);
        }
        self.entries.set(k * 512 + i, e);
        proof {
            assert(self.frames@ == mid.frames@);
            assert forall|g: u64| #[trigger] self.holds_table(g) == (old(self).holds_table(g) || g == f) by {
                assert(mid.holds_table(g) == (old(self).holds_table(g) || g == f));
            }
            assert forall|g: u64, j: int| 0 <= j < 512 implies #[trigger] self.read(g, j) == (if g == f && j == i {
                e.0
            } else {
                old(self).read(g, j)
            }) by {
                assert(mid.read(g, j) == old(self).read(g, j));
                mid.lemma_slot(f, k as int);
                self.lemma_slot(f, k as int);
                if mid.holds_table(g) {
                    let k2 = choose|k2: int| 0 <= k2 < mid.frames.len() && mid.frames[k2] == g;
                    mid.lemma_slot(g, k2);
                    self.lemma_slot(g, k2);
                    lemma_flat_index(k2, j, mid.frames.len() as int);
                    lemma_flat_index(k as int, i as int, mid.frames.len() as int);
                    if k2 != k {
                        assert(flat_index(k2, j) / 512 != flat_index(k as int, i as int) / 512);
                    }
                }
            }
        }
    }

    /// Sets every entry of the table held in frame `f` to zero; `f` holds a
    /// table afterwards.
    pub fn zero_table(&mut self, f: u64)
        requires
            old(self).wf(),
        ensures
            final(self).wf(),
            forall|g: u64| #[trigger] final(self).holds_table(g) == (old(self).holds_table(g) || g == f),
            forall|g: u64, j: int|
                0 <= j < 512 ==> #[trigger] final(self).read(g, j) == (if g == f {
                    0
                } else {
                    old(self).read(g, j)
                }),
    {
        let mut c: usize = 0;
        while c < ENTRIES_PER_TABLE
            invariant
                self.wf(),
                c <= 512,
                forall|g: u64| #[trigger] self.holds_table(g) == (old(self).holds_table(g) || (c > 0 && g == f)),
                forall|g: u64, j: int|
                    0 <= j < 512 ==> #[trigger] self.read(g, j) == (if g == f && j < c {
                        0
                    } else {
                        old(self).read(g, j)
                    }),
            decreases 512 - c,
        {
            self.write_entry(f, c, PageTableEntry::new());
            c = c + 1;
        }
        if c == 0 {
            self.ensure_table(f);
        }
    }
}

/// The page tables in use: a mapper over the tables rooted at the level-4
/// frame that the processor walks.
pub struct ActivePageTable {
    pub mapper: Mapper,
}

/// Page tables that are not in use, rooted at their level-4 frame.
#[derive(Debug, Clone, Copy, PartialEq, Eq)]
pub struct InactivePageTable {
    pub p4_frame: Frame,
}

/// The entry that the last slot of a level-4 table in `frame` holds: the
/// table itself, present and writable, so that the tables can reach
/// themselves through the recursive mapping.
pub open spec fn recursive_entry(frame: Frame) -> u64 {
    entry_value(frame, EntryFlags(EntryFlags::PRESENT | EntryFlags::WRITABLE))
}

impl InactivePageTable {
    /// Makes `frame` hold a fresh level-4 table: every entry unused but the
    /// last, which points back at the table.
    pub fn new(frame: Frame, active_tbl: &mut ActivePageTable) -> (r: InactivePageTable)
        requires
            old(active_tbl).mapper.memory.wf(),
            frame.0 < MAX_FRAME_COUNT,
        ensures
            r.p4_frame == frame,
            final(active_tbl).mapper.p4 == old(active_tbl).mapper.p4,
            final(active_tbl).mapper.memory.wf(),
            final(active_tbl).mapper.memory.holds_table(frame.0 as u64),
            forall|g: u64|
                #[trigger] final(active_tbl).mapper.memory.holds_table(g) == (old(
                    active_tbl,
                ).mapper.memory.holds_table(g) || g == frame.0 as u64),
            forall|g: u64, j: int|
                0 <= j < 512 ==> #[trigger] final(active_tbl).mapper.memory.read(g, j) == (if g
                    == frame.0 as u64 {
                    if j == 511 {
                        recursive_entry(frame)
                    } else {
                        0
                    }
                } else {
                    old(active_tbl).mapper.memory.read(g, j)
                }),
    {
        let f = frame.0 as u64;
        active_tbl.mapper.memory.zero_table(f);
        let mut entry = PageTableEntry::new();
        entry.set(frame, EntryFlags(EntryFlags::PRESENT | EntryFlags::WRITABLE));
        active_tbl.mapper.memory.write_entry(f, 511, entry);
        InactivePageTable { p4_frame: frame }
    }
}

impl ActivePageTable {
    /// The tables rooted at the level-4 table in `p4`, held in `memory`.
    pub fn new(p4: Frame, memory: PageTableMemory) -> (r: ActivePageTable)
        ensures
            r.mapper.p4 == p4.0 as u64,
            r.mapper.memory == memory,
    {
        ActivePageTable { mapper: Mapper::new(p4, memory) }
    }

    /// Makes `inactive_table` the tables in use and hands back the ones that
    /// were; the caller loads the new level-4 frame into the processor.
    pub fn switch_table(&mut self, inactive_table: InactivePageTable) -> (r: InactivePageTable)
        requires
            old(self).mapper.p4 <= usize::MAX,
        ensures
            r.p4_frame.0 as u64 == old(self).mapper.p4,
            final(self).mapper.p4 == inactive_table.p4_frame.0 as u64,
            final(self).mapper.memory == old(self).mapper.memory,
    {
        let old_table = InactivePageTable { p4_frame: Frame(self.mapper.p4 as usize) };
        self.mapper.p4 = inactive_table.p4_frame.0 as u64;
        old_table
    }

    /// Points the mapper at the tables of `table`, so that edits reach them
    /// while the processor keeps the tables in use; returns the level-4
    /// frame to give back to [`leave_inactive`](Self::leave_inactive).
    pub fn enter_inactive(&mut self, table: &InactivePageTable) -> (backup: u64)
        ensures
            backup == old(self).mapper.p4,
            final(self).mapper.p4 == table.p4_frame.0 as u64,
            final(self).mapper.memory == old(self).mapper.memory,
    {
        let backup = self.mapper.p4;
        self.mapper.p4 = table.p4_frame.0 as u64;
        backup
    }

    /// Points the mapper back at the tables in use, whose level-4 frame
    /// `enter_inactive` returned as `backup`; the edits made meanwhile stay.
    pub fn leave_inactive(&mut self, backup: u64)
        ensures
            final(self).mapper.p4 == backup,
            final(self).mapper.memory == old(self).mapper.memory,
    {
        self.mapper.p4 = backup;
    }
}

} // verus!
