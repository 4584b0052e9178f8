use vstd::prelude::*;

use crate::memory::{Frame, FrameAllocator, MAX_FRAME_COUNT};

use super::entry::{
    entry_address, entry_frame, entry_huge, entry_present, entry_value, lemma_entry_value,
    lemma_entry_bits, lemma_zero_entry, EntryFlags, PageTableEntry, KNOWN_FLAGS_MASK, PHYSICAL_ADDRESS_MASK,
};
use super::table::{PageTableMemory, ENTRIES_PER_TABLE};
use super::{table_index, PhysicalAddress, VirtualAddress};

verus! {

/// Why a mapping could not be made.
#[derive(Debug, Clone, Copy, PartialEq, Eq)]
pub enum MapError {
    /// The frame allocator had no frame for a missing page table.
    OutOfMemory,
}

/// The table that entry `index` of the table in frame `table` points to: the
/// entry must be present and must not map a huge page.
pub open spec fn next_table_frame(mem: PageTableMemory, table: u64, index: int) -> Option<u64> {
    let e = mem.read(table, index);
    if entry_present(e) && !entry_huge(e) {
        Some(entry_frame(e))
    } else {
        None
    }
}

/// The level-3 table on the walk of `page` from the level-4 table `p4`.
pub open spec fn walk_l3(mem: PageTableMemory, p4: u64, page: u64) -> Option<u64> {
    next_table_frame(mem, p4, table_index(page, 4) as int)
}

/// The level-2 table on the walk of `page`.
pub open spec fn walk_l2(mem: PageTableMemory, p4: u64, page: u64) -> Option<u64> {
    match walk_l3(mem, p4, page) {
        Some(t) => next_table_frame(mem, t, table_index(page, 3) as int),
        None => None,
    }
}

/// The level-1 table on the walk of `page`.
pub open spec fn walk_l1(mem: PageTableMemory, p4: u64, page: u64) -> Option<u64> {
    match walk_l2(mem, p4, page) {
        Some(t) => next_table_frame(mem, t, table_index(page, 2) as int),
        None => None,
    }
}

/// The frame that a 4 KiB mapping gives `page`.
pub open spec fn small_page_frame(mem: PageTableMemory, p4: u64, page: u64) -> Option<u64> {
    match walk_l1(mem, p4, page) {
        Some(t) => {
            let e = mem.read(t, table_index(page, 1) as int);
            if entry_present(e) {
                Some(entry_frame(e))
            } else {
                None
            }
        },
        None => None,
    }
}

/// The frame that a 1 GiB or 2 MiB mapping gives `page`.
pub open spec fn huge_page_frame(mem: PageTableMemory, p4: u64, page: u64) -> Option<u64> {
    match walk_l3(mem, p4, page) {
        Some(t3) => {
            let e3 = mem.read(t3, table_index(page, 3) as int);
            if entry_present(e3) && entry_huge(e3) {
                Some(
                    (entry_frame(e3) + table_index(page, 2) * 512 + table_index(
                        page,
                        1,
                    )) as u64,
                )
            } else {
                match walk_l2(mem, p4, page) {
                    Some(t2) => {
                        let e2 = mem.read(t2, table_index(page, 2) as int);
                        if entry_present(e2) && entry_huge(e2) {
                            Some((entry_frame(e2) + table_index(page, 1)) as u64)
                        } else {
                            None
                        }
                    },
                    None => None,
                }
            }
        },
        None => None,
    }
}

/// The physical address that `page` translates to, if it is mapped.
pub open spec fn mapped_address(mem: PageTableMemory, p4: u64, page: u64) -> Option<u64> {
    let f = if small_page_frame(mem, p4, page) is Some {
        small_page_frame(mem, p4, page)
    } else {
        huge_page_frame(mem, p4, page)
    };
    match f {
        Some(frame) => Some((frame * 4096) as u64),
        None => None,
    }
}

/// Huge mappings met while translating `page` start at an address aligned to
/// their size.
pub open spec fn huge_pages_aligned(mem: PageTableMemory, p4: u64, page: u64) -> bool {
    small_page_frame(mem, p4, page) is None ==> {
        &&& (walk_l3(mem, p4, page) matches Some(t3) ==> {
            let e3 = mem.read(t3, table_index(page, 3) as int);
            entry_present(e3) && entry_huge(e3) ==> (entry_frame(e3) * 4096) % 0x4000_0000 == 0
        })
        &&& (walk_l2(mem, p4, page) matches Some(t2) ==> {
            let e2 = mem.read(t2, table_index(page, 2) as int);
            entry_present(e2) && entry_huge(e2) ==> (entry_frame(e2) * 4096) % 0x20_0000 == 0
        })
    }
}

/// Whether frame `f` holds one of the tables on the walk of `page`.
pub open spec fn on_walk(mem: PageTableMemory, p4: u64, page: u64, f: u64) -> bool {
    ||| f == p4
    ||| walk_l3(mem, p4, page) == Some(f)
    ||| walk_l2(mem, p4, page) == Some(f)
    ||| walk_l1(mem, p4, page) == Some(f)
}

/// The tables on the walk of `page` lie in distinct frames.
pub open spec fn walk_distinct(mem: PageTableMemory, p4: u64, page: u64) -> bool {
    &&& (walk_l3(mem, p4, page) matches Some(t3) ==> t3 != p4)
    &&& (walk_l2(mem, p4, page) matches Some(t2) ==> t2 != p4 && Some(t2) != walk_l3(mem, p4, page))
    &&& (walk_l1(mem, p4, page) matches Some(t1) ==> t1 != p4 && Some(t1) != walk_l3(mem, p4, page)
        && Some(t1) != walk_l2(mem, p4, page))
}

/// `page` can be mapped without meeting a huge page on the way, and its
/// level-1 entry, where it exists, is unused.
pub open spec fn can_map(mem: PageTableMemory, p4: u64, page: u64) -> bool {
    &&& !entry_huge(mem.read(p4, table_index(page, 4) as int))
    &&& (walk_l3(mem, p4, page) matches Some(t3) ==> !entry_huge(
        mem.read(t3, table_index(page, 3) as int),
    ))
    &&& (walk_l2(mem, p4, page) matches Some(t2) ==> !entry_huge(
        mem.read(t2, table_index(page, 2) as int),
    ))
    &&& (walk_l1(mem, p4, page) matches Some(t1) ==> mem.read(t1, table_index(page, 1) as int) == 0)
}

/// No frame that the allocator may hand out holds a table on the walk of
/// `page`.
pub open spec fn free_frames_off_walk(
    mem: PageTableMemory,
    p4: u64,
    page: u64,
    free: Set<usize>,
) -> bool {
    forall|f: usize| #[trigger] free.contains(f) ==> !on_walk(mem, p4, page, f as u64)
}

/// How many tables the walk of `page` lacks: the tables that mapping it
/// creates, one fresh frame each.
pub open spec fn tables_missing(mem: PageTableMemory, p4: u64, page: u64) -> nat {
    if walk_l3(mem, p4, page) is None {
        3
    } else if walk_l2(mem, p4, page) is None {
        2
    } else if walk_l1(mem, p4, page) is None {
        1
    } else {
        0
    }
}

/// How a mapping changed the link from table `parent` through its entry `ip`
/// to table `child`, where `parent_was` and `child_was` are the tables the
/// walk met at these two levels before (`None` where it met none): a table
/// that did not exist is a fresh frame from `free0` with every entry unused
/// but the link, and a link to a fresh table is present and writable. Every
/// other entry of an existing parent kept its value.
pub open spec fn link_effect(
    m0: PageTableMemory,
    m: PageTableMemory,
    parent: u64,
    ip: int,
    child: u64,
    parent_was: Option<u64>,
    child_was: Option<u64>,
    free0: Set<usize>,
) -> bool {
    &&& forall|j: int|
        0 <= j < 512 && j != ip ==> #[trigger] m.read(parent, j) == (if parent_was is Some {
            m0.read(parent, j)
        } else {
            0
        })
    &&& child_was is Some ==> m.read(parent, ip) == m0.read(parent, ip)
    &&& child_was is None ==> {
        &&& m.read(parent, ip) == entry_value(
            Frame(child as usize),
            EntryFlags(EntryFlags::PRESENT | EntryFlags::WRITABLE),
        )
        &&& free0.contains(child as usize)
    }
}

/// What a successful mapping of `page` to `frame` with `flags` did to the
/// tables in `m0` (free frames `free0`), giving `m` (free frames `free`):
/// the tables on the walk of `page` lie in distinct frames, the walk
/// reaches a level-1 table whose entry for `page` points at `frame`, no free
/// frame holds a table on the walk, and only the walk's tables changed. Where
/// the walk was complete already, only that one entry changed and no frame
/// was taken; where it was not, the level-1 table is a fresh one, taken from
/// the free frames, with every other entry unused. Each link of the walk
/// changed as [`link_effect`] says: tables that were missing are fresh and
/// zeroed but for their link, and are linked present and writable. `page`
/// then translates to `frame`.
pub open spec fn mapped_effect(
    m0: PageTableMemory,
    m: PageTableMemory,
    p4: u64,
    page: u64,
    frame: Frame,
    flags: EntryFlags,
    free0: Set<usize>,
    free: Set<usize>,
) -> bool {
    let i1 = table_index(page, 1) as int;
    let e = entry_value(frame, EntryFlags(flags.0 | EntryFlags::PRESENT));
    &&& walk_distinct(m, p4, page)
        &&& walk_l1(m, p4, page) matches Some(t1) && m.read(t1, i1) == e
        &&& walk_l3(m, p4, page) matches Some(t3) && walk_l2(m, p4, page) matches Some(t2) && walk_l1(
            m,
            p4,
            page,
        ) matches Some(t1) && link_effect(
            m0,
            m,
            p4,
            table_index(page, 4) as int,
            t3,
            Some(p4),
            walk_l3(m0, p4, page),
            free0,
        ) && link_effect(
            m0,
            m,
            t3,
            table_index(page, 3) as int,
            t2,
            walk_l3(m0, p4, page),
            walk_l2(m0, p4, page),
            free0,
        ) && link_effect(m0, m, t2, table_index(page, 2) as int, t1, walk_l2(m0, p4, page), walk_l1(m0, p4, page), free0)
        &&& forall|g: u64, j: int|
            0 <= j < 512 && #[trigger] m.read(g, j) != m0.read(g, j) ==> on_walk(m, p4, page, g)
        &&& free_frames_off_walk(m, p4, page, free)
        &&& walk_l1(m0, p4, page) is Some ==> {
            &&& walk_l1(m, p4, page) == walk_l1(m0, p4, page)
            &&& free == free0
            &&& forall|g: u64, j: int|
                0 <= j < 512 ==> #[trigger] m.read(g, j) == (if Some(g) == walk_l1(m0, p4, page) && j
                    == i1 {
                    e
                } else {
                    m0.read(g, j)
                })
        }
        &&& walk_l1(m0, p4, page) is None ==> (walk_l1(m, p4, page) matches Some(t1) && free0.contains(
            t1 as usize,
        ) && !free.contains(t1 as usize) && forall|j: int|
            0 <= j < 512 && j != i1 ==> #[trigger] m.read(t1, j) == 0)
        &&& mapped_address(m, p4, page) == Some((frame.0 * 4096) as u64)
}

/// Where the walk of `page` existed and its level-1 entry was unused, a
/// mapping of `page` (taking `m0` to `m1`) followed by an unmapping of it
/// (taking `m1` to `m2`) leaves every entry of every table as it was, and
/// takes no frame.
pub proof fn lemma_unmap_undoes_map(
    m0: PageTableMemory,
    m1: PageTableMemory,
    m2: PageTableMemory,
    p4: u64,
    page: u64,
    frame: Frame,
    flags: EntryFlags,
    free0: Set<usize>,
    free1: Set<usize>,
)
    requires
        walk_distinct(m0, p4, page),
        walk_l1(m0, p4, page) is Some,
        can_map(m0, p4, page),
        mapped_effect(m0, m1, p4, page, frame, flags, free0, free1),
        walk_l1(m1, p4, page) matches Some(t1) && forall|g: u64, j: int|
            0 <= j < 512 ==> #[trigger] m2.read(g, j) == (if g == t1 && j == table_index(page, 1) {
                0
            } else {
                m1.read(g, j)
            }),
    ensures
        same_reads(m2, m0),
        free1 == free0,
{
    let t1 = walk_l1(m0, p4, page)->0;
    assert forall|g: u64, j: int| 0 <= j < 512 implies #[trigger] m2.read(g, j) == m0.read(g, j) by {
        assert(m1.read(g, j) == (if Some(g) == walk_l1(m0, p4, page) && j == table_index(page, 1) {
            entry_value(frame, EntryFlags(flags.0 | EntryFlags::PRESENT))
        } else {
            m0.read(g, j)
        }));
    }
}

/// A mapping of `page` to `frame` (taking `m0` to `m1`) makes `page`
/// translate to the first address of `frame`: [`Mapper::translate`] can be
/// asked (the walk meets no misaligned huge page) and gives that address.
pub proof fn lemma_map_then_translate(
    m0: PageTableMemory,
    m1: PageTableMemory,
    p4: u64,
    page: u64,
    frame: Frame,
    flags: EntryFlags,
    free0: Set<usize>,
    free1: Set<usize>,
)
    requires
        mapped_effect(m0, m1, p4, page, frame, flags, free0, free1),
    ensures
        huge_pages_aligned(m1, p4, page),
        mapped_address(m1, p4, page) == Some((frame.0 * 4096) as u64),
{
}

proof fn lemma_huge_offset_bits(e: u64, v: u64)
    by (bit_vector)
    ensures
        ((e & 0xF_FFFF_FFFF_F000u64) / 4096) * 4096 == e & 0xF_FFFF_FFFF_F000u64,
        e & 0xF_FFFF_FFFF_F000u64 <= 0xF_FFFF_FFFF_F000u64,
        ((v >> 12u64) & 0o777u64) * 4096 == v & 0x1F_F000u64,
        (((v >> 21u64) & 0o777u64) * 512 + ((v >> 12u64) & 0o777u64)) * 4096 == v & 0x3FFF_F000u64,
        (v >> 12u64) & 0o777u64 < 512,
        (v >> 21u64) & 0o777u64 < 512,
        v & 0x1F_F000u64 < 0x20_0000,
        v & 0x3FFF_F000u64 < 0x4000_0000,
{
}

/// Inside a 2 MiB page each 4 KiB page keeps its place: where the walk of
/// `v` ends in a present huge level-2 entry, `v` translates to the address
/// that entry holds plus the bits 12 to 20 of `v`, its offset inside the
/// 2 MiB page rounded down to 4 KiB.
pub proof fn lemma_2mib_page_translation(mem: PageTableMemory, p4: u64, v: u64)
    requires
        walk_l2(mem, p4, v) matches Some(t2) && entry_present(mem.read(t2, table_index(v, 2) as int))
            && entry_huge(mem.read(t2, table_index(v, 2) as int)),
    ensures
        mapped_address(mem, p4, v) == Some(
            (entry_address(mem.read(walk_l2(mem, p4, v)->0, table_index(v, 2) as int)) + (v & 0x1F_F000u64)) as u64,
        ),
{
    let t2 = walk_l2(mem, p4, v)->0;
    let e2 = mem.read(t2, table_index(v, 2) as int);
    lemma_huge_offset_bits(e2, v);
    let i1 = table_index(v, 1);
    assert(i1 == ((v >> 12u64) & 0o777u64) as usize);
    assert(walk_l1(mem, p4, v) is None);
    assert(small_page_frame(mem, p4, v) is None);
    let fr = entry_frame(e2);
    assert(fr * 4096 == entry_address(e2));
    assert(huge_page_frame(mem, p4, v) == Some((fr + i1) as u64));
    assert(((fr + i1) as u64) * 4096 == entry_address(e2) + (v & 0x1F_F000u64));
}

/// Two pages inside one 2 MiB page that differ in bits 12 to 20 translate to
/// different addresses.
pub proof fn lemma_2mib_pages_differ(mem: PageTableMemory, p4: u64, v: u64, w: u64)
    requires
        walk_l2(mem, p4, v) matches Some(t2) && entry_present(mem.read(t2, table_index(v, 2) as int))
            && entry_huge(mem.read(t2, table_index(v, 2) as int)),
        walk_l2(mem, p4, w) == walk_l2(mem, p4, v),
        table_index(w, 2) == table_index(v, 2),
        v & 0x1F_F000u64 != w & 0x1F_F000u64,
    ensures
        mapped_address(mem, p4, v) != mapped_address(mem, p4, w),
{
    lemma_2mib_page_translation(mem, p4, v);
    lemma_2mib_page_translation(mem, p4, w);
    let e2 = mem.read(walk_l2(mem, p4, v)->0, table_index(v, 2) as int);
    lemma_huge_offset_bits(e2, v);
    lemma_huge_offset_bits(e2, w);
    assert(entry_address(e2) + (v & 0x1F_F000u64) != entry_address(e2) + (w & 0x1F_F000u64));
}

/// Inside a 1 GiB page each 4 KiB page keeps its place: where the walk of
/// `v` ends in a present huge level-3 entry, `v` translates to the address
/// that entry holds plus the bits 12 to 29 of `v`.
pub proof fn lemma_1gib_page_translation(mem: PageTableMemory, p4: u64, v: u64)
    requires
        walk_l3(mem, p4, v) matches Some(t3) && entry_present(mem.read(t3, table_index(v, 3) as int))
            && entry_huge(mem.read(t3, table_index(v, 3) as int)),
    ensures
        mapped_address(mem, p4, v) == Some(
            (entry_address(mem.read(walk_l3(mem, p4, v)->0, table_index(v, 3) as int)) + (v & 0x3FFF_F000u64)) as u64,
        ),
{
    let t3 = walk_l3(mem, p4, v)->0;
    let e3 = mem.read(t3, table_index(v, 3) as int);
    lemma_huge_offset_bits(e3, v);
    let i1 = table_index(v, 1);
    let i2 = table_index(v, 2);
    assert(i1 == ((v >> 12u64) & 0o777u64) as usize);
    assert(i2 == ((v >> 21u64) & 0o777u64) as usize);
    assert(walk_l2(mem, p4, v) is None);
    assert(small_page_frame(mem, p4, v) is None);
    let fr = entry_frame(e3);
    assert(fr * 4096 == entry_address(e3));
    assert(huge_page_frame(mem, p4, v) == Some((fr + i2 * 512 + i1) as u64));
    assert(((fr + i2 * 512 + i1) as u64) * 4096 == entry_address(e3) + (v & 0x3FFF_F000u64));
}

/// Two memories read the same everywhere.
pub open spec fn same_reads(a: PageTableMemory, b: PageTableMemory) -> bool {
    forall|g: u64, j: int| 0 <= j < 512 ==> #[trigger] a.read(g, j) == b.read(g, j)
}

/// Bit facts of the flags that mappings write: present and writable for
/// tables, `b` with the present bit for pages.
pub proof fn lemma_table_flag_bits(b: u64)
    by (bit_vector)
    ensures
        1u64 | 2u64 == 3u64,
        3u64 & 0x8000_0000_0000_01FFu64 == 3u64,
        3u64 & 1u64 == 1u64,
        3u64 & 0x80u64 != 0x80u64,
        b & 0x8000_0000_0000_01FFu64 == b ==> (b | 1u64) & 0x8000_0000_0000_01FFu64 == (b | 1u64),
        (b | 1u64) & 1u64 == 1u64,
{
}

impl PageTableMemory {
    /// The frame of the table that entry `index` of table `table` points to.
    pub fn next_table(&self, table: u64, index: usize) -> (r: Option<u64>)
        requires
            self.wf(),
            index < ENTRIES_PER_TABLE,
        ensures
            r == next_table_frame(*self, table, index as int),
            r matches Some(f) ==> f < MAX_FRAME_COUNT,
    {
        let e = self.read_entry(table, index);
        if e.is_present() && !e.is_huge() {
            proof {
                lemma_entry_bits(e.0);
            }
            Some((e.0 & PHYSICAL_ADDRESS_MASK) / 4096)
        } else {
            None
        }
    }

    /// The table that entry `index` of table `table` points to, creating it
    /// from a fresh frame of `allocator` when the entry is not present.
    pub fn next_table_create<A: FrameAllocator>(
        &mut self,
        table: u64,
        index: usize,
        allocator: &mut A,
    ) -> (r: Result<u64, MapError>)
        requires
            old(self).wf(),
            old(allocator).wf(),
            index < ENTRIES_PER_TABLE,
            !entry_huge(old(self).read(table, index as int)),
            forall|f: usize| #[trigger] old(allocator).free_frames().contains(f) ==> f as u64 != table,
        ensures
            final(self).wf(),
            final(allocator).wf(),
            match next_table_frame(*old(self), table, index as int) {
                Some(n) => {
                    &&& r == Ok::<u64, MapError>(n)
                    &&& same_reads(*final(self), *old(self))
                    &&& final(allocator).free_frames() == old(allocator).free_frames()
                },
                None => match r {
                    Ok(n) => {
                        &&& n < MAX_FRAME_COUNT
                        &&& n <= usize::MAX
                        &&& n != table
                        &&& final(self).holds_table(n)
                        &&& old(allocator).free_frames().contains(n as usize)
                        &&& final(allocator).free_frames() == old(allocator).free_frames().remove(
                            n as usize,
                        )
                        &&& forall|g: u64, j: int|
                            0 <= j < 512 ==> #[trigger] final(self).read(g, j) == (if g == table
                                && j == index {
                                entry_value(
                                    Frame(n as usize),
                                    EntryFlags(EntryFlags::PRESENT | EntryFlags::WRITABLE),
                                )
                            } else if g == n {
                                0
                            } else {
                                old(self).read(g, j)
                            })
                    },
                    Err(_) => {
                        &&& same_reads(*final(self), *old(self))
                        &&& final(allocator).free_frames() == old(allocator).free_frames()
                    },
                },
            },
            r matches Ok(n) ==> next_table_frame(*final(self), table, index as int) == Some(n),
            r is Err ==> old(allocator).free_frames() == Set::<usize>::empty(),
            forall|g: u64| old(self).holds_table(g) ==> #[trigger] final(self).holds_table(g),
            final(allocator).free_frames().subset_of(old(allocator).free_frames()),
            forall|f: usize|
                old(allocator).free_frames().contains(f) && !final(allocator).free_frames().contains(f)
                    ==> #[trigger] final(self).holds_table(f as u64),
    {
        match self.next_table(table, index) {
            Some(n) => Ok(n),
            None => {
                let frame = match allocator.allocate_frame() {
                    Some(f) => f,
                    None => {
                        return Err(MapError::OutOfMemory);
                    },
                };
                let n: u64 = frame.0 as u64;
                let flags = EntryFlags(EntryFlags::PRESENT | EntryFlags::WRITABLE);
                let mut e = PageTableEntry::new();
                e.set(frame, flags);
                proof {
                    lemma_table_flag_bits(0);
                    assert(flags.0 == 3u64);
                    lemma_entry_value(frame, flags);
                }
                let ghost mid = *self;
                self.write_entry(table, index, e);
                let ghost mid2 = *self;
                self.zero_table(n);
                proof {
                    assert(n != table);
                    assert(self.read(table, index as int) == e.0);
                }
                Ok(n)
            },
        }
    }
}

/// Walks and edits the page tables rooted at a level-4 table.
pub struct Mapper {
    /// Frame of the level-4 table.
    pub p4: u64,
    /// The memory that holds the tables.
    pub memory: PageTableMemory,
}

impl Mapper {
    /// A mapper for the tables rooted at the level-4 table in frame `p4`.
    pub fn new(p4: Frame, memory: PageTableMemory) -> (r: Mapper)
        ensures
            r.p4 == p4.0 as u64,
            r.memory == memory,
    {
        Mapper { p4: p4.0 as u64, memory }
    }

    /// The physical address that `virt_addr` maps to, through a 4 KiB, 2 MiB
    /// or 1 GiB page.
    pub fn translate(&self, virt_addr: VirtualAddress) -> (r: Option<PhysicalAddress>)
        requires
            self.memory.wf(),
            huge_pages_aligned(self.memory, self.p4, virt_addr.0),
        ensures
            match r {
                Some(a) => mapped_address(self.memory, self.p4, virt_addr.0) == Some(a.0),
                None => mapped_address(self.memory, self.p4, virt_addr.0) is None,
            },
    {
        let i4 = virt_addr.p4_idx();
        let i3 = virt_addr.p3_idx();
        let i2 = virt_addr.p2_idx();
        let i1 = virt_addr.p1_idx();
        let p3 = self.memory.next_table(self.p4, i4);
        let mut small: Option<u64> = None;
        if let Some(t3) = p3 {
            if let Some(t2) = self.memory.next_table(t3, i3) {
                if let Some(t1) = self.memory.next_table(t2, i2) {
                    let e = self.memory.read_entry(t1, i1);
                    if e.is_present() {
                        proof {
                            lemma_entry_bits(e.0);
                        }
                        small = Some((e.0 & PHYSICAL_ADDRESS_MASK) / 4096);
                    }
                }
            }
        }
        let frame = match small {
            Some(f) => Some(f),
            None => match p3 {
                Some(t3) => {
                    let e3 = self.memory.read_entry(t3, i3);
                    if e3.is_present() && e3.is_huge() {
                        proof {
                            lemma_entry_bits(e3.0);
                        }
                        let start = (e3.0 & PHYSICAL_ADDRESS_MASK) / 4096;
                        Some(start + (i2 as u64) * 512 + (i1 as u64))
                    } else {
                        match self.memory.next_table(t3, i3) {
                            Some(t2) => {
                                let e2 = self.memory.read_entry(t2, i2);
                                if e2.is_present() && e2.is_huge() {
                                    proof {
                                        lemma_entry_bits(e2.0);
                                    }
                                    let start = (e2.0 & PHYSICAL_ADDRESS_MASK) / 4096;
                                    Some(start + (i1 as u64))
                                } else {
                                    None
                                }
                            },
                            None => None,
                        }
                    }
                },
                None => None,
            },
        };
        match frame {
            Some(f) => Some(PhysicalAddress(f * 4096)),
            None => None,
        }
    }

    /// Whether `page` can be mapped (no huge page on its walk, its level-1
    /// entry unused where the walk reaches one) through tables that lie in
    /// distinct frames: the test to make before mapping it.
    pub fn can_map_page(&self, page: VirtualAddress) -> (r: bool)
        requires
            self.memory.wf(),
        ensures
            r == (can_map(self.memory, self.p4, page.0) && walk_distinct(self.memory, self.p4, page.0)),
    {
        let e4 = self.memory.read_entry(self.p4, page.p4_idx());
        if e4.is_huge() {
            return false;
        }
        let t3 = match self.memory.next_table(self.p4, page.p4_idx()) {
            Some(t) => t,
            None => {
                return true;
            },
        };
        if t3 == self.p4 || self.memory.read_entry(t3, page.p3_idx()).is_huge() {
            return false;
        }
        let t2 = match self.memory.next_table(t3, page.p3_idx()) {
            Some(t) => t,
            None => {
                return true;
            },
        };
        if t2 == self.p4 || t2 == t3 || self.memory.read_entry(t2, page.p2_idx()).is_huge() {
            return false;
        }
        let t1 = match self.memory.next_table(t2, page.p2_idx()) {
            Some(t) => t,
            None => {
                return true;
            },
        };
        if t1 == self.p4 || t1 == t3 || t1 == t2 {
            return false;
        }
        self.memory.read_entry(t1, page.p1_idx()).0 == 0
    }

    /// Maps `page` to `frame` with `flags` (and the present bit), creating
    /// the missing tables on the way from frames of `allocator`.
    pub fn map_to<A: FrameAllocator>(
        &mut self,
        page: VirtualAddress,
        frame: Frame,
        flags: EntryFlags,
        allocator: &mut A,
    ) -> (r: Result<(), MapError>)
        requires
            old(self).memory.wf(),
            old(allocator).wf(),
            frame.0 < MAX_FRAME_COUNT,
            flags.0 & KNOWN_FLAGS_MASK == flags.0,
            can_map(old(self).memory, old(self).p4, page.0),
            walk_distinct(old(self).memory, old(self).p4, page.0),
            free_frames_off_walk(old(self).memory, old(self).p4, page.0, old(allocator).free_frames()),
        ensures
            final(self).memory.wf(),
            final(self).p4 == old(self).p4,
            final(allocator).wf(),
            final(allocator).free_frames().subset_of(old(allocator).free_frames()),
            forall|f: usize|
                old(allocator).free_frames().contains(f) && !final(allocator).free_frames().contains(f)
                    ==> #[trigger] final(self).memory.holds_table(f as u64),
            r is Ok ==> mapped_effect(
                old(self).memory,
                final(self).memory,
                final(self).p4,
                page.0,
                frame,
                flags,
                old(allocator).free_frames(),
                final(allocator).free_frames(),
            ),
            r is Err ==> final(allocator).free_frames() == Set::<usize>::empty(),
            old(allocator).free_frames().finite() ==> {
                &&& (r is Ok <==> tables_missing(old(self).memory, old(self).p4, page.0)
                    <= old(allocator).free_frames().len())
                &&& final(allocator).free_frames().finite()
                &&& r is Ok ==> final(allocator).free_frames().len() == old(
                    allocator,
                ).free_frames().len() - tables_missing(old(self).memory, old(self).p4, page.0)
            },
    {
        let i4 = page.p4_idx();
        let i3 = page.p3_idx();
        let i2 = page.p2_idx();
        let i1 = page.p1_idx();
        let ghost m0 = self.memory;
        let ghost free0 = allocator.free_frames();
        let ghost p4 = self.p4;
        proof {
            lemma_zero_entry();
        }
        let n3 = match self.memory.next_table_create(self.p4, i4, allocator) {
            Ok(n) => n,
            Err(e) => {
                proof {
                    assert(walk_l3(m0, p4, page.0) is None);
                }
                return Err(e);
            },
        };
        let ghost m1 = self.memory;
        let ghost free1 = allocator.free_frames();
        let ghost c1: nat = if walk_l3(m0, p4, page.0) is None { 1 } else { 0 };
        proof {
            if free0.finite() {
                assert(free1.finite() && free1.len() == free0.len() - c1);
            }
            assert(on_walk(m0, p4, page.0, p4));
            if walk_l3(m0, p4, page.0) is Some {
                assert(m1.read(n3, i3 as int) == m0.read(n3, i3 as int));
            } else {
                assert(free0.contains(n3 as usize));
                assert(m1.read(n3, i3 as int) == 0);
            }
        }
        proof {
            if walk_l3(m0, p4, page.0) is Some {
                assert(next_table_frame(m1, n3, i3 as int) == walk_l2(m0, p4, page.0));
            } else {
                assert(next_table_frame(m1, n3, i3 as int) is None);
            }
        }
        let n2 = match self.memory.next_table_create(n3, i3, allocator) {
            Ok(n) => n,
            Err(e) => {
                proof {
                    assert(walk_l2(m0, p4, page.0) is None);
                }
                return Err(e);
            },
        };
        let ghost m2 = self.memory;
        let ghost free2 = allocator.free_frames();
        let ghost c2: nat = if walk_l2(m0, p4, page.0) is None { 1 } else { 0 };
        proof {
            if free0.finite() {
                assert(free2.finite() && free2.len() == free0.len() - c1 - c2);
            }
            if walk_l2(m0, p4, page.0) is Some {
                assert(m2.read(n2, i2 as int) == m0.read(n2, i2 as int));
                assert(next_table_frame(m2, n2, i2 as int) == walk_l1(m0, p4, page.0));
            } else {
                assert(m2.read(n2, i2 as int) == 0);
                assert(next_table_frame(m2, n2, i2 as int) is None);
            }
            assert forall|f: usize|
                free0.contains(f) && !free2.contains(f) implies #[trigger] m2.holds_table(f as u64) by {
                if !free1.contains(f) {
                    assert(m1.holds_table(f as u64));
                }
            }
        }
        let n1 = match self.memory.next_table_create(n2, i2, allocator) {
            Ok(n) => n,
            Err(e) => {
                proof {
                    assert(walk_l1(m0, p4, page.0) is None);
                }
                return Err(e);
            },
        };
        let ghost m3 = self.memory;
        let ghost free3 = allocator.free_frames();
        let ghost c3: nat = if walk_l1(m0, p4, page.0) is None { 1 } else { 0 };
        proof {
            if free0.finite() {
                assert(free3.finite() && free3.len() == free0.len() - c1 - c2 - c3);
                assert(c1 + c2 + c3 == tables_missing(m0, p4, page.0));
            }
            assert forall|f: usize|
                free0.contains(f) && !free3.contains(f) implies #[trigger] m3.holds_table(f as u64) by {
                if !free2.contains(f) {
                    assert(m2.holds_table(f as u64));
                }
            }
        }
        let full = flags.union(EntryFlags(EntryFlags::PRESENT));
        let mut e = PageTableEntry::new();
        e.set(frame, full);
        self.memory.write_entry(n1, i1, e);
        proof {
            assert forall|f: usize|
                free0.contains(f) && !free3.contains(f) implies #[trigger] self.memory.holds_table(f as u64) by {
                assert(m3.holds_table(f as u64));
            }
            if walk_distinct(m0, p4, page.0) {
                assert(n3 != p4);
                assert(n2 != p4) by {
                    if walk_l3(m0, p4, page.0) is Some && walk_l2(m0, p4, page.0) is Some {
                        assert(next_table_frame(m1, n3, i3 as int) == next_table_frame(m0, n3, i3 as int));
                    } else if walk_l3(m0, p4, page.0) is Some {
                        assert(next_table_frame(m1, n3, i3 as int) == next_table_frame(m0, n3, i3 as int));
                        assert(free1.contains(n2 as usize));
                    } else {
                        assert(free1.contains(n2 as usize));
                    }
                }
                assert(n1 != p4 && n1 != n3) by {
                    if walk_l1(m0, p4, page.0) is Some {
                        assert(next_table_frame(m1, n3, i3 as int) == next_table_frame(m0, n3, i3 as int));
                        assert(next_table_frame(m2, n2, i2 as int) == next_table_frame(m0, n2, i2 as int));
                    } else {
                        assert(free2.contains(n1 as usize));
                        if n1 == n3 {
                            if walk_l3(m0, p4, page.0) is None {
                                assert(!free1.contains(n3 as usize));
                            } else {
                                assert(free0.contains(n1 as usize));
                                assert(on_walk(m0, p4, page.0, (n1 as usize) as u64));
                            }
                        }
                    }
                }
                assert(self.memory.read(p4, i4 as int) == m1.read(p4, i4 as int));
                assert(self.memory.read(n3, i3 as int) == m2.read(n3, i3 as int));
                assert(self.memory.read(n2, i2 as int) == m3.read(n2, i2 as int));
                assert(walk_l3(self.memory, p4, page.0) == Some(n3));
                assert(walk_l2(self.memory, p4, page.0) == Some(n2));
                assert(walk_l1(self.memory, p4, page.0) == Some(n1));
                assert(self.memory.read(n1, i1 as int) == e.0);
                if flags.0 & KNOWN_FLAGS_MASK == flags.0 {
                    lemma_table_flag_bits(flags.0);
                    lemma_entry_value(frame, full);
                    assert(small_page_frame(self.memory, p4, page.0) == Some(frame.0 as u64));
                }
                assert forall|g: u64, j: int|
                    0 <= j < 512 && #[trigger] self.memory.read(g, j) != m0.read(g, j) implies on_walk(
                        self.memory,
                        p4,
                        page.0,
                        g,
                    ) by {
                    if g != p4 && g != n3 && g != n2 && g != n1 {
                        assert(m1.read(g, j) == m0.read(g, j));
                        assert(m2.read(g, j) == m1.read(g, j));
                        assert(m3.read(g, j) == m2.read(g, j));
                    }
                }
            }
        }
        Ok(())
    }

    /// Maps `page` to a frame taken from `allocator` (which must have one),
    /// with `flags`.
    pub fn map<A: FrameAllocator>(
        &mut self,
        page: VirtualAddress,
        flags: EntryFlags,
        allocator: &mut A,
    ) -> (r: Result<(), MapError>)
        requires
            old(self).memory.wf(),
            old(allocator).wf(),
            old(allocator).free_frames() != Set::<usize>::empty(),
            flags.0 & KNOWN_FLAGS_MASK == flags.0,
            can_map(old(self).memory, old(self).p4, page.0),
            walk_distinct(old(self).memory, old(self).p4, page.0),
            free_frames_off_walk(old(self).memory, old(self).p4, page.0, old(allocator).free_frames()),
        ensures
            final(self).memory.wf(),
            final(self).p4 == old(self).p4,
            final(allocator).wf(),
            final(allocator).free_frames().subset_of(old(allocator).free_frames()),
            r is Ok ==> exists|d: usize|
                #![trigger old(allocator).free_frames().contains(d)]
                {
                    &&& old(allocator).free_frames().contains(d)
                    &&& !final(allocator).free_frames().contains(d)
                    &&& d < MAX_FRAME_COUNT
                    &&& mapped_effect(
                        old(self).memory,
                        final(self).memory,
                        final(self).p4,
                        page.0,
                        Frame(d),
                        flags,
                        old(allocator).free_frames().remove(d),
                        final(allocator).free_frames(),
                    )
                },
            r is Err ==> final(allocator).free_frames() == Set::<usize>::empty(),
            old(allocator).free_frames().finite() ==> {
                &&& (r is Ok <==> 1 + tables_missing(old(self).memory, old(self).p4, page.0)
                    <= old(allocator).free_frames().len())
                &&& final(allocator).free_frames().finite()
                &&& r is Ok ==> final(allocator).free_frames().len() == old(
                    allocator,
                ).free_frames().len() - 1 - tables_missing(old(self).memory, old(self).p4, page.0)
            },
    {
        let frame = match allocator.allocate_frame() {
            Some(f) => f,
            None => {
                return Err(MapError::OutOfMemory);
            },
        };
        let ghost free1 = allocator.free_frames();
        let r = self.map_to(page, frame, flags, allocator);
        proof {
            if r is Ok {
                assert(!free1.contains(frame.0));
            }
        }
        r
    }

    /// Maps `page` to `frame` with `flags` unless `page` is mapped already.
    pub fn map_if_unmapped<A: FrameAllocator>(
        &mut self,
        page: VirtualAddress,
        frame: Frame,
        flags: EntryFlags,
        allocator: &mut A,
    ) -> (r: Result<(), MapError>)
        requires
            old(self).memory.wf(),
            old(allocator).wf(),
            frame.0 < MAX_FRAME_COUNT,
            flags.0 & KNOWN_FLAGS_MASK == flags.0,
            huge_pages_aligned(old(self).memory, old(self).p4, page.0),
            mapped_address(old(self).memory, old(self).p4, page.0) is None ==> {
                &&& can_map(old(self).memory, old(self).p4, page.0)
                &&& walk_distinct(old(self).memory, old(self).p4, page.0)
                &&& free_frames_off_walk(
                    old(self).memory,
                    old(self).p4,
                    page.0,
                    old(allocator).free_frames(),
                )
            },
        ensures
            final(self).memory.wf(),
            final(self).p4 == old(self).p4,
            final(allocator).wf(),
            final(allocator).free_frames().subset_of(old(allocator).free_frames()),
            mapped_address(old(self).memory, old(self).p4, page.0) is Some ==> {
                &&& r is Ok
                &&& final(self).memory == old(self).memory
                &&& final(allocator).free_frames() == old(allocator).free_frames()
            },
            r is Ok && mapped_address(old(self).memory, old(self).p4, page.0) is None ==> mapped_address(
                final(self).memory,
                final(self).p4,
                page.0,
            ) == Some((frame.0 * 4096) as u64),
    {
        if self.translate(page).is_none() {
            self.map_to(page, frame, flags, allocator)
        } else {
            Ok(())
        }
    }

    /// Removes the 4 KiB mapping of `page` and returns the frame it mapped to.
    pub fn unmap(&mut self, page: VirtualAddress) -> (r: Frame)
        requires
            old(self).memory.wf(),
            mapped_address(old(self).memory, old(self).p4, page.0) is Some,
            walk_l1(old(self).memory, old(self).p4, page.0) is Some,
        ensures
            final(self).memory.wf(),
            final(self).p4 == old(self).p4,
            small_page_frame(old(self).memory, old(self).p4, page.0) matches Some(f) && r.0 == f as usize
                && mapped_address(old(self).memory, old(self).p4, page.0) == Some((f * 4096) as u64),
            walk_l1(old(self).memory, old(self).p4, page.0) matches Some(t1) && forall|g: u64, j: int|
                0 <= j < 512 ==> #[trigger] final(self).memory.read(g, j) == (if g == t1 && j
                    == table_index(page.0, 1) {
                    0
                } else {
                    old(self).memory.read(g, j)
                }),
            walk_distinct(old(self).memory, old(self).p4, page.0) ==> mapped_address(
                final(self).memory,
                final(self).p4,
                page.0,
            ) is None,
    {
        let i4 = page.p4_idx();
        let i3 = page.p3_idx();
        let i2 = page.p2_idx();
        let i1 = page.p1_idx();
        let ghost m0 = self.memory;
        let t3 = self.memory.next_table(self.p4, i4).unwrap();
        let t2 = self.memory.next_table(t3, i3).unwrap();
        let t1 = self.memory.next_table(t2, i2).unwrap();
        let e = self.memory.read_entry(t1, i1);
        proof {
            lemma_zero_entry();
            lemma_entry_bits(e.0);
        }
        let frame = e.get_pointed_frame().unwrap();
        self.memory.write_entry(t1, i1, PageTableEntry::new());
        proof {
            if walk_distinct(m0, self.p4, page.0) {
                assert(self.memory.read(self.p4, i4 as int) == m0.read(self.p4, i4 as int));
                assert(self.memory.read(t3, i3 as int) == m0.read(t3, i3 as int));
                assert(self.memory.read(t2, i2 as int) == m0.read(t2, i2 as int));
                assert(walk_l1(self.memory, self.p4, page.0) == Some(t1));
            }
        }
        frame
    }
}

} // verus!
