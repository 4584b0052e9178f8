use kernel::memory::bitmapframealloc::{BitmapFrameAllocator, MemoryArea};
use kernel::memory::heap::linkedlist_alloc::LinkedListAllocator;
use kernel::memory::heap::{init, HEAP_PAGES, HEAP_SIZE, HEAP_START};
use kernel::memory::paging::entry::{EntryFlags, PageTableEntry, KNOWN_FLAGS_MASK};
use kernel::memory::paging::mapper::{MapError, Mapper};
use kernel::memory::paging::table::{
    ActivePageTable, InactivePageTable, PageTable, PageTableMemory, ENTRIES_PER_TABLE, L1, L4,
};
use kernel::memory::paging::{PhysicalAddress, VirtualAddress};
use kernel::memory::tinyalloc::TinyAllocator;
use kernel::memory::{Frame, FrameAllocator};

fn boot_allocator() -> BitmapFrameAllocator {
    let areas = vec![MemoryArea { start: 0, end: 0x10_0000, available: true }];
    BitmapFrameAllocator::new(&areas, 0x1_0000, 0x2_0000, 0x3_0000, 0x3_1000)
}

fn rw() -> EntryFlags {
    EntryFlags(EntryFlags::PRESENT | EntryFlags::WRITABLE)
}

/// Tables rooted at frame 200, which no allocator hands out here.
fn fresh_mapper() -> Mapper {
    let mut mem = PageTableMemory::new();
    mem.zero_table(200);
    Mapper::new(Frame(200), mem)
}

#[test]
fn virtual_address_indices() {
    let v = VirtualAddress(0o123_456_701_234_5670);
    assert_eq!(v.p4_idx(), 0o123);
    assert_eq!(v.p3_idx(), 0o456);
    assert_eq!(v.p2_idx(), 0o701);
    assert_eq!(v.p1_idx(), 0o234);
}

#[test]
fn entry_packs_frame_and_flags() {
    let mut e = PageTableEntry::new();
    assert!(e.is_unused());
    assert!(!e.is_present());
    e.set(Frame(0x1234), rw());
    assert_eq!(e.0, 0x1234_000 | 0b11);
    assert!(e.is_present());
    assert!(!e.is_huge());
    assert_eq!(e.get_physical_address(), PhysicalAddress(0x1234_000));
    assert_eq!(e.get_pointed_frame(), Some(Frame(0x1234)));
    assert_eq!(e.flags().bits(), 0b11);
    e.set_flags(EntryFlags(EntryFlags::HUGE_PAGE | EntryFlags::NO_EXECUTE));
    assert!(e.is_huge());
    e.clear_flags(EntryFlags(EntryFlags::PRESENT));
    assert!(!e.is_present());
    assert_eq!(e.get_pointed_frame(), None);
    e.set_unused();
    assert_eq!(e.0, 0);
}

#[test]
fn flags_truncate_and_combine() {
    let f = EntryFlags::from_bits_truncate(u64::MAX);
    assert_eq!(f.bits(), KNOWN_FLAGS_MASK);
    let g = EntryFlags(EntryFlags::PRESENT).union(EntryFlags(EntryFlags::GLOBAL));
    assert!(g.contains(EntryFlags(EntryFlags::GLOBAL)));
    assert!(!g.contains(EntryFlags(EntryFlags::WRITABLE)));
}

#[test]
fn page_table_zero_and_next_address() {
    let mut t: PageTable<L4> = PageTable::new();
    assert_eq!(t.entries.len(), ENTRIES_PER_TABLE);
    t.entries[5].set(Frame(7), rw());
    assert_eq!(t.next_table_addr(0xFFFF_FFFF_FFFF_F000, 5), Some((0xFFFF_FFFF_FFFF_F000usize << 9) | (5 << 12)));
    assert_eq!(t.next_table_addr(0xFFFF_FFFF_FFFF_F000, 6), None);
    t.entries[6].set(Frame(8), EntryFlags(EntryFlags::PRESENT | EntryFlags::HUGE_PAGE));
    assert_eq!(t.next_table_addr(0xFFFF_FFFF_FFFF_F000, 6), None);
    t.zero();
    assert!(t.entries.iter().all(|e| e.0 == 0));
    let l1: PageTable<L1> = PageTable::new();
    assert_eq!(l1.entries.len(), 512);
}

#[test]
fn memory_reads_back_what_was_written() {
    let mut mem = PageTableMemory::new();
    assert_eq!(mem.read_entry(9, 3).0, 0);
    mem.write_entry(9, 3, PageTableEntry(0xABC));
    assert_eq!(mem.read_entry(9, 3).0, 0xABC);
    assert_eq!(mem.read_entry(9, 4).0, 0);
    assert_eq!(mem.read_entry(10, 3).0, 0);
    mem.zero_table(9);
    assert_eq!(mem.read_entry(9, 3).0, 0);
}

#[test]
fn map_then_translate() {
    let mut alloc = boot_allocator();
    let mut m = fresh_mapper();
    let page = VirtualAddress(0x4000_0000);
    assert_eq!(m.translate(page), None);
    assert_eq!(m.map_to(page, Frame(0x50), rw(), &mut alloc), Ok(()));
    assert_eq!(m.translate(page), Some(PhysicalAddress(0x50_000)));
    // three tables were taken from the allocator
    assert!(alloc.is_frame_used(1) && alloc.is_frame_used(2) && alloc.is_frame_used(3));
    assert!(alloc.is_frame_free(4));
    // a neighbouring page shares the tables and stays unmapped
    assert_eq!(m.translate(VirtualAddress(0x4000_1000)), None);
    assert_eq!(m.map_to(VirtualAddress(0x4000_1000), Frame(0x51), rw(), &mut alloc), Ok(()));
    assert!(alloc.is_frame_free(4));
    assert_eq!(m.translate(VirtualAddress(0x4000_1000)), Some(PhysicalAddress(0x51_000)));
    assert_eq!(m.translate(page), Some(PhysicalAddress(0x50_000)));
}

#[test]
fn unmap_gives_back_the_frame() {
    let mut alloc = boot_allocator();
    let mut m = fresh_mapper();
    let page = VirtualAddress(0x20_3000);
    m.map_to(page, Frame(0x77), rw(), &mut alloc).unwrap();
    assert_eq!(m.unmap(page), Frame(0x77));
    assert_eq!(m.translate(page), None);
}

#[test]
fn map_takes_a_frame_from_the_allocator() {
    let mut alloc = boot_allocator();
    let mut m = fresh_mapper();
    let page = VirtualAddress(0x7000_0000);
    m.map(page, rw(), &mut alloc).unwrap();
    // the page's frame is taken first (frame 1), then the three tables
    assert_eq!(m.translate(page), Some(PhysicalAddress(0x1000)));
    assert!(alloc.is_frame_used(4) && alloc.is_frame_free(5));
}

#[test]
fn map_if_unmapped_keeps_existing_mapping() {
    let mut alloc = boot_allocator();
    let mut m = fresh_mapper();
    let page = VirtualAddress(0x1000);
    m.map_if_unmapped(page, Frame(0x60), rw(), &mut alloc).unwrap();
    m.map_if_unmapped(page, Frame(0x61), rw(), &mut alloc).unwrap();
    assert_eq!(m.translate(page), Some(PhysicalAddress(0x60_000)));
}

#[test]
fn huge_pages_translate_by_offset() {
    let mut mem = PageTableMemory::new();
    // p4[0] -> p3 in frame 301; p3[1] is a 1 GiB page at frame 0x40000
    let mut e = PageTableEntry::new();
    e.set(Frame(301), rw());
    mem.write_entry(300, 0, e);
    let mut huge = PageTableEntry::new();
    huge.set(Frame(0x4_0000), EntryFlags(EntryFlags::PRESENT | EntryFlags::HUGE_PAGE));
    mem.write_entry(301, 1, huge);
    let m = Mapper::new(Frame(300), mem);
    let v = VirtualAddress(0x4000_0000 + 3 * 0x20_0000 + 5 * 0x1000);
    assert_eq!(m.translate(v), Some(PhysicalAddress((0x4_0000 + 3 * 512 + 5) * 0x1000)));
}

#[test]
fn running_out_of_frames_fails_the_mapping() {
    let mut mem = PageTableMemory::new();
    mem.zero_table(200);
    let mut m = Mapper::new(Frame(200), mem);
    let mut tiny = TinyAllocator::<1>::empty();
    assert_eq!(m.map_to(VirtualAddress(0x1000), Frame(5), rw(), &mut tiny), Err(MapError::OutOfMemory));
}

#[test]
fn inactive_table_maps_itself_in_its_last_entry() {
    let mut active = ActivePageTable::new(Frame(200), PageTableMemory::new());
    let inactive = InactivePageTable::new(Frame(0x99), &mut active);
    assert_eq!(inactive.p4_frame, Frame(0x99));
    assert_eq!(active.mapper.memory.read_entry(0x99, 511).0, 0x99_000 | 0b11);
    assert_eq!(active.mapper.memory.read_entry(0x99, 0).0, 0);
    let old = active.switch_table(inactive);
    assert_eq!(old.p4_frame, Frame(200));
    assert_eq!(active.mapper.p4, 0x99);
}

#[test]
fn heap_init_maps_every_heap_page_to_its_own_frame() {
    let mut alloc = boot_allocator();
    let mut m = fresh_mapper();
    let mut heap = LinkedListAllocator::new();
    assert_eq!(init(&mut m, &mut alloc, &mut heap), Ok(()));
    let mut seen = Vec::new();
    for k in 0..HEAP_PAGES {
        let a = m.translate(VirtualAddress((HEAP_START + k * 0x1000) as u64)).unwrap();
        assert!(!seen.contains(&a));
        seen.push(a);
    }
    assert_eq!(m.translate(VirtualAddress((HEAP_START + HEAP_SIZE + 0x1000) as u64)), None);
    assert_eq!(heap.kmalloc(64, 8), Some(HEAP_START));
}

#[test]
fn heap_init_reports_running_out_of_frames() {
    let mut m = fresh_mapper();
    let mut tiny = TinyAllocator::<1>::empty();
    let mut heap = LinkedListAllocator::new();
    assert_eq!(init(&mut m, &mut tiny, &mut heap), Err(MapError::OutOfMemory));
    assert_eq!(heap.kmalloc(16, 8), None);
}

#[test]
fn unmap_after_map_restores_the_level_one_table() {
    let mut alloc = boot_allocator();
    let mut m = fresh_mapper();
    // the first mapping creates the walk shared by both pages
    m.map_to(VirtualAddress(0x4000_0000), Frame(0x50), rw(), &mut alloc).unwrap();
    let before: Vec<u64> = (0..512).map(|i| m.memory.read_entry(3, i).0).collect();
    m.map_to(VirtualAddress(0x4000_7000), Frame(0x57), rw(), &mut alloc).unwrap();
    assert!(alloc.is_frame_free(4));
    assert_eq!(m.unmap(VirtualAddress(0x4000_7000)), Frame(0x57));
    let after: Vec<u64> = (0..512).map(|i| m.memory.read_entry(3, i).0).collect();
    assert_eq!(before, after);
    assert_eq!(m.translate(VirtualAddress(0x4000_0000)), Some(PhysicalAddress(0x50_000)));
}

#[test]
fn map_to_without_frames_changes_no_table() {
    let mut m = fresh_mapper();
    let mut tiny = TinyAllocator::<1>::empty();
    assert_eq!(m.map_to(VirtualAddress(0x1000), Frame(5), rw(), &mut tiny), Err(MapError::OutOfMemory));
    for i in 0..ENTRIES_PER_TABLE {
        assert_eq!(m.memory.read_entry(200, i).0, 0);
    }
    assert_eq!(m.translate(VirtualAddress(0x1000)), None);
}

#[test]
fn new_tables_are_zeroed_and_linked_present_writable() {
    let mut alloc = boot_allocator();
    let mut m = fresh_mapper();
    assert_eq!(m.map_to(VirtualAddress(0x1000), Frame(5), rw(), &mut alloc), Ok(()));
    assert_eq!(m.memory.read_entry(200, 0).0, 0x1000 | 0b11);
    assert_eq!(m.memory.read_entry(1, 0).0, 0x2000 | 0b11);
    assert_eq!(m.memory.read_entry(2, 0).0, 0x3000 | 0b11);
    assert_eq!(m.memory.read_entry(3, 1).0, 0x5000 | 0b11);
    for i in 1..ENTRIES_PER_TABLE {
        assert_eq!(m.memory.read_entry(200, i).0, 0);
        assert_eq!(m.memory.read_entry(1, i).0, 0);
        assert_eq!(m.memory.read_entry(2, i).0, 0);
    }
    assert_eq!(m.memory.read_entry(3, 0).0, 0);
}

#[test]
fn can_map_page_until_the_page_is_mapped() {
    let mut alloc = boot_allocator();
    let mut m = fresh_mapper();
    let page = VirtualAddress(0x1000);
    assert!(m.can_map_page(page));
    assert_eq!(m.map(page, rw(), &mut alloc), Ok(()));
    assert!(!m.can_map_page(page));
    assert!(m.can_map_page(VirtualAddress(0x2000)));
}

#[test]
fn heap_pages_are_mapped_present_and_writable() {
    let mut alloc = boot_allocator();
    let mut m = fresh_mapper();
    let mut heap = LinkedListAllocator::new();
    assert_eq!(init(&mut m, &mut alloc, &mut heap), Ok(()));
    let next = |table: u64, i: usize| (m.memory.read_entry(table, i).0 & 0x000F_FFFF_FFFF_F000) / 0x1000;
    let l3 = next(200, 0);
    let l2 = next(l3, 1);
    let l1 = next(l2, 0);
    for k in 0..HEAP_PAGES {
        assert_eq!(m.memory.read_entry(l1, k).0 & 0xFFF, 0b11);
    }
    assert_eq!(m.memory.read_entry(l1, HEAP_PAGES).0, 0);
}

#[test]
fn edits_reach_an_inactive_table_and_stay() {
    let mut mem = PageTableMemory::new();
    mem.zero_table(200);
    let mut active = ActivePageTable::new(Frame(200), mem);
    let inactive = InactivePageTable::new(Frame(0x99), &mut active);
    let backup = active.enter_inactive(&inactive);
    assert_eq!(backup, 200);
    assert_eq!(active.mapper.p4, 0x99);
    active.mapper.memory.write_entry(0x99, 3, PageTableEntry(0x5003));
    active.leave_inactive(backup);
    assert_eq!(active.mapper.p4, 200);
    assert_eq!(active.mapper.memory.read_entry(0x99, 3).0, 0x5003);
}

#[test]
fn map_then_translate_gives_the_frame() {
    let mut alloc = boot_allocator();
    let mut m = fresh_mapper();
    let page = VirtualAddress(0x7000_3000);
    assert_eq!(m.map(page, rw(), &mut alloc), Ok(()));
    let a = m.translate(page).unwrap();
    assert_eq!(a.0 % 0x1000, 0);
    assert!(alloc.is_frame_used((a.0 / 0x1000) as usize));
}
