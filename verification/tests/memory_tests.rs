use kernel::memory::bitmapframealloc::{check_boot_layout, BitmapFrameAllocator, MemoryArea};
use kernel::memory::heap::linkedlist_alloc::LinkedListAllocator;
use kernel::memory::tinyalloc::TinyAllocator;
use kernel::memory::{Frame, FrameAllocator, PAGE_SIZE};

/// 1 MiB of RAM, the kernel in frames 16..32, the boot information in frame
/// 48; the bitmap (32 bytes) lands in frame 32.
fn boot_allocator() -> BitmapFrameAllocator {
    let areas = vec![MemoryArea { start: 0, end: 0x10_0000, available: true }];
    BitmapFrameAllocator::new(&areas, 0x1_0000, 0x2_0000, 0x3_0000, 0x3_1000)
}

#[test]
fn frame_addresses() {
    let f = Frame(3);
    assert_eq!(f.start_address(), 3 * PAGE_SIZE);
    assert_eq!(f.end_address(), 4 * PAGE_SIZE);
    assert_eq!(Frame::from_addr(0x3fff), Frame(3));
    assert_eq!(Frame::from_addr(0x4000), Frame(4));
}

#[test]
fn bitmap_marks_the_boot_layout_used() {
    let a = boot_allocator();
    assert_eq!(a.total_frames(), 256);
    assert!(a.is_frame_used(0));
    assert!(a.is_frame_free(1));
    assert!(a.is_frame_free(15));
    assert!(a.is_frame_used(16));
    assert!(a.is_frame_used(31));
    assert!(a.is_frame_used(32));
    assert!(a.is_frame_free(33));
    assert!(a.is_frame_used(48));
    assert!(a.is_frame_free(49));
    assert!(a.is_frame_free(255));
}

#[test]
fn bitmap_allocates_lowest_free_frames_first() {
    let mut a = boot_allocator();
    assert_eq!(a.allocate_frame(), Some(Frame(1)));
    assert_eq!(a.allocate_frame(), Some(Frame(2)));
    assert!(a.is_frame_used(1));
    assert!(a.is_frame_used(2));
}

#[test]
fn bitmap_skips_used_frames() {
    let mut a = boot_allocator();
    for k in 1..16 {
        assert_eq!(a.allocate_frame(), Some(Frame(k)));
    }
    // 16..32 kernel, 32 bitmap
    assert_eq!(a.allocate_frame(), Some(Frame(33)));
}

#[test]
fn bitmap_hands_out_a_freed_frame_again() {
    let mut a = boot_allocator();
    let f = a.allocate_frame().unwrap();
    let g = a.allocate_frame().unwrap();
    assert_ne!(f, g);
    a.deallocate_frame(f);
    assert!(a.is_frame_free(f.0));
    assert_eq!(a.allocate_frame(), Some(f));
}

#[test]
fn bitmap_runs_out() {
    let areas = vec![MemoryArea { start: 0, end: 0x8000 * 8, available: true }];
    // 64 frames; kernel 1..2, boot info 2..3, bitmap (8 bytes) in frame 2
    let mut a = BitmapFrameAllocator::new(&areas, 0x1000, 0x2000, 0x2000, 0x3000);
    let mut n = 0;
    while let Some(_) = a.allocate_frame() {
        n += 1;
        assert!(n <= 64);
    }
    assert_eq!(n, 61);
    assert_eq!(a.allocate_frame(), None);
}

#[test]
fn bitmap_marks_ranges() {
    let mut a = boot_allocator();
    a.mark_frames_used(100, 110);
    assert!(a.is_frame_used(100));
    assert!(a.is_frame_used(109));
    assert!(a.is_frame_free(110));
    a.mark_frames_free(100, 105);
    assert!(a.is_frame_free(100));
    assert!(a.is_frame_free(104));
    assert!(a.is_frame_used(105));
    a.mark_frame_used(200);
    assert!(a.is_frame_used(200));
    a.mark_frame_free(200);
    assert!(a.is_frame_free(200));
}

#[test]
fn unavailable_areas_stay_used() {
    let areas = vec![
        MemoryArea { start: 0, end: 0x4_0000, available: true },
        MemoryArea { start: 0x4_0000, end: 0x8_0000, available: false },
    ];
    let a = BitmapFrameAllocator::new(&areas, 0x1_0000, 0x2_0000, 0x3_0000, 0x3_1000);
    assert_eq!(a.total_frames(), 128);
    assert!(a.is_frame_free(63));
    assert!(a.is_frame_used(64));
    assert!(a.is_frame_used(127));
}

#[test]
fn tiny_allocator_takes_and_returns_frames() {
    let mut a = boot_allocator();
    let mut tiny = TinyAllocator::<3>::new(&mut a);
    assert!(a.is_frame_used(1) && a.is_frame_used(2) && a.is_frame_used(3));
    assert!(a.is_frame_free(4));
    let f = tiny.allocate_frame().unwrap();
    assert!(f.0 >= 1 && f.0 <= 3);
    tiny.deallocate_frame(f);
    tiny.destroy(&mut a);
    assert!(a.is_frame_free(1) && a.is_frame_free(2) && a.is_frame_free(3));
}

#[test]
fn tiny_allocator_empties() {
    let mut a = boot_allocator();
    let mut tiny = TinyAllocator::<2>::new(&mut a);
    assert!(tiny.allocate_frame().is_some());
    assert!(tiny.allocate_frame().is_some());
    assert_eq!(tiny.allocate_frame(), None);
    let empty = TinyAllocator::<2>::empty();
    let mut empty = empty;
    assert_eq!(empty.allocate_frame(), None);
}

#[test]
fn heap_first_fit_and_alignment() {
    let mut heap = LinkedListAllocator::new();
    assert_eq!(heap.kmalloc(8, 8), None);
    heap.init(0x1000, 0x1000);
    assert_eq!(heap.kmalloc(32, 8), Some(0x1000));
    // the gap in front of the 64-byte boundary becomes a free block
    assert_eq!(heap.kmalloc(10, 64), Some(0x1040));
    // the gap (0x1020, 32 bytes) is first in the list and fits 4 bytes
    assert_eq!(heap.kmalloc(4, 1), Some(0x1020));
    assert_eq!(heap.kmalloc(0x2000, 8), None);
}

#[test]
fn heap_reuses_freed_memory_first() {
    let mut heap = LinkedListAllocator::new();
    heap.init(0x1000, 0x1000);
    let a = heap.kmalloc(32, 8).unwrap();
    let b = heap.kmalloc(32, 8).unwrap();
    assert_eq!(b, 0x1020);
    heap.kfree(a, 32, 8);
    assert_eq!(heap.kmalloc(32, 8), Some(a));
}

#[test]
fn heap_allocations_do_not_overlap() {
    let mut heap = LinkedListAllocator::new();
    heap.init(0x10_0000, 0x1000);
    let mut got: Vec<(usize, usize)> = Vec::new();
    for (size, align) in [(24, 8), (100, 16), (3, 4), (64, 64), (200, 8), (17, 32)] {
        let a = heap.kmalloc(size, align).unwrap();
        assert_eq!(a % align, 0);
        assert!(a >= 0x10_0000 && a + size <= 0x10_1000);
        for (b, bs) in &got {
            assert!(a + size.max(16) <= *b || b + bs <= a, "{a:#x} overlaps {b:#x}");
        }
        got.push((a, size.max(16)));
    }
}

#[test]
fn tiny_allocator_slots_stay_empty_once_the_source_runs_out() {
    let mut a = boot_allocator();
    let mut source = TinyAllocator::<2>::new(&mut a);
    let mut tiny = TinyAllocator::<4>::new(&mut source);
    assert_eq!(source.allocate_frame(), None);
    let first = tiny.allocate_frame().unwrap();
    let second = tiny.allocate_frame().unwrap();
    assert_ne!(first, second);
    assert_eq!(tiny.allocate_frame(), None);
}

#[test]
fn boot_layout_check_accepts_a_fitting_layout() {
    let areas = vec![MemoryArea { start: 0, end: 0x10_0000, available: true }];
    assert!(check_boot_layout(&areas, 0x1_0000, 0x2_0000, 0x3_0000, 0x3_1000));
}

#[test]
fn boot_layout_check_rejects_what_does_not_fit() {
    let areas = vec![MemoryArea { start: 0, end: 0x10_0000, available: true }];
    assert!(!check_boot_layout(&Vec::new(), 0x1_0000, 0x2_0000, 0x3_0000, 0x3_1000));
    assert!(!check_boot_layout(&areas, 0x2_0000, 0x1_0000, 0x3_0000, 0x3_1000));
    assert!(!check_boot_layout(&areas, 0x1_0000, 0x20_0000, 0x3_0000, 0x3_1000));
    assert!(!check_boot_layout(&areas, 0x1_0000, 0x2_0000, 0x3_0000, 0x20_0000));
    let small = vec![MemoryArea { start: 0, end: 0x1000, available: true }];
    assert!(!check_boot_layout(&small, 0, 0, 0, 0));
}

#[test]
fn heap_free_list_stays_aligned() {
    let mut heap = LinkedListAllocator::new();
    heap.init(0x1000, 0x400);
    let a = heap.kmalloc(3, 1).unwrap();
    let b = heap.kmalloc(21, 2).unwrap();
    let c = heap.kmalloc(5, 64).unwrap();
    for p in [a, b, c] {
        assert_eq!(p % 8, 0);
    }
    assert!(b >= a + 16 && c >= b + 21);
    heap.kfree(b, 21, 2);
    let d = heap.kmalloc(1, 1).unwrap();
    assert_eq!(d % 8, 0);
    assert_eq!(d, b);
}
