use vstd::prelude::*;

use crate::memory::paging::entry::EntryFlags;
use crate::memory::paging::mapper::{
    can_map, free_frames_off_walk, lemma_table_flag_bits, mapped_address, mapped_effect, tables_missing,
    walk_distinct, walk_l1, walk_l2, walk_l3, MapError, Mapper,
};
use crate::memory::paging::{table_index, VirtualAddress};
use crate::memory::paging::entry::entry_value;
use crate::memory::{Frame, FrameAllocator, PAGE_SIZE};

pub mod linkedlist_alloc;

use linkedlist_alloc::{FreeBlock, LinkedListAllocator};

verus! {

/// Size of the kernel heap: 100 KiB.
pub const HEAP_SIZE: usize = 102400;

/// Virtual address where the kernel heap starts.
pub const HEAP_START: usize = 0x4000_0000;

/// Number of pages that the heap spans.
pub const HEAP_PAGES: usize = 25;

/// Address of page `k` of the heap.
pub open spec fn heap_page(k: int) -> u64 {
    (HEAP_START + k * PAGE_SIZE) as u64
}

/// The heap pages share their level-4, level-3 and level-2 entries and
/// differ in their level-1 entry, which is their own number.
proof fn lemma_heap_indices(k: u64)
    by (bit_vector)
    requires
        k < 25,
    ensures
        (((0x4000_0000u64 + k * 4096) as u64) >> 39u64) & 0o777u64 == 0,
        (((0x4000_0000u64 + k * 4096) as u64) >> 30u64) & 0o777u64 == 1,
        (((0x4000_0000u64 + k * 4096) as u64) >> 21u64) & 0o777u64 == 0,
        (((0x4000_0000u64 + k * 4096) as u64) >> 12u64) & 0o777u64 == k,
{
}

proof fn lemma_heap_page(k: int)
    requires
        0 <= k < 25,
    ensures
        table_index(heap_page(k), 4) == 0,
        table_index(heap_page(k), 3) == 1,
        table_index(heap_page(k), 2) == 0,
        table_index(heap_page(k), 1) == k,
{
    lemma_heap_indices(k as u64);
    assert(heap_page(k) == ((0x4000_0000u64 + (k as u64) * 4096) as u64));
}

/// Maps every page of the heap to a frame of its own, taken from
/// `allocator`, and hands the heap to `heap`. Where a table or a frame runs
/// out, the mapping stops with the error and `heap` is left as it was.
pub fn init<A: FrameAllocator>(
    mapper: &mut Mapper,
    allocator: &mut A,
    heap: &mut LinkedListAllocator,
) -> (r: Result<(), MapError>)
    requires
        old(mapper).memory.wf(),
        old(allocator).wf(),
        walk_distinct(old(mapper).memory, old(mapper).p4, heap_page(0)),
        forall|k: int| 0 <= k < HEAP_PAGES ==> can_map(old(mapper).memory, old(mapper).p4, #[trigger] heap_page(k)),
        free_frames_off_walk(
            old(mapper).memory,
            old(mapper).p4,
            heap_page(0),
            old(allocator).free_frames(),
        ),
    ensures
        final(mapper).memory.wf(),
        final(mapper).p4 == old(mapper).p4,
        final(allocator).wf(),
        final(allocator).free_frames().subset_of(old(allocator).free_frames()),
        r is Ok ==> {
            &&& forall|k: int|
                #![trigger heap_page(k)]
                0 <= k < HEAP_PAGES ==> exists|d: usize|
                    {
                        &&& old(allocator).free_frames().contains(d)
                        &&& !final(allocator).free_frames().contains(d)
                        &&& mapped_address(final(mapper).memory, final(mapper).p4, heap_page(k)) == Some(
                            (d * 4096) as u64,
                        )
                        &&& walk_l1(final(mapper).memory, final(mapper).p4, heap_page(k)) matches Some(t1)
                            && final(mapper).memory.read(t1, k) == entry_value(
                            Frame(d),
                            EntryFlags(EntryFlags::PRESENT | EntryFlags::WRITABLE),
                        )
                    }
            &&& forall|a: int, b: int|
                0 <= a < b < HEAP_PAGES ==> mapped_address(final(mapper).memory, final(mapper).p4, #[trigger] heap_page(a))
                    != mapped_address(final(mapper).memory, final(mapper).p4, #[trigger] heap_page(b))
            &&& final(heap).free_blocks() == seq![FreeBlock { start: HEAP_START, size: HEAP_SIZE }]
            &&& final(heap).spec_heap_size() == HEAP_SIZE
        },
        r is Err ==> *final(heap) == *old(heap),
        r is Err ==> final(allocator).free_frames() == Set::<usize>::empty(),
        old(allocator).free_frames().finite() ==> (r is Ok <==> HEAP_PAGES + tables_missing(
            old(mapper).memory,
            old(mapper).p4,
            heap_page(0),
        ) <= old(allocator).free_frames().len()),
{
    let heap_mem_start = HEAP_START / PAGE_SIZE;
    let heap_mem_end = (HEAP_SIZE + HEAP_START + PAGE_SIZE - 1) / PAGE_SIZE;
    assert(heap_mem_start == 0x40000);
    assert(heap_mem_end == 0x40000 + HEAP_PAGES);
    let flags = EntryFlags(EntryFlags::PRESENT | EntryFlags::WRITABLE);
    proof {
        lemma_table_flag_bits(0);
    }
    let ghost free0 = allocator.free_frames();
    let ghost p4 = mapper.p4;
    let ghost mut got: Seq<usize> = Seq::empty();
    let ghost missing0 = tables_missing(mapper.memory, mapper.p4, heap_page(0));
    let mut frame = heap_mem_start;
    while frame < heap_mem_end
        invariant
            heap_mem_start == 0x40000,
            heap_mem_end == 0x40000 + HEAP_PAGES,
            heap_mem_start <= frame <= heap_mem_end,
            p4 == old(mapper).p4,
            free0 == old(allocator).free_frames(),
            *heap == *old(heap),
            got.len() == frame - heap_mem_start,
            flags.0 == 3,
            mapper.memory.wf(),
            mapper.p4 == p4,
            allocator.wf(),
            allocator.free_frames().subset_of(free0),
            walk_distinct(mapper.memory, p4, heap_page(0)),
            free_frames_off_walk(mapper.memory, p4, heap_page(0), allocator.free_frames()),
            frame > heap_mem_start ==> walk_l1(mapper.memory, p4, heap_page(0)) is Some,
            forall|k: int|
                frame - heap_mem_start <= k < HEAP_PAGES ==> can_map(mapper.memory, p4, #[trigger] heap_page(k)),
            forall|k: int|
                #![trigger heap_page(k)]
                0 <= k < frame - heap_mem_start ==> {
                    &&& free0.contains(got[k])
                    &&& !allocator.free_frames().contains(got[k])
                    &&& got[k] < crate::memory::MAX_FRAME_COUNT
                    &&& mapped_address(mapper.memory, p4, heap_page(k)) == Some((got[k] * 4096) as u64)
                    &&& mapper.memory.read(walk_l1(mapper.memory, p4, heap_page(0))->0, k) == entry_value(
                        Frame(got[k]),
                        EntryFlags(3),
                    )
                },
            forall|a: int, b: int| 0 <= a < b < got.len() ==> got[a] != got[b],
            missing0 == tables_missing(old(mapper).memory, p4, heap_page(0)),
            missing0 <= 3,
            tables_missing(mapper.memory, p4, heap_page(0)) == (if frame > heap_mem_start {
                0
            } else {
                missing0
            }),
            free0.finite() ==> {
                &&& allocator.free_frames().finite()
                &&& allocator.free_frames().len() + (frame - heap_mem_start) + (if frame > heap_mem_start {
                    missing0
                } else {
                    0
                }) == free0.len()
            },
        decreases heap_mem_end - frame,
    {
        let page = VirtualAddress((frame * PAGE_SIZE) as u64);
        let ghost k: int = frame - heap_mem_start;
        let ghost m0 = mapper.memory;
        let ghost f0 = allocator.free_frames();
        proof {
            assert(page.0 == heap_page(k));
            lemma_heap_page(k);
            lemma_heap_page(0);
            assert forall|j: int| 0 <= j < HEAP_PAGES implies {
                &&& walk_l3(m0, p4, #[trigger] heap_page(j)) == walk_l3(m0, p4, heap_page(0))
                &&& walk_l2(m0, p4, heap_page(j)) == walk_l2(m0, p4, heap_page(0))
                &&& walk_l1(m0, p4, heap_page(j)) == walk_l1(m0, p4, heap_page(0))
            } by {
                lemma_heap_page(j);
            }
            assert(tables_missing(m0, p4, page.0) == tables_missing(m0, p4, heap_page(0)));
            assert(walk_distinct(m0, p4, page.0));
            assert(free_frames_off_walk(m0, p4, page.0, f0));
        }
        let new_frame = match allocator.allocate_frame() {
            Some(f) => f,
            None => {
                proof {
                    if free0.finite() {
                        assert(!(HEAP_PAGES + missing0 <= free0.len()));
                    }
                }
                return Err(MapError::OutOfMemory);
            },
        };
        let ghost fa = allocator.free_frames();
        proof {
            assert(3u64 & 0x8000_0000_0000_01FFu64 == 3u64) by (bit_vector);
            assert(fa.subset_of(f0));
        }
        match mapper.map_to(page, new_frame, flags, allocator) {
            Ok(()) => {},
            Err(e) => {
                proof {
                    if free0.finite() {
                        assert(fa.len() + 1 == f0.len());
                        assert(!(HEAP_PAGES + missing0 <= free0.len()));
                    }
                }
                return Err(e);
            },
        }
        proof {
            let m = mapper.memory;
            let f1 = allocator.free_frames();
            let d = new_frame.0;
            assert(f0.contains(d) && !f1.contains(d));
            assert(mapped_effect(m0, m, p4, page.0, crate::memory::Frame(d), flags, f0.remove(d), f1));
            lemma_table_flag_bits(0);
            assert forall|j: int| 0 <= j < HEAP_PAGES implies {
                &&& walk_l3(m, p4, #[trigger] heap_page(j)) == walk_l3(m, p4, heap_page(0))
                &&& walk_l2(m, p4, heap_page(j)) == walk_l2(m, p4, heap_page(0))
                &&& walk_l1(m, p4, heap_page(j)) == walk_l1(m, p4, heap_page(0))
            } by {
                lemma_heap_page(j);
            }
            let t1 = walk_l1(m, p4, page.0)->0;
            assert forall|j: int| k + 1 <= j < HEAP_PAGES implies can_map(m, p4, #[trigger] heap_page(j)) by {
                lemma_heap_page(j);
                assert(j != k);
                if walk_l1(m0, p4, page.0) is Some {
                    assert(m.read(t1, j) == m0.read(t1, j));
                    assert(can_map(m0, p4, heap_page(j)));
                } else {
                    assert(m.read(t1, j) == 0);
                }
            }
            assert forall|i: int| 0 <= i < k implies mapped_address(m, p4, #[trigger] heap_page(i)) == mapped_address(
                m0,
                p4,
                heap_page(i),
            ) by {
                lemma_heap_page(i);
                assert(walk_l1(m0, p4, page.0) is Some);
                assert(m.read(t1, i) == m0.read(t1, i));
            }
            assert(3u64 | 1u64 == 3u64) by (bit_vector);
            assert(m.read(t1, k) == entry_value(crate::memory::Frame(d), EntryFlags(3)));
            assert forall|i: int| 0 <= i < k implies m.read(t1, i) == m0.read(t1, i) by {
                lemma_heap_page(i);
                assert(m.read(t1, i) == m0.read(t1, i));
            }
            let before = got;
            got = got.push(d);
            assert forall|a: int, b: int| 0 <= a < b < got.len() implies got[a] != got[b] by {
                if b == k {
                    assert(mapped_address(m0, p4, heap_page(a)) == Some((before[a] * 4096) as u64));
                    assert(!f0.contains(before[a]));
                } else {
                    assert(before[a] != before[b]);
                }
            }
        }
        frame = frame + 1;
    }
    heap.init(HEAP_START, HEAP_SIZE);
    proof {
        assert forall|k: int| #![trigger heap_page(k)] 0 <= k < HEAP_PAGES implies exists|d: usize|
            {
                &&& old(allocator).free_frames().contains(d)
                &&& !allocator.free_frames().contains(d)
                &&& mapped_address(mapper.memory, mapper.p4, heap_page(k)) == Some((d * 4096) as u64)
                &&& walk_l1(mapper.memory, mapper.p4, heap_page(k)) matches Some(t1) && mapper.memory.read(t1, k)
                    == entry_value(Frame(d), EntryFlags(EntryFlags::PRESENT | EntryFlags::WRITABLE))
            } by {
            assert(mapped_address(mapper.memory, mapper.p4, heap_page(k)) == Some((got[k] * 4096) as u64));
            assert(free0.contains(got[k]));
            lemma_heap_page(k);
            lemma_heap_page(0);
            assert(walk_l1(mapper.memory, p4, heap_page(k)) == walk_l1(mapper.memory, p4, heap_page(0)));
            assert(EntryFlags::PRESENT | EntryFlags::WRITABLE == 3);
        }
        assert forall|a: int, b: int| 0 <= a < b < HEAP_PAGES implies mapped_address(mapper.memory, mapper.p4, #[trigger] heap_page(a))
            != mapped_address(mapper.memory, mapper.p4, #[trigger] heap_page(b)) by {
            assert(mapped_address(mapper.memory, mapper.p4, heap_page(a)) == Some((got[a] * 4096) as u64));
            assert(mapped_address(mapper.memory, mapper.p4, heap_page(b)) == Some((got[b] * 4096) as u64));
            assert(got[a] != got[b]);
        }
    }
    Ok(())
}

} // verus!
