use vstd::prelude::*;

use vstd::std_specs::bits::{axiom_u8_trailing_ones, u8_trailing_ones};

use super::{Frame, FrameAllocator, MAX_FRAME_COUNT, PAGE_SIZE};

verus! {

/// Whether bit `k` of byte `b` is set.
pub open spec fn bit_set(b: u8, k: int) -> bool {
    (b >> (k as u8)) & 1u8 == 1u8
}

proof fn lemma_set_bit(b: u8, j: u8)
    requires
        j < 8,
    ensures
        forall|k: int| 0 <= k < 8 ==> #[trigger] bit_set(b | (1u8 << j), k) == (k == j || bit_set(b, k)),
{
    assert forall|k: int| 0 <= k < 8 implies #[trigger] bit_set(b | (1u8 << j), k) == (k == j || bit_set(b, k)) by {
        let kk = k as u8;
        assert(((b | (1u8 << j)) >> kk) & 1u8 == 1u8 <==> (kk == j || (b >> kk) & 1u8 == 1u8)) by (bit_vector)
            requires j < 8, kk < 8;
    }
}

proof fn lemma_clear_bit(b: u8, j: u8)
    requires
        j < 8,
    ensures
        forall|k: int| 0 <= k < 8 ==> #[trigger] bit_set(b & !(1u8 << j), k) == (k != j && bit_set(b, k)),
{
    assert forall|k: int| 0 <= k < 8 implies #[trigger] bit_set(b & !(1u8 << j), k) == (k != j && bit_set(b, k)) by {
        let kk = k as u8;
        assert(((b & !(1u8 << j)) >> kk) & 1u8 == 1u8 <==> (kk != j && (b >> kk) & 1u8 == 1u8)) by (bit_vector)
            requires j < 8, kk < 8;
    }
}

proof fn lemma_full_byte(b: u8)
    ensures
        (b == 0xFFu8) == (forall|k: int| 0 <= k < 8 ==> #[trigger] bit_set(b, k)),
{
    if b == 0xFFu8 {
        assert forall|k: int| 0 <= k < 8 implies #[trigger] bit_set(b, k) by {
            let kk = k as u8;
            assert((0xFFu8 >> kk) & 1u8 == 1u8) by (bit_vector)
                requires kk < 8;
        }
    } else {
        axiom_u8_trailing_ones(b);
        let t = u8_trailing_ones(b);
        assert(t < 8);
        assert(!bit_set(b, t as int));
    }
}

proof fn lemma_frame_split(i: usize)
    ensures
        i >> 3usize == i / 8,
        i & 7usize == i % 8,
{
    assert(i >> 3usize == i / 8) by (bit_vector);
    assert(i & 7usize == i % 8) by (bit_vector);
}

/// A region of physical memory that the boot loader describes.
#[derive(Debug, Clone, Copy, PartialEq, Eq)]
pub struct MemoryArea {
    /// First byte address.
    pub start: usize,
    /// Address one past the last byte.
    pub end: usize,
    /// Whether the region is RAM free for use.
    pub available: bool,
}

/// Number of pages needed to cover `a` bytes.
pub open spec fn page_ceil(a: int) -> int {
    (a + 4095) / 4096
}

/// `addr` rounded up to a page boundary.
pub open spec fn page_align_up(addr: int) -> int {
    page_ceil(addr) * 4096
}

/// The highest end address among `areas`.
pub open spec fn highest_end(areas: Seq<MemoryArea>) -> int
    decreases areas.len(),
{
    if areas.len() == 0 {
        0
    } else if areas.len() == 1 {
        areas[0].end as int
    } else {
        let rest = highest_end(areas.drop_last());
        if areas.last().end > rest {
            areas.last().end as int
        } else {
            rest
        }
    }
}

/// Whether an available area among the first `count` of `areas` covers
/// frame `i`.
pub open spec fn in_available_prefix(areas: Seq<MemoryArea>, count: int, i: int) -> bool {
    exists|k: int|
        0 <= k < count && #[trigger] areas[k].available && areas[k].start / 4096 <= i < page_ceil(
            areas[k].end as int,
        )
}

/// Whether an available area of `areas` covers frame `i`.
pub open spec fn in_available_area(areas: Seq<MemoryArea>, i: int) -> bool {
    in_available_prefix(areas, areas.len() as int, i)
}

/// Frames `[start / 4096, page_ceil(end))` of a byte range.
pub open spec fn in_frames_of(start: int, end: int, i: int) -> bool {
    start / 4096 <= i < page_ceil(end)
}

/// Number of frames the bitmap of an allocator built from `areas` describes.
pub open spec fn boot_frame_count(areas: Seq<MemoryArea>) -> int {
    (highest_end(areas) / 4096 / 8) * 8
}

/// The boot layout fits the bitmap that it sizes: every range to mark lies
/// inside the frames the bitmap describes, and the sums stay in range.
pub open spec fn boot_layout_fits(
    areas: Seq<MemoryArea>,
    kernel_start: usize,
    kernel_end: usize,
    boot_info_start: usize,
    boot_info_end: usize,
) -> bool {
    let n = boot_frame_count(areas);
    let bitmap_start = page_align_up(kernel_end as int);
    let bitmap_end = bitmap_start + n / 8;
    &&& areas.len() > 0
    &&& highest_end(areas) + 4095 <= usize::MAX
    &&& 0 < n <= MAX_FRAME_COUNT
    &&& n <= usize::MAX
    &&& forall|k: int|
        0 <= k < areas.len() && #[trigger] areas[k].available ==> page_ceil(areas[k].end as int) <= n
            || page_ceil(areas[k].end as int) <= areas[k].start / 4096
    &&& kernel_start <= kernel_end
    &&& page_ceil(kernel_end as int) <= n
    &&& boot_info_start <= boot_info_end
    &&& page_ceil(boot_info_end as int) <= n
    &&& kernel_end + 4095 <= usize::MAX
    &&& bitmap_end + 4095 <= usize::MAX
    &&& page_ceil(bitmap_end) <= n
    &&& (page_ceil(kernel_end as int) - kernel_start / 4096) + (page_ceil(boot_info_end as int)
        - boot_info_start / 4096) + (page_ceil(bitmap_end) - bitmap_start / 4096) + 1 <= usize::MAX
}

/// Whether `new` marks frame `i` used for this boot layout: it lies outside
/// the available areas, or holds the kernel, the boot information, the
/// bitmap (at the first page boundary after the kernel), or is frame 0.
pub open spec fn boot_reserved(
    areas: Seq<MemoryArea>,
    kernel_start: usize,
    kernel_end: usize,
    boot_info_start: usize,
    boot_info_end: usize,
    i: int,
) -> bool {
    ||| !in_available_area(areas, i)
    ||| in_frames_of(kernel_start as int, kernel_end as int, i)
    ||| in_frames_of(boot_info_start as int, boot_info_end as int, i)
    ||| in_frames_of(
        page_align_up(kernel_end as int),
        page_align_up(kernel_end as int) + boot_frame_count(areas) / 8,
        i,
    )
    ||| i == 0
}

/// Whether frame `i` is marked used in `bits`.
pub open spec fn bits_used(bits: Seq<u8>, i: int) -> bool {
    bit_set(bits[i / 8], i % 8)
}

/// The lowest frame at or after `from` that `bits` marks free, if any.
#[verifier::opaque]
pub open spec fn first_free(bits: Seq<u8>, from: int) -> Option<int> {
    if exists|i: int| from <= i < bits.len() * 8 && !bits_used(bits, i) {
        Some(
            choose|i: int|
                from <= i < bits.len() * 8 && !bits_used(bits, i) && forall|j: int|
                    from <= j < i ==> #[trigger] bits_used(bits, j),
        )
    } else {
        None
    }
}

proof fn lemma_lowest_free(bits: Seq<u8>, from: int, i: int)
    requires
        from <= i < bits.len() * 8,
        !bits_used(bits, i),
    ensures
        exists|m: int|
            from <= m < bits.len() * 8 && !bits_used(bits, m) && forall|j: int|
                from <= j < m ==> #[trigger] bits_used(bits, j),
    decreases i - from,
{
    if exists|j: int| from <= j < i && !bits_used(bits, j) {
        let j = choose|j: int| from <= j < i && !bits_used(bits, j);
        lemma_lowest_free(bits, from, j);
    } else {
        assert(forall|j: int| from <= j < i ==> #[trigger] bits_used(bits, j));
    }
}

/// A physical frame allocator that keeps one bit per frame: set for used,
/// clear for free.
pub struct BitmapFrameAllocator {
    bitmap: Vec<u8>,
    bitmap_start: usize,
    total_frames: usize,
    allocated_frames: usize,
    last_allocated_frame: usize,
}

fn page_div_ceil(a: usize) -> (r: usize)
    requires
        a + 4095 <= usize::MAX,
    ensures
        r == page_ceil(a as int),
{
    (a + 4095) / 4096
}

fn highest_end_address(areas: &Vec<MemoryArea>) -> (r: usize)
    requires
        areas.len() > 0,
    ensures
        r == highest_end(areas@),
{
    let mut m = areas[0].end;
    let mut k: usize = 1;
    proof {
        assert(areas@.take(1).drop_last() =~= Seq::<MemoryArea>::empty());
    }
    while k < areas.len()
        invariant
            1 <= k <= areas.len(),
            m == highest_end(areas@.take(k as int)),
        decreases areas.len() - k,
    {
        proof {
            assert(areas@.take(k as int + 1).drop_last() =~= areas@.take(k as int));
        }
        if areas[k].end > m {
            m = areas[k].end;
        }
        k = k + 1;
    }
    proof {
        assert(areas@.take(k as int) =~= areas@);
    }
    m
}

/// Whether the boot layout fits the bitmap that it sizes, as
/// [`boot_layout_fits`] states: the test to make before
/// [`BitmapFrameAllocator::new`].
pub fn check_boot_layout(
    areas: &Vec<MemoryArea>,
    kernel_start: usize,
    kernel_end: usize,
    boot_info_start: usize,
    boot_info_end: usize,
) -> (r: bool)
    ensures
        r == boot_layout_fits(areas@, kernel_start, kernel_end, boot_info_start, boot_info_end),
{
    if areas.len() == 0 {
        return false;
    }
    let max: u128 = usize::MAX as u128;
    let highest = highest_end_address(areas) as u128;
    if highest + 4095 > max {
        return false;
    }
    let n: u128 = highest / 4096 / 8 * 8;
    if n == 0 || n > MAX_FRAME_COUNT as u128 || n > max {
        return false;
    }
    let mut k: usize = 0;
    while k < areas.len()
        invariant
            k <= areas.len(),
            n == boot_frame_count(areas@),
            forall|j: int|
                0 <= j < k && #[trigger] areas@[j].available ==> page_ceil(areas@[j].end as int) <= n
                    || page_ceil(areas@[j].end as int) <= areas@[j].start / 4096,
        decreases areas.len() - k,
    {
        let a = areas[k];
        if a.available {
            let pc = (a.end as u128 + 4095) / 4096;
            if !(pc <= n || pc <= a.start as u128 / 4096) {
                assert(areas@[k as int].available);
                return false;
            }
        }
        k = k + 1;
    }
    let ks = kernel_start as u128;
    let ke = kernel_end as u128;
    let bs = boot_info_start as u128;
    let be = boot_info_end as u128;
    if ks > ke || (ke + 4095) / 4096 > n || bs > be || (be + 4095) / 4096 > n || ke + 4095 > max {
        return false;
    }
    let bitmap_start = (ke + 4095) / 4096 * 4096;
    let bitmap_end = bitmap_start + n / 8;
    if bitmap_end + 4095 > max || (bitmap_end + 4095) / 4096 > n {
        return false;
    }
    let marked = ((ke + 4095) / 4096 - ks / 4096) + ((be + 4095) / 4096 - bs / 4096) + ((bitmap_end + 4095)
        / 4096 - bitmap_start / 4096) + 1;
    marked <= max
}

impl BitmapFrameAllocator {
    /// Number of frames the bitmap describes.
    pub closed spec fn frame_count(&self) -> nat {
        (self.bitmap.len() * 8) as nat
    }

    /// Whether frame `i` is marked used.
    pub closed spec fn used(&self, i: int) -> bool {
        bits_used(self.bitmap@, i)
    }

    /// The internal invariant.
    pub closed spec fn inv(&self) -> bool {
        &&& self.bitmap.len() * 8 <= MAX_FRAME_COUNT
        &&& self.bitmap.len() * 8 <= self.total_frames
        &&& self.bitmap.len() * 8 <= usize::MAX
        &&& self.bitmap_start + self.bitmap.len() <= usize::MAX
    }

    /// Everything but the bitmap's bits is the same in `a` and `b`.
    pub closed spec fn same_bookkeeping(a: Self, b: Self) -> bool {
        &&& a.bitmap.len() == b.bitmap.len()
        &&& a.bitmap_start == b.bitmap_start
        &&& a.total_frames == b.total_frames
        &&& a.allocated_frames == b.allocated_frames
        &&& a.last_allocated_frame == b.last_allocated_frame
    }

    /// The lowest free frame in `[from, frame_count)`, if any.
    pub closed spec fn first_free_from(&self, from: int) -> Option<int> {
        first_free(self.bitmap@, from)
    }

    /// The count of frames handed out or reserved, kept for reporting.
    pub closed spec fn spec_allocated_frames(&self) -> usize {
        self.allocated_frames
    }

    /// The frame after the one most recently handed out.
    pub closed spec fn last_allocated_frame(&self) -> usize {
        self.last_allocated_frame
    }

    /// Physical address of the bitmap's first byte.
    pub closed spec fn bitmap_address(&self) -> usize {
        self.bitmap_start
    }

    /// Number of frames the allocator was told about.
    pub closed spec fn spec_total_frames(&self) -> usize {
        self.total_frames
    }

    proof fn lemma_highest_end_bound(areas: Seq<MemoryArea>)
        requires
            areas.len() > 0,
        ensures
            forall|k: int| 0 <= k < areas.len() ==> #[trigger] areas[k].end <= highest_end(areas),
        decreases areas.len(),
    {
        if areas.len() > 1 {
            Self::lemma_highest_end_bound(areas.drop_last());
            assert forall|k: int| 0 <= k < areas.len() implies #[trigger] areas[k].end <= highest_end(areas) by {
                if k < areas.len() - 1 {
                    assert(areas.drop_last()[k] == areas[k]);
                }
            }
        }
    }

    /// An allocator for the memory that `areas` describe. Every frame starts
    /// used; the frames of available areas are then marked free, and the
    /// frames of the kernel, of the boot information, of the bitmap itself
    /// (stored at the first page boundary after the kernel) and frame 0 are
    /// marked used again.
    pub fn new(
        areas: &Vec<MemoryArea>,
        kernel_start: usize,
        kernel_end: usize,
        boot_info_start: usize,
        boot_info_end: usize,
    ) -> (r: Self)
        requires
            boot_layout_fits(areas@, kernel_start, kernel_end, boot_info_start, boot_info_end),
        ensures
            r.inv(),
            r.frame_count() == boot_frame_count(areas@),
            r.spec_total_frames() == highest_end(areas@) / 4096,
            r.bitmap_address() == page_align_up(kernel_end as int),
            r.last_allocated_frame() == 0,
            r.spec_allocated_frames() == (page_ceil(kernel_end as int) - kernel_start / 4096) + (
            page_ceil(boot_info_end as int) - boot_info_start / 4096) + (page_ceil(
                page_align_up(kernel_end as int) + boot_frame_count(areas@) / 8,
            ) - page_align_up(kernel_end as int) / 4096) + 1,
            forall|i: int|
                0 <= i < r.frame_count() ==> #[trigger] r.used(i) == boot_reserved(
                    areas@,
                    kernel_start,
                    kernel_end,
                    boot_info_start,
                    boot_info_end,
                    i,
                ),
    {
        let highest = highest_end_address(areas);
        let total_frames = highest / PAGE_SIZE;
        let bitmap_array_size = total_frames / 8;
        let align_mask = PAGE_SIZE - 1;
        proof {
            let ke = kernel_end;
            assert(ke & 4095usize == 0 ==> ke == ((ke + 4095) / 4096) * 4096) by (bit_vector);
            assert(ke & 4095usize != 0 ==> (ke | 4095usize) + 1 == ((ke + 4095) / 4096) * 4096) by (bit_vector);
        }
        let bitmap_start = if kernel_end & align_mask == 0 {
            kernel_end
        } else {
            (kernel_end | align_mask) + 1
        };
        proof {
            assert(bitmap_start == page_align_up(kernel_end as int));
            assert(bitmap_array_size * 8 == boot_frame_count(areas@));
        }
        let mut bitmap: Vec<u8> = Vec::new();
        while bitmap.len() < bitmap_array_size
            invariant
                bitmap.len() <= bitmap_array_size,
                forall|b: int| 0 <= b < bitmap.len() ==> #[trigger] bitmap[b] == 0xFFu8,
            decreases bitmap_array_size - bitmap.len(),
        {
            bitmap.push(0xFFu8);
        }
        let mut allocator = BitmapFrameAllocator {
            bitmap,
            bitmap_start,
            total_frames,
            allocated_frames: 0,
            last_allocated_frame: 0,
        };
        proof {
            assert forall|i: int| 0 <= i < allocator.frame_count() implies #[trigger] allocator.used(i) by {
                lemma_full_byte(allocator.bitmap[i / 8]);
            }
            Self::lemma_highest_end_bound(areas@);
        }
        let mut k: usize = 0;
        while k < areas.len()
            invariant
                k <= areas.len(),
                allocator.inv(),
                allocator.frame_count() == boot_frame_count(areas@),
                allocator.spec_total_frames() == total_frames,
                allocator.bitmap_start == bitmap_start,
                allocator.allocated_frames == 0,
                allocator.last_allocated_frame == 0,
                boot_layout_fits(areas@, kernel_start, kernel_end, boot_info_start, boot_info_end),
                forall|j: int| 0 <= j < areas.len() ==> #[trigger] areas@[j].end <= highest_end(areas@),
                forall|i: int|
                    0 <= i < allocator.frame_count() ==> #[trigger] allocator.used(i)
                        == !in_available_prefix(areas@, k as int, i),
            decreases areas.len() - k,
        {
            let area = areas[k];
            let ghost before = allocator;
            if area.available {
                let start_frame = area.start / PAGE_SIZE;
                let end_frame = page_div_ceil(area.end);
                allocator.mark_frames_free(start_frame, end_frame);
            }
            proof {
                assert forall|i: int| 0 <= i < allocator.frame_count() implies #[trigger] allocator.used(i)
                    == !in_available_prefix(areas@, k as int + 1, i) by {
                    if in_available_prefix(areas@, k as int, i) {
                        let w = choose|w: int|
                            0 <= w < k && #[trigger] areas@[w].available && areas@[w].start / 4096 <= i
                                < page_ceil(areas@[w].end as int);
                        assert(0 <= w < k + 1 && areas@[w].available);
                    }
                    if area.available && area.start / 4096 <= i < page_ceil(area.end as int) {
                        assert(areas@[k as int].available);
                    }
                    if in_available_prefix(areas@, k as int + 1, i) {
                        let w = choose|w: int|
                            0 <= w < k + 1 && #[trigger] areas@[w].available && areas@[w].start / 4096 <= i
                                < page_ceil(areas@[w].end as int);
                        if w < k {
                            assert(areas@[w].available);
                        }
                    }
                }
            }
            k = k + 1;
        }
        let ghost a0 = allocator;
        let kernel_start_frame = kernel_start / PAGE_SIZE;
        let kernel_end_frame = page_div_ceil(kernel_end);
        allocator.allocated_frames = kernel_end_frame - kernel_start_frame;
        let ghost a0b = allocator;
        allocator.mark_frames_used(kernel_start_frame, kernel_end_frame);
        let ghost a1 = allocator;
        let mb_start_frame = boot_info_start / PAGE_SIZE;
        let mb_end_frame = page_div_ceil(boot_info_end);
        allocator.allocated_frames = allocator.allocated_frames + (mb_end_frame - mb_start_frame);
        let ghost a1b = allocator;
        allocator.mark_frames_used(mb_start_frame, mb_end_frame);
        let ghost a2 = allocator;
        let bitmap_start_frame = bitmap_start / PAGE_SIZE;
        let bitmap_end_frame = page_div_ceil(bitmap_start + bitmap_array_size);
        allocator.allocated_frames = allocator.allocated_frames + (bitmap_end_frame
            - bitmap_start_frame);
        let ghost a2b = allocator;
        allocator.mark_frames_used(bitmap_start_frame, bitmap_end_frame);
        let ghost a3 = allocator;
        allocator.allocated_frames = allocator.allocated_frames + 1;
        let ghost a3b = allocator;
        allocator.mark_frame_used(0);
        proof {
            assert forall|i: int| 0 <= i < allocator.frame_count() implies #[trigger] allocator.used(i) == (
            !in_available_area(areas@, i) || in_frames_of(kernel_start as int, kernel_end as int, i)
                || in_frames_of(boot_info_start as int, boot_info_end as int, i) || in_frames_of(
                page_align_up(kernel_end as int),
                page_align_up(kernel_end as int) + boot_frame_count(areas@) / 8,
                i,
            ) || i == 0) by {
                assert(a0.used(i) == !in_available_area(areas@, i));
                assert(a0b.used(i) == a0.used(i));
                assert(a1b.used(i) == a1.used(i));
                assert(a2b.used(i) == a2.used(i));
                assert(a3b.used(i) == a3.used(i));
            }
        }
        allocator
    }

    /// Whether frame `frame_index` is free.
    pub fn is_frame_free(&self, frame_index: usize) -> (r: bool)
        requires
            frame_index < self.frame_count(),
        ensures
            r == !self.used(frame_index as int),
    {
        proof {
            lemma_frame_split(frame_index);
        }
        let byte_index = frame_index >> 3;
        let bit_index = frame_index & 7;
        let b = self.bitmap[byte_index];
        let bit = bit_index as u8;
        assert((b & (1u8 << bit)) == 0u8 <==> (b >> bit) & 1u8 != 1u8) by (bit_vector)
            requires bit < 8;
        (b & (1u8 << bit)) == 0
    }

    /// Whether frame `frame_index` is used.
    pub fn is_frame_used(&self, frame_index: usize) -> (r: bool)
        requires
            frame_index < self.frame_count(),
        ensures
            r == self.used(frame_index as int),
    {
        !self.is_frame_free(frame_index)
    }

    /// Marks frame `frame_index` used.
    pub fn mark_frame_used(&mut self, frame_index: usize)
        requires
            frame_index < old(self).frame_count(),
        ensures
            final(self).frame_count() == old(self).frame_count(),
            final(self).inv() == old(self).inv(),
            final(self).spec_total_frames() == old(self).spec_total_frames(),
            Self::same_bookkeeping(*final(self), *old(self)),
            final(self).spec_allocated_frames() == old(self).spec_allocated_frames(),
            final(self).last_allocated_frame() == old(self).last_allocated_frame(),
            final(self).bitmap_address() == old(self).bitmap_address(),
            forall|i: int|
                0 <= i < final(self).frame_count() ==> #[trigger] final(self).used(i) == (i
                    == frame_index || old(self).used(i)),
    {
        proof {
            lemma_frame_split(frame_index);
        }
        let byte_index = frame_index >> 3;
        let bit = (frame_index & 7) as u8;
        let b = self.bitmap[byte_index];
        proof {
            lemma_set_bit(b, bit);
        }
        self.bitmap.set(byte_index, b | (1u8 << bit));
        proof {
            assert forall|i: int| 0 <= i < self.frame_count() implies #[trigger] self.used(i) == (i
                == frame_index || old(self).used(i)) by {
                if i / 8 == byte_index as int {
                    assert(i % 8 == bit as int <==> i == frame_index);
                }
            }
        }
    }

    /// Marks frame `frame_index` free.
    pub fn mark_frame_free(&mut self, frame_index: usize)
        requires
            frame_index < old(self).frame_count(),
        ensures
            final(self).frame_count() == old(self).frame_count(),
            final(self).inv() == old(self).inv(),
            final(self).spec_total_frames() == old(self).spec_total_frames(),
            Self::same_bookkeeping(*final(self), *old(self)),
            final(self).spec_allocated_frames() == old(self).spec_allocated_frames(),
            final(self).last_allocated_frame() == old(self).last_allocated_frame(),
            final(self).bitmap_address() == old(self).bitmap_address(),
            forall|i: int|
                0 <= i < final(self).frame_count() ==> #[trigger] final(self).used(i) == (i
                    != frame_index && old(self).used(i)),
    {
        proof {
            lemma_frame_split(frame_index);
        }
        let byte_index = frame_index >> 3;
        let bit = (frame_index & 7) as u8;
        let b = self.bitmap[byte_index];
        proof {
            lemma_clear_bit(b, bit);
        }
        self.bitmap.set(byte_index, b & !(1u8 << bit));
        proof {
            assert forall|i: int| 0 <= i < self.frame_count() implies #[trigger] self.used(i) == (i
                != frame_index && old(self).used(i)) by {
                if i / 8 == byte_index as int {
                    assert(i % 8 == bit as int <==> i == frame_index);
                }
            }
        }
    }

    /// Marks the frames `start..end` used.
    pub fn mark_frames_used(&mut self, start: usize, end: usize)
        requires
            start >= end || end <= old(self).frame_count(),
        ensures
            final(self).frame_count() == old(self).frame_count(),
            final(self).inv() == old(self).inv(),
            final(self).spec_total_frames() == old(self).spec_total_frames(),
            Self::same_bookkeeping(*final(self), *old(self)),
            final(self).spec_allocated_frames() == old(self).spec_allocated_frames(),
            final(self).last_allocated_frame() == old(self).last_allocated_frame(),
            final(self).bitmap_address() == old(self).bitmap_address(),
            forall|i: int|
                0 <= i < final(self).frame_count() ==> #[trigger] final(self).used(i) == ((start
                    <= i < end) || old(self).used(i)),
    {
        let mut k = start;
        while k < end
            invariant
                start <= k,
                k <= end || k == start,
                k < end ==> end <= self.frame_count(),
                self.frame_count() == old(self).frame_count(),
                self.inv() == old(self).inv(),
                self.spec_total_frames() == old(self).spec_total_frames(),
                Self::same_bookkeeping(*self, *old(self)),
                forall|i: int|
                    0 <= i < self.frame_count() ==> #[trigger] self.used(i) == ((start <= i < k)
                        || old(self).used(i)),
            decreases end - k,
        {
            self.mark_frame_used(k);
            k = k + 1;
        }
    }

    /// Marks the frames `start..end` free.
    pub fn mark_frames_free(&mut self, start: usize, end: usize)
        requires
            start >= end || end <= old(self).frame_count(),
        ensures
            final(self).frame_count() == old(self).frame_count(),
            final(self).inv() == old(self).inv(),
            final(self).spec_total_frames() == old(self).spec_total_frames(),
            Self::same_bookkeeping(*final(self), *old(self)),
            final(self).spec_allocated_frames() == old(self).spec_allocated_frames(),
            final(self).last_allocated_frame() == old(self).last_allocated_frame(),
            final(self).bitmap_address() == old(self).bitmap_address(),
            forall|i: int|
                0 <= i < final(self).frame_count() ==> #[trigger] final(self).used(i) == (!(start
                    <= i < end) && old(self).used(i)),
    {
        let mut k = start;
        while k < end
            invariant
                start <= k,
                k <= end || k == start,
                k < end ==> end <= self.frame_count(),
                self.frame_count() == old(self).frame_count(),
                self.inv() == old(self).inv(),
                self.spec_total_frames() == old(self).spec_total_frames(),
                Self::same_bookkeeping(*self, *old(self)),
                forall|i: int|
                    0 <= i < self.frame_count() ==> #[trigger] self.used(i) == (!(start <= i < k)
                        && old(self).used(i)),
            decreases end - k,
        {
            self.mark_frame_free(k);
            k = k + 1;
        }
    }

    /// What [`first_free_from`](Self::first_free_from) picks: `Some(i)` is
    /// the lowest free frame in `[from, frame_count)`; `None` means every
    /// frame there is used.
    pub proof fn lemma_first_free_from(&self, from: int)
        ensures
            match self.first_free_from(from) {
                Some(i) => {
                    &&& from <= i < self.frame_count()
                    &&& !self.used(i)
                    &&& forall|j: int| from <= j < i ==> #[trigger] self.used(j)
                },
                None => forall|j: int| from <= j < self.frame_count() ==> #[trigger] self.used(j),
            },
    {
        reveal(first_free);
        let bits = self.bitmap@;
        if exists|i: int| from <= i < bits.len() * 8 && !bits_used(bits, i) {
            let i = choose|i: int| from <= i < bits.len() * 8 && !bits_used(bits, i);
            lemma_lowest_free(bits, from, i);
        } else {
            assert forall|j: int| from <= j < self.frame_count() implies #[trigger] self.used(j) by {
                assert(!(from <= j < bits.len() * 8 && !bits_used(bits, j)));
            }
        }
    }

    proof fn lemma_first_free(&self, from: int, f: int)
        requires
            from <= f < self.frame_count(),
            !self.used(f),
            forall|j: int| from <= j < f ==> #[trigger] self.used(j),
        ensures
            self.first_free_from(from) == Some(f),
    {
        reveal(first_free);
        let bits = self.bitmap@;
        assert forall|j: int| from <= j < f implies #[trigger] bits_used(bits, j) by {
            assert(self.used(j));
        }
        assert(!bits_used(bits, f));
        let c = choose|i: int|
            from <= i < bits.len() * 8 && !bits_used(bits, i) && forall|j: int|
                from <= j < i ==> #[trigger] bits_used(bits, j);
        if c < f {
            assert(bits_used(bits, c));
        } else if f < c {
            assert(bits_used(bits, f));
        }
    }

    /// Takes the lowest free frame at or after byte `offset` of the bitmap:
    /// marks it used and remembers the frame after it.
    fn allocate_frame_helper(&mut self, offset: usize) -> (r: Option<Frame>)
        requires
            old(self).inv(),
        ensures
            final(self).inv(),
            final(self).frame_count() == old(self).frame_count(),
            final(self).spec_total_frames() == old(self).spec_total_frames(),
            final(self).allocated_frames == old(self).allocated_frames,
            final(self).bitmap_start == old(self).bitmap_start,
            match r {
                Some(f) => {
                    &&& old(self).first_free_from(offset * 8) == Some(f.0 as int)
                    &&& f.0 < old(self).frame_count()
                    &&& !old(self).used(f.0 as int)
                    &&& final(self).last_allocated_frame == f.0 + 1
                    &&& forall|i: int|
                        0 <= i < final(self).frame_count() ==> #[trigger] final(self).used(i) == (i
                            == f.0 || old(self).used(i))
                },
                None => {
                    &&& old(self).first_free_from(offset * 8) is None
                    &&& *final(self) == *old(self)
                },
            },
    {
        let mut k = offset;
        while k < self.bitmap.len()
            invariant
                self == old(self),
                self.inv(),
                offset <= k,
                forall|j: int| offset * 8 <= j < k * 8 ==> #[trigger] self.used(j),
            decreases self.bitmap.len() - k,
        {
            let b = self.bitmap[k];
            proof {
                lemma_full_byte(b);
            }
            if b != 0xFF {
                let t = b.trailing_ones();
                proof {
                    axiom_u8_trailing_ones(b);
                    assert forall|j: int| offset * 8 <= j < k * 8 + t implies #[trigger] self.used(j) by {
                        if j >= k * 8 {
                            assert(j / 8 == k);
                            let jj = (j % 8) as u8;
                            assert((b >> jj) & 1u8 == 1u8);
                        }
                    }
                    assert(!self.used(k * 8 + t)) by {
                        assert((k * 8 + t) / 8 == k);
                        assert((k * 8 + t) % 8 == t);
                    }
                    self.lemma_first_free(offset * 8, k * 8 + t);
                    assert(k * 8 + 8 <= self.bitmap.len() * 8) by (nonlinear_arith)
                        requires k < self.bitmap.len();
                }
                let frame = k * 8 + t as usize;
                self.last_allocated_frame = frame + 1;
                self.mark_frame_used(frame);
                return Some(Frame(frame));
            }
            proof {
                assert forall|j: int| offset * 8 <= j < (k + 1) * 8 implies #[trigger] self.used(j) by {
                    if j >= k * 8 {
                        assert(j / 8 == k);
                    }
                }
            }
            k = k + 1;
        }
        proof {
            reveal(first_free);
            let bits = self.bitmap@;
            assert forall|i: int| offset * 8 <= i < bits.len() * 8 implies #[trigger] bits_used(bits, i) by {
                assert(i < k * 8) by (nonlinear_arith)
                    requires i < bits.len() * 8, bits.len() <= k;
                assert(self.used(i));
            }
        }
        None
    }

    /// Number of frames the allocator was told about.
    pub fn total_frames(&self) -> (r: usize)
        ensures
            r == self.spec_total_frames(),
    {
        self.total_frames
    }
}

impl BitmapFrameAllocator {
    proof fn lemma_same_used(a: Self, b: Self)
        requires
            a.bitmap == b.bitmap,
        ensures
            forall|i: int| #[trigger] a.used(i) == b.used(i),
            a.free_frames() == b.free_frames(),
            a.frame_count() == b.frame_count(),
    {
        assert(a.free_frames() =~= b.free_frames());
    }

    proof fn lemma_free_after_use(a: Self, b: Self, f: usize)
        requires
            a.frame_count() == b.frame_count(),
            f < a.frame_count(),
            forall|i: int| 0 <= i < b.frame_count() ==> #[trigger] b.used(i) == (i == f || a.used(i)),
        ensures
            b.free_frames() == a.free_frames().remove(f),
    {
        assert(b.free_frames() =~= a.free_frames().remove(f));
    }
}

impl FrameAllocator for BitmapFrameAllocator {
    open spec fn wf(&self) -> bool {
        self.inv()
    }

    open spec fn free_frames(&self) -> Set<usize> {
        Set::new(|i: usize| i < self.frame_count() && !self.used(i as int))
    }

    open spec fn accepts(&self, frames: Set<usize>) -> bool {
        forall|f: usize| #[trigger] frames.contains(f) ==> f < self.frame_count()
    }

    proof fn lemma_accepts_subset(&self, frames: Set<usize>, fewer: Set<usize>) {
        assert forall|f: usize| #[trigger] fewer.contains(f) implies f < self.frame_count() by {
            assert(frames.contains(f));
        }
    }

    /// Takes the lowest free frame at or after the byte that holds the frame
    /// after the last one handed out, or else the lowest free frame.
    fn allocate_frame(&mut self) -> (r: Option<Frame>)
        ensures
            r == (match old(self).first_free_from((old(self).last_allocated_frame() / 8) * 8) {
                Some(i) => Some(Frame(i as usize)),
                None => match old(self).first_free_from(0) {
                    Some(i) => Some(Frame(i as usize)),
                    None => None,
                },
            }),
            r is None <==> forall|i: int| 0 <= i < old(self).frame_count() ==> #[trigger] old(self).used(i),
            forall|i: int|
                0 <= i < final(self).frame_count() ==> #[trigger] final(self).used(i) == ((r matches Some(f)
                    && i == f.0) || old(self).used(i)),
            final(self).frame_count() == old(self).frame_count(),
            final(self).spec_total_frames() == old(self).spec_total_frames(),
            final(self).last_allocated_frame() == (match r {
                Some(f) => f.0 + 1,
                None => old(self).last_allocated_frame() as int,
            }),
            final(self).spec_allocated_frames() == (if old(self).spec_allocated_frames() == usize::MAX {
                0
            } else {
                old(self).spec_allocated_frames() + 1
            }),
            final(self).bitmap_address() == old(self).bitmap_address(),
    {
        self.allocated_frames = self.allocated_frames.wrapping_add(1);
        let ghost before = *self;
        proof {
            lemma_frame_split(self.last_allocated_frame);
            Self::lemma_same_used(before, *old(self));
        }
        match self.allocate_frame_helper(self.last_allocated_frame >> 3) {
            Some(f) => {
                proof {
                    Self::lemma_free_after_use(*old(self), *self, f.0);
                }
                Some(f)
            },
            None => {
                let r = self.allocate_frame_helper(0);
                proof {
                    match r {
                        Some(f) => {
                            Self::lemma_free_after_use(*old(self), *self, f.0);
                        },
                        None => {
                            reveal(first_free);
                            assert forall|i: int| 0 <= i < old(self).frame_count() implies #[trigger] old(
                                self,
                            ).used(i) by {
                                assert(before.used(i));
                            }
                            Self::lemma_same_used(*self, *old(self));
                        },
                    }
                }
                r
            },
        }
    }

    /// Marks `frame` free.
    fn deallocate_frame(&mut self, frame: Frame) {
        assert(set![frame.0].contains(frame.0));
        self.mark_frame_free(frame.0);
        proof {
            assert(self.free_frames() =~= old(self).free_frames().insert(frame.0));
        }
    }

    /// The addresses the bitmap occupies.
    fn bounds(&self) -> (r: (usize, usize))
        ensures
            r == (self.bitmap_address(), (self.bitmap_address() + self.frame_count() / 8) as usize),
    {
        (self.bitmap_start, self.bitmap_start + self.bitmap.len())
    }
}

/// Right after `new`, the allocator hands out no frame that the boot layout
/// reserves: every free frame lies in an available area, outside the kernel,
/// the boot information and the bitmap, and is not frame 0.
pub proof fn lemma_reserved_frames_not_free(
    a: BitmapFrameAllocator,
    areas: Seq<MemoryArea>,
    kernel_start: usize,
    kernel_end: usize,
    boot_info_start: usize,
    boot_info_end: usize,
    f: usize,
)
    requires
        forall|i: int|
            0 <= i < a.frame_count() ==> #[trigger] a.used(i) == boot_reserved(
                areas,
                kernel_start,
                kernel_end,
                boot_info_start,
                boot_info_end,
                i,
            ),
        a.free_frames().contains(f),
    ensures
        !boot_reserved(areas, kernel_start, kernel_end, boot_info_start, boot_info_end, f as int),
{
    assert(!a.used(f as int));
}

} // verus!
