use vstd::prelude::*;

verus! {

/// Smallest block the allocator hands out or keeps: the size of a free-block
/// header (a size and a link).
pub const MIN_BLOCK_SIZE: usize = 16;

/// Alignment of a free-block header.
pub const BLOCK_ALIGNMENT: usize = 8;

/// A free region of the heap: `size` bytes from `start`.
#[derive(Debug, Clone, Copy, PartialEq, Eq)]
pub struct FreeBlock {
    pub start: usize,
    pub size: usize,
}

impl FreeBlock {
    /// First address of the block.
    pub fn start_addr(&self) -> (r: usize)
        ensures
            r == self.start,
    {
        self.start
    }

    /// Address one past the block's end.
    pub fn end_addr(&self) -> (r: usize)
        requires
            self.start + self.size <= usize::MAX,
        ensures
            r == self.start + self.size,
    {
        self.start + self.size
    }
}

/// `addr` rounded up to a multiple of `align`.
pub open spec fn align_up(addr: int, align: int) -> int {
    ((addr + align - 1) / align) * align
}

/// Whether `x` is a power of two.
pub open spec fn is_power_of_two(x: int) -> bool
    decreases x,
{
    if x <= 0 {
        false
    } else if x == 1 {
        true
    } else {
        x % 2 == 0 && is_power_of_two(x / 2)
    }
}

/// Size actually reserved for a request of `size` bytes.
pub open spec fn effective_size(size: int) -> int {
    if size < 16 {
        16
    } else {
        size
    }
}

/// Alignment actually used for a request aligned to `align`.
pub open spec fn effective_align(align: int) -> int {
    if align < 8 {
        8
    } else {
        align
    }
}

/// Where an allocation aligned to `ea` starts inside block `b`: the first
/// aligned address, moved on when the gap in front of it is too small to be
/// a block of its own.
pub open spec fn alloc_start_in(b: FreeBlock, ea: int) -> int {
    let s0 = align_up(b.start as int, ea);
    if s0 - b.start > 0 && s0 - b.start < 16 {
        align_up(b.start + 16, ea)
    } else {
        s0
    }
}

/// Whether an allocation of `es` bytes aligned to `ea` fits in `b`.
pub open spec fn fits(b: FreeBlock, es: int, ea: int) -> bool {
    alloc_start_in(b, ea) + es <= b.start + b.size
}

/// The free blocks left of `b` after an allocation of `es` bytes aligned to
/// `ea`: the gap in front, and the rest behind (from the next 8-byte
/// boundary), each where it is at least [`MIN_BLOCK_SIZE`] bytes.
pub open spec fn carve(b: FreeBlock, es: int, ea: int) -> Seq<FreeBlock> {
    let a = alloc_start_in(b, ea);
    let front = a - b.start;
    let rem_start = align_up(a + es, 8);
    let rem_size = b.start + b.size - rem_start;
    (if front >= 16 {
        seq![FreeBlock { start: b.start, size: front as usize }]
    } else {
        Seq::<FreeBlock>::empty()
    }) + (if rem_size >= 16 {
        seq![FreeBlock { start: rem_start as usize, size: rem_size as usize }]
    } else {
        Seq::<FreeBlock>::empty()
    })
}

/// The first block of `blocks`, from index `k` on, that an allocation of
/// `es` bytes aligned to `ea` fits in.
pub open spec fn first_fit_from(blocks: Seq<FreeBlock>, es: int, ea: int, k: int) -> Option<int>
    decreases blocks.len() - k,
{
    if k < 0 || k >= blocks.len() {
        None
    } else if fits(blocks[k], es, ea) {
        Some(k)
    } else {
        first_fit_from(blocks, es, ea, k + 1)
    }
}

/// The first block of `blocks` that an allocation fits in.
pub open spec fn first_fit(blocks: Seq<FreeBlock>, es: int, ea: int) -> Option<int> {
    first_fit_from(blocks, es, ea, 0)
}

/// What [`first_fit_from`] finds: the lowest index from `k` on whose block
/// the allocation fits in, or `None` where there is none.
pub proof fn lemma_first_fit_from(blocks: Seq<FreeBlock>, es: int, ea: int, k: int)
    requires
        0 <= k,
    ensures
        match first_fit_from(blocks, es, ea, k) {
            Some(i) => k <= i < blocks.len() && fits(blocks[i], es, ea) && forall|j: int|
                k <= j < i ==> !#[trigger] fits(blocks[j], es, ea),
            None => forall|j: int| k <= j < blocks.len() ==> !#[trigger] fits(blocks[j], es, ea),
        },
    decreases blocks.len() - k,
{
    if k < blocks.len() && !fits(blocks[k], es, ea) {
        lemma_first_fit_from(blocks, es, ea, k + 1);
    }
}

/// A block lies in the address space, above zero.
pub open spec fn block_ok(b: FreeBlock) -> bool {
    &&& b.start > 0
    &&& b.start + b.size <= usize::MAX
}

/// Blocks `a` and `b` do not overlap.
pub open spec fn disjoint(a: FreeBlock, b: FreeBlock) -> bool {
    a.start + a.size <= b.start || b.start + b.size <= a.start
}

/// No two blocks of `blocks` overlap.
pub open spec fn pairwise_disjoint(blocks: Seq<FreeBlock>) -> bool {
    forall|i: int, j: int| 0 <= i < j < blocks.len() ==> disjoint(#[trigger] blocks[i], #[trigger] blocks[j])
}

/// Block `inner` lies inside block `outer`.
pub open spec fn within(inner: FreeBlock, outer: FreeBlock) -> bool {
    outer.start <= inner.start && inner.start + inner.size <= outer.start + outer.size
}

proof fn lemma_carve(b: FreeBlock, es: int, ea: int)
    requires
        block_ok(b),
        ea > 0,
        es >= 16,
        fits(b, es, ea),
    ensures
        ({
            let a = alloc_start_in(b, ea);
            let c = carve(b, es, ea);
            &&& b.start <= a
            &&& a + es <= b.start + b.size
            &&& pairwise_disjoint(c)
            &&& forall|k: int| 0 <= k < c.len() ==> within(#[trigger] c[k], b) && block_ok(c[k])
            &&& forall|k: int|
                0 <= k < c.len() ==> #[trigger] c[k].start + c[k].size <= a || a + es <= c[k].start
        }),
{
    LinkedListAllocator::lemma_align_up_bounds(b.start as int, ea);
    LinkedListAllocator::lemma_align_up_bounds(b.start + 16, ea);
    let a = alloc_start_in(b, ea);
    LinkedListAllocator::lemma_align_up_bounds(a + es, 8);
}

proof fn lemma_splice(blocks: Seq<FreeBlock>, i: int, c: Seq<FreeBlock>)
    requires
        0 <= i < blocks.len(),
        pairwise_disjoint(blocks),
        pairwise_disjoint(c),
        forall|k: int| 0 <= k < c.len() ==> within(#[trigger] c[k], blocks[i]),
    ensures
        pairwise_disjoint(blocks.take(i) + c + blocks.skip(i + 1)),
{
    let after = blocks.take(i) + c + blocks.skip(i + 1);
    let b = blocks[i];
    let n = i + c.len();
    assert forall|x: int, y: int| 0 <= x < y < after.len() implies disjoint(#[trigger] after[x], #[trigger] after[y]) by {
        if x < i && y < i {
            assert(after[x] == blocks[x] && after[y] == blocks[y]);
        } else if x < i && y < n {
            assert(after[x] == blocks[x] && after[y] == c[y - i]);
            assert(disjoint(blocks[x], b));
            assert(within(c[y - i], b));
        } else if x < i {
            assert(after[x] == blocks[x] && after[y] == blocks[y - n + i + 1]);
        } else if x < n && y < n {
            assert(after[x] == c[x - i] && after[y] == c[y - i]);
        } else if x < n {
            assert(after[x] == c[x - i] && after[y] == blocks[y - n + i + 1]);
            assert(disjoint(b, blocks[y - n + i + 1]));
            assert(within(c[x - i], b));
        } else {
            assert(after[x] == blocks[x - n + i + 1] && after[y] == blocks[y - n + i + 1]);
        }
    }
}

/// An allocation from a list of non-overlapping free blocks takes its bytes
/// from inside the block it fits in; what stays free still does not overlap,
/// and no longer covers the bytes handed out.
pub proof fn lemma_allocation_leaves_free_blocks_disjoint(blocks: Seq<FreeBlock>, size: int, align: int)
    requires
        pairwise_disjoint(blocks),
        forall|k: int| 0 <= k < blocks.len() ==> block_ok(#[trigger] blocks[k]),
        align > 0,
        first_fit(blocks, effective_size(size), effective_align(align)) is Some,
    ensures
        ({
            let es = effective_size(size);
            let ea = effective_align(align);
            let i = first_fit(blocks, es, ea)->0;
            let a = alloc_start_in(blocks[i], ea);
            let after = blocks.take(i) + carve(blocks[i], es, ea) + blocks.skip(i + 1);
            &&& blocks[i].start <= a
            &&& a + es <= blocks[i].start + blocks[i].size
            &&& pairwise_disjoint(after)
            &&& forall|k: int|
                0 <= k < after.len() ==> #[trigger] after[k].start + after[k].size <= a || a + es
                    <= after[k].start
        }),
{
    let es = effective_size(size);
    let ea = effective_align(align);
    let i = first_fit(blocks, es, ea)->0;
    lemma_first_fit_from(blocks, es, ea, 0);
    let b = blocks[i];
    let a = alloc_start_in(b, ea);
    let c = carve(b, es, ea);
    lemma_carve(b, es, ea);
    lemma_splice(blocks, i, c);
    lemma_splice_avoids(blocks, i, c, a, a + es);
}

/// Every block starts at a multiple of [`BLOCK_ALIGNMENT`] and holds at
/// least [`MIN_BLOCK_SIZE`] bytes.
pub open spec fn blocks_aligned(blocks: Seq<FreeBlock>) -> bool {
    forall|k: int| 0 <= k < blocks.len() ==> (#[trigger] blocks[k]).start % 8 == 0 && blocks[k].size >= 16
}

/// The free-list law of an allocation: from non-overlapping blocks that lie
/// in the address space, each aligned and at least [`MIN_BLOCK_SIZE`] bytes
/// long, an allocation (`kmalloc`'s first fit) returns an address aligned to
/// the request, inside the block it fits in; the blocks left are again
/// non-overlapping, in the address space, aligned and of at least the minimum
/// size; they overlap none of the bytes handed out; and every other block is
/// still among them.
pub proof fn lemma_allocation_keeps_free_list(blocks: Seq<FreeBlock>, size: int, align: int)
    requires
        pairwise_disjoint(blocks),
        forall|k: int| 0 <= k < blocks.len() ==> block_ok(#[trigger] blocks[k]),
        blocks_aligned(blocks),
        is_power_of_two(align),
        first_fit(blocks, effective_size(size), effective_align(align)) is Some,
    ensures
        ({
            let es = effective_size(size);
            let ea = effective_align(align);
            let i = first_fit(blocks, es, ea)->0;
            let a = alloc_start_in(blocks[i], ea);
            let after = blocks.take(i) + carve(blocks[i], es, ea) + blocks.skip(i + 1);
            &&& a % ea == 0
            &&& a % align == 0
            &&& blocks[i].start <= a
            &&& a + es <= blocks[i].start + blocks[i].size
            &&& pairwise_disjoint(after)
            &&& forall|k: int| 0 <= k < after.len() ==> block_ok(#[trigger] after[k])
            &&& blocks_aligned(after)
            &&& forall|k: int|
                0 <= k < after.len() ==> #[trigger] after[k].start + after[k].size <= a || a + es
                    <= after[k].start
            &&& forall|k: int| 0 <= k < blocks.len() && k != i ==> after.contains(#[trigger] blocks[k])
        }),
{
    let es = effective_size(size);
    let ea = effective_align(align);
    LinkedListAllocator::lemma_effective_align(align);
    lemma_allocation_leaves_free_blocks_disjoint(blocks, size, align);
    let i = first_fit(blocks, es, ea)->0;
    lemma_first_fit_from(blocks, es, ea, 0);
    let b = blocks[i];
    let a = alloc_start_in(b, ea);
    let c = carve(b, es, ea);
    lemma_carve(b, es, ea);
    LinkedListAllocator::lemma_align_up_bounds(b.start as int, ea);
    LinkedListAllocator::lemma_align_up_bounds(b.start + 16, ea);
    assert(a % ea == 0);
    LinkedListAllocator::lemma_multiple(a, ea, align);
    LinkedListAllocator::lemma_align_up_bounds(a + es, 8);
    let after = blocks.take(i) + c + blocks.skip(i + 1);
    let n = i + c.len();
    assert forall|k: int| 0 <= k < after.len() implies block_ok(#[trigger] after[k]) && after[k].start % 8 == 0
        && after[k].size >= 16 by {
        if k < i {
            assert(after[k] == blocks[k]);
        } else if k < n {
            assert(after[k] == c[k - i]);
        } else {
            assert(after[k] == blocks[k - n + i + 1]);
        }
    }
    assert forall|k: int| 0 <= k < blocks.len() && k != i implies after.contains(#[trigger] blocks[k]) by {
        if k < i {
            assert(after[k] == blocks[k]);
        } else {
            assert(after[k - i - 1 + n] == blocks[k]);
        }
    }
}

/// An allocation loses no free memory but runs too short to be a block:
/// the bytes of the chosen block in front of the allocation stay one free
/// block when there are at least [`MIN_BLOCK_SIZE`] of them, and so do the
/// bytes behind it from the next 8-byte boundary; every other block stays
/// free as it was.
pub proof fn lemma_allocation_keeps_gaps(blocks: Seq<FreeBlock>, size: int, align: int)
    requires
        forall|k: int| 0 <= k < blocks.len() ==> block_ok(#[trigger] blocks[k]),
        align > 0,
        first_fit(blocks, effective_size(size), effective_align(align)) is Some,
    ensures
        ({
            let es = effective_size(size);
            let ea = effective_align(align);
            let i = first_fit(blocks, es, ea)->0;
            let b = blocks[i];
            let a = alloc_start_in(b, ea);
            let back = align_up(a + es, 8);
            let after = blocks.take(i) + carve(b, es, ea) + blocks.skip(i + 1);
            &&& b.start <= a
            &&& a - b.start >= MIN_BLOCK_SIZE ==> after.contains(
                FreeBlock { start: b.start, size: (a - b.start) as usize },
            )
            &&& b.start + b.size - back >= MIN_BLOCK_SIZE ==> after.contains(
                FreeBlock { start: back as usize, size: (b.start + b.size - back) as usize },
            )
            &&& forall|k: int| 0 <= k < blocks.len() && k != i ==> after.contains(#[trigger] blocks[k])
        }),
{
    let es = effective_size(size);
    let ea = effective_align(align);
    let i = first_fit(blocks, es, ea)->0;
    lemma_first_fit_from(blocks, es, ea, 0);
    let b = blocks[i];
    let a = alloc_start_in(b, ea);
    let c = carve(b, es, ea);
    lemma_carve(b, es, ea);
    let after = blocks.take(i) + c + blocks.skip(i + 1);
    let n = i + c.len();
    if a - b.start >= 16 {
        assert(after[i] == c[0]);
    }
    if b.start + b.size - align_up(a + es, 8) >= 16 {
        assert(after[n - 1] == c[c.len() - 1]);
    }
    assert forall|k: int| 0 <= k < blocks.len() && k != i implies after.contains(#[trigger] blocks[k]) by {
        if k < i {
            assert(after[k] == blocks[k]);
        } else {
            assert(after[k - i - 1 + n] == blocks[k]);
        }
    }
}

proof fn lemma_splice_avoids(blocks: Seq<FreeBlock>, i: int, c: Seq<FreeBlock>, lo: int, hi: int)
    requires
        0 <= i < blocks.len(),
        pairwise_disjoint(blocks),
        blocks[i].start <= lo,
        hi <= blocks[i].start + blocks[i].size,
        forall|k: int| 0 <= k < c.len() ==> #[trigger] c[k].start + c[k].size <= lo || hi <= c[k].start,
    ensures
        ({
            let after = blocks.take(i) + c + blocks.skip(i + 1);
            forall|k: int|
                0 <= k < after.len() ==> #[trigger] after[k].start + after[k].size <= lo || hi <= after[k].start
        }),
{
    let after = blocks.take(i) + c + blocks.skip(i + 1);
    let b = blocks[i];
    let n = i + c.len();
    assert forall|k: int| 0 <= k < after.len() implies #[trigger] after[k].start + after[k].size <= lo || hi
        <= after[k].start by {
        if k < i {
            assert(after[k] == blocks[k] && disjoint(blocks[k], b));
        } else if k < n {
            assert(after[k] == c[k - i]);
        } else {
            assert(after[k] == blocks[k - n + i + 1] && disjoint(b, blocks[k - n + i + 1]));
        }
    }
}

/// Memory given back with `kfree` is what the next `kmalloc` of the same
/// size hands out, where the address is aligned for the request: the freed
/// block comes first in the list and the request fits at its start.
pub proof fn lemma_freed_block_is_reused(blocks: Seq<FreeBlock>, ptr: usize, size: int, align: int)
    requires
        align > 0,
        ptr as int % effective_align(align) == 0,
    ensures
        ({
            let es = effective_size(size);
            let ea = effective_align(align);
            let b = FreeBlock { start: ptr, size: es as usize };
            &&& alloc_start_in(b, ea) == ptr
            &&& es <= usize::MAX ==> first_fit(seq![b] + blocks, es, ea) == Some(0int)
        }),
{
    let es = effective_size(size);
    let ea = effective_align(align);
    let q = ptr as int / ea;
    vstd::arithmetic::div_mod::lemma_fundamental_div_mod(ptr as int, ea);
    assert(ptr == q * ea) by (nonlinear_arith)
        requires
            ptr == ea * q + ptr as int % ea,
            ptr as int % ea == 0,
    ;
    vstd::arithmetic::div_mod::lemma_fundamental_div_mod_converse(ptr + ea - 1, ea, q, ea - 1);
    assert(align_up(ptr as int, ea) == ptr);
}

/// A first-fit heap allocator over a list of free blocks.
pub struct LinkedListAllocator {
    heap_size: usize,
    blocks: Vec<FreeBlock>,
}

impl LinkedListAllocator {
    /// The free blocks, in list order.
    pub closed spec fn free_blocks(&self) -> Seq<FreeBlock> {
        self.blocks@
    }

    /// Size of the heap given to [`init`](Self::init).
    pub closed spec fn spec_heap_size(&self) -> usize {
        self.heap_size
    }

    /// The internal invariant: every block lies in the address space, above
    /// zero.
    pub closed spec fn wf(&self) -> bool {
        forall|i: int| 0 <= i < self.blocks.len() ==> block_ok(#[trigger] self.blocks[i])
    }

    /// A well-formed allocator's free blocks all lie in the address space,
    /// above zero.
    pub proof fn lemma_wf_blocks_ok(&self)
        requires
            self.wf(),
        ensures
            forall|k: int| 0 <= k < self.free_blocks().len() ==> block_ok(#[trigger] self.free_blocks()[k]),
    {
    }

    /// An allocator with no memory.
    pub fn new() -> (r: Self)
        ensures
            r.wf(),
            r.free_blocks() == Seq::<FreeBlock>::empty(),
            r.spec_heap_size() == 0,
    {
        LinkedListAllocator { heap_size: 0, blocks: Vec::new() }
    }

    /// Hands the allocator the heap of `heap_size` bytes at `heap_start`: one
    /// free block.
    pub fn init(&mut self, heap_start: usize, heap_size: usize)
        requires
            heap_size >= MIN_BLOCK_SIZE,
            heap_start > 0,
            heap_start + heap_size <= usize::MAX,
        ensures
            final(self).wf(),
            final(self).free_blocks() == seq![FreeBlock { start: heap_start, size: heap_size }],
            final(self).spec_heap_size() == heap_size,
    {
        self.heap_size = heap_size;
        let mut blocks: Vec<FreeBlock> = Vec::new();
        blocks.push(FreeBlock { start: heap_start, size: heap_size });
        self.blocks = blocks;
        proof {
            assert(self.blocks@ =~= seq![FreeBlock { start: heap_start, size: heap_size }]);
        }
    }

    proof fn lemma_first_fit(blocks: Seq<FreeBlock>, es: int, ea: int, i: int)
        requires
            0 <= i < blocks.len(),
            fits(blocks[i], es, ea),
            forall|j: int| 0 <= j < i ==> !#[trigger] fits(blocks[j], es, ea),
        ensures
            first_fit(blocks, es, ea) == Some(i),
    {
        lemma_first_fit_from(blocks, es, ea, 0);
        match first_fit(blocks, es, ea) {
            Some(c) => {
                if c < i {
                    assert(!fits(blocks[c], es, ea));
                } else if i < c {
                    assert(!fits(blocks[i], es, ea));
                }
            },
            None => {
                assert(!fits(blocks[i], es, ea));
            },
        }
    }

    /// Allocates `size` bytes aligned to `align` from the first free block
    /// they fit in (at least [`MIN_BLOCK_SIZE`] bytes, aligned to at least
    /// [`BLOCK_ALIGNMENT`]), and returns their address.
    pub fn kmalloc(&mut self, size: usize, align: usize) -> (r: Option<usize>)
        requires
            old(self).wf(),
            is_power_of_two(align as int),
        ensures
            final(self).wf(),
            final(self).spec_heap_size() == old(self).spec_heap_size(),
            match first_fit(old(self).free_blocks(), effective_size(size as int), effective_align(align as int)) {
                Some(i) => {
                    &&& r == Some(alloc_start_in(old(self).free_blocks()[i], effective_align(align as int)) as usize)
                    &&& final(self).free_blocks() == old(self).free_blocks().take(i) + carve(
                        old(self).free_blocks()[i],
                        effective_size(size as int),
                        effective_align(align as int),
                    ) + old(self).free_blocks().skip(i + 1)
                },
                None => {
                    &&& r is None
                    &&& final(self).free_blocks() == old(self).free_blocks()
                },
            },
            r matches Some(a) ==> a > 0 && a % align == 0,
            pairwise_disjoint(old(self).free_blocks()) && blocks_aligned(old(self).free_blocks()) ==> {
                &&& pairwise_disjoint(final(self).free_blocks())
                &&& blocks_aligned(final(self).free_blocks())
            },
    {
        let es: usize = if size < MIN_BLOCK_SIZE {
            MIN_BLOCK_SIZE
        } else {
            size
        };
        let ea: usize = if align < BLOCK_ALIGNMENT {
            BLOCK_ALIGNMENT
        } else {
            align
        };
        proof {
            Self::lemma_effective_align(align as int);
        }
        let mut i: usize = 0;
        while i < self.blocks.len()
            invariant
                self == old(self),
                self.wf(),
                i <= self.blocks.len(),
                es == effective_size(size as int),
                ea == effective_align(align as int),
                ea > 0,
                ea % align == 0,
                align > 0,
                is_power_of_two(align as int),
                forall|j: int| 0 <= j < i ==> !#[trigger] fits(self.blocks[j], es as int, ea as int),
            decreases self.blocks.len() - i,
        {
            let b = self.blocks[i];
            assert(block_ok(b));
            let start: u128 = b.start as u128;
            let end: u128 = start + b.size as u128;
            let ea2: u128 = ea as u128;
            proof {
                Self::lemma_align_up_bounds(start as int, ea as int);
                Self::lemma_align_up_bounds(start + 16, ea as int);
            }
            let mut alloc_start: u128 = ((start + ea2 - 1) / ea2) * ea2;
            let mut front: u128 = alloc_start - start;
            if front > 0 && front < 16 {
                alloc_start = ((start + 16 + ea2 - 1) / ea2) * ea2;
                front = alloc_start - start;
            }
            assert(alloc_start == alloc_start_in(b, ea as int));
            let alloc_end: u128 = alloc_start + es as u128;
            if alloc_end <= end {
                proof {
                    Self::lemma_align_up_bounds(alloc_end as int, 8);
                    Self::lemma_first_fit(self.blocks@, es as int, ea as int, i as int);
                }
                let rem_start: u128 = ((alloc_end + 7) / 8) * 8;
                let rem_size: u128 = if end > rem_start {
                    end - rem_start
                } else {
                    0
                };
                let ghost carved = carve(b, es as int, ea as int);
                if front >= 16 {
                    self.blocks.set(i, FreeBlock { start: b.start, size: front as usize });
                    if rem_size >= 16 {
                        self.blocks.insert(i + 1, FreeBlock { start: rem_start as usize, size: rem_size as usize });
                    }
                } else {
                    if rem_size >= 16 {
                        self.blocks.set(i, FreeBlock { start: rem_start as usize, size: rem_size as usize });
                    } else {
                        self.blocks.remove(i);
                    }
                }
                proof {
                    assert(self.blocks@ =~= old(self).blocks@.take(i as int) + carved + old(self).blocks@.skip(i as int + 1));
                    Self::lemma_multiple(alloc_start as int, ea as int, align as int);
                    if pairwise_disjoint(old(self).blocks@) && blocks_aligned(old(self).blocks@) {
                        lemma_allocation_keeps_free_list(old(self).blocks@, size as int, align as int);
                    }
                }
                return Some(alloc_start as usize);
            }
            i = i + 1;
        }
        proof {
            lemma_first_fit_from(self.blocks@, es as int, ea as int, 0);
        }
        None
    }

    proof fn lemma_effective_align(align: int)
        requires
            is_power_of_two(align),
        ensures
            effective_align(align) > 0,
            effective_align(align) % align == 0,
            align > 0,
    {
        reveal_with_fuel(is_power_of_two, 4);
        if align < 8 {
            assert(align == 1 || align == 2 || align == 4);
            if align == 1 {
                assert(8int % 1int == 0);
            } else if align == 2 {
                assert(8int % 2int == 0);
            } else {
                assert(8int % 4int == 0);
            }
        } else {
            vstd::arithmetic::div_mod::lemma_mod_self_0(align);
        }
    }

    proof fn lemma_align_up_bounds(addr: int, ea: int)
        requires
            addr >= 0,
            ea > 0,
        ensures
            addr <= align_up(addr, ea) < addr + ea,
            align_up(addr, ea) % ea == 0,
    {
        assert(addr <= ((addr + ea - 1) / ea) * ea < addr + ea) by (nonlinear_arith)
            requires addr >= 0, ea > 0;
        assert((((addr + ea - 1) / ea) * ea) % ea == 0) by (nonlinear_arith)
            requires addr >= 0, ea > 0;
    }

    proof fn lemma_multiple(a: int, ea: int, align: int)
        requires
            a % ea == 0,
            ea % align == 0,
            ea > 0,
            align > 0,
        ensures
            a % align == 0,
    {
        vstd::arithmetic::div_mod::lemma_fundamental_div_mod(a, ea);
        vstd::arithmetic::div_mod::lemma_fundamental_div_mod(ea, align);
        let q = a / ea;
        let p = ea / align;
        assert(a == (q * p) * align) by (nonlinear_arith)
            requires a == ea * q, ea == align * p;
        vstd::arithmetic::div_mod::lemma_mod_multiples_basic(q * p, align);
    }

    /// Gives back the `size` bytes at `ptr` (at least [`MIN_BLOCK_SIZE`]):
    /// they become the first free block.
    pub fn kfree(&mut self, ptr: usize, size: usize, align: usize)
        requires
            old(self).wf(),
            ptr > 0,
            ptr + effective_size(size as int) <= usize::MAX,
        ensures
            final(self).wf(),
            final(self).spec_heap_size() == old(self).spec_heap_size(),
            final(self).free_blocks() == seq![FreeBlock { start: ptr, size: effective_size(size as int) as usize }]
                + old(self).free_blocks(),
            blocks_aligned(old(self).free_blocks()) && ptr % 8 == 0 ==> blocks_aligned(final(self).free_blocks()),
    {
        let es: usize = if size < MIN_BLOCK_SIZE {
            MIN_BLOCK_SIZE
        } else {
            size
        };
        self.blocks.insert(0, FreeBlock { start: ptr, size: es });
        proof {
            assert(self.blocks@ =~= seq![FreeBlock { start: ptr, size: es }] + old(self).blocks@);
        }
    }
}

} // verus!
