use vstd::prelude::*;

pub mod bitmapframealloc;
pub mod heap;
pub mod paging;
pub mod tinyalloc;

verus! {

/// Size of a physical frame and of a virtual page, in bytes.
pub const PAGE_SIZE: usize = 4096;

/// Number of frames that x86_64 physical addresses (52 bits) can name.
pub const MAX_FRAME_COUNT: u64 = 0x100_0000_0000;

/// A physical frame, identified by its index (its start address divided by
/// [`PAGE_SIZE`]).
#[derive(Debug, Clone, Copy, PartialEq, Eq, PartialOrd, Ord)]
pub struct Frame(pub usize);

impl Frame {
    /// First byte address of the frame.
    pub fn start_address(&self) -> (r: usize)
        requires
            self.0 * PAGE_SIZE <= usize::MAX,
        ensures
            r == self.0 * PAGE_SIZE,
    {
        self.0 * PAGE_SIZE
    }

    /// Address one past the last byte of the frame.
    pub fn end_address(&self) -> (r: usize)
        requires
            (self.0 + 1) * PAGE_SIZE <= usize::MAX,
        ensures
            r == (self.0 + 1) * PAGE_SIZE,
    {
        (self.0 + 1) * PAGE_SIZE
    }

    /// The frame that contains the byte at `addr`.
    pub fn from_addr(addr: usize) -> (r: Frame)
        ensures
            r.0 == addr / PAGE_SIZE,
    {
        Frame(addr / PAGE_SIZE)
    }
}

/// A frame that `allocate_frame` took from the free frames and that
/// `deallocate_frame` gave back leaves the free frames as they were.
pub proof fn lemma_allocate_then_deallocate(free: Set<usize>, f: usize)
    requires
        free.contains(f),
    ensures
        free.remove(f).insert(f) == free,
{
    assert(free.remove(f).insert(f) =~= free);
}

/// Two allocations with no deallocation between them hand out different
/// frames: the first leaves the free frames, and the second comes from what
/// is left.
pub proof fn lemma_allocations_differ(free0: Set<usize>, first: usize, free1: Set<usize>, second: usize)
    requires
        free1 == free0.remove(first),
        free1.contains(second),
    ensures
        first != second,
{
}

/// A source of physical frames.
///
/// `free_frames` is the set of frame indices the allocator may still hand out.
/// Every frame handed out comes from that set and leaves it; every frame given
/// back joins it.
pub trait FrameAllocator {
    /// The allocator's internal invariant.
    spec fn wf(&self) -> bool;

    /// Frames that `allocate_frame` may return.
    spec fn free_frames(&self) -> Set<usize>;

    /// Whether the allocator takes back every frame of `frames`, one after
    /// another in any order.
    spec fn accepts(&self, frames: Set<usize>) -> bool;

    /// Taking back fewer frames never fails where taking back more does not.
    proof fn lemma_accepts_subset(&self, frames: Set<usize>, fewer: Set<usize>)
        requires
            self.wf(),
            self.accepts(frames),
            fewer.subset_of(frames),
        ensures
            self.accepts(fewer),
    ;

    /// Hands out a free frame, or `None` exactly when it has none to give.
    fn allocate_frame(&mut self) -> (r: Option<Frame>)
        requires
            old(self).wf(),
        ensures
            final(self).wf(),
            match r {
                Some(f) => {
                    &&& old(self).free_frames().contains(f.0)
                    &&& final(self).free_frames() == old(self).free_frames().remove(f.0)
                    &&& f.0 < MAX_FRAME_COUNT
                },
                None => {
                    &&& final(self).free_frames() == old(self).free_frames()
                    &&& old(self).free_frames() == Set::<usize>::empty()
                },
            },
    ;

    /// Takes a frame back, so that it can be handed out again.
    fn deallocate_frame(&mut self, frame: Frame)
        requires
            old(self).wf(),
            old(self).accepts(set![frame.0]),
        ensures
            final(self).wf(),
            final(self).free_frames() == old(self).free_frames().insert(frame.0),
            forall|s: Set<usize>|
                old(self).accepts(s) && s.contains(frame.0) ==> #[trigger] final(self).accepts(
                    s.remove(frame.0),
                ),
    ;

    /// The address range `(start, end)` of memory the allocator itself uses.
    fn bounds(&self) -> (r: (usize, usize))
        requires
            self.wf(),
        ensures
            r.0 <= r.1,
    ;
}

} // verus!
