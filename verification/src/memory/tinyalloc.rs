use vstd::prelude::*;

use super::{Frame, FrameAllocator, MAX_FRAME_COUNT};

verus! {

/// Number of empty slots in `slots`.
pub open spec fn empty_slots(slots: Seq<Option<Frame>>) -> nat
    decreases slots.len(),
{
    if slots.len() == 0 {
        0
    } else {
        empty_slots(slots.drop_last()) + if slots.last() is None {
            1nat
        } else {
            0nat
        }
    }
}

/// The frames that `slots` hold.
pub open spec fn held_frames(slots: Seq<Option<Frame>>) -> Set<usize> {
    Set::new(|f: usize| exists|k: int| 0 <= k < slots.len() && #[trigger] slots[k] == Some(Frame(f)))
}

proof fn lemma_empty_slots_update(slots: Seq<Option<Frame>>, k: int, v: Option<Frame>)
    requires
        0 <= k < slots.len(),
    ensures
        empty_slots(slots.update(k, v)) + (if slots[k] is None {
            1int
        } else {
            0int
        }) == empty_slots(slots) + (if v is None {
            1int
        } else {
            0int
        }),
    decreases slots.len(),
{
    if k < slots.len() - 1 {
        lemma_empty_slots_update(slots.drop_last(), k, v);
        assert(slots.update(k, v).drop_last() =~= slots.drop_last().update(k, v));
    } else {
        assert(slots.update(k, v).drop_last() =~= slots.drop_last());
    }
}

proof fn lemma_empty_slots_none(slots: Seq<Option<Frame>>)
    requires
        forall|k: int| 0 <= k < slots.len() ==> #[trigger] slots[k] is None,
    ensures
        empty_slots(slots) == slots.len(),
    decreases slots.len(),
{
    if slots.len() > 0 {
        lemma_empty_slots_none(slots.drop_last());
    }
}

/// No frame sits in two slots of `slots`.
pub open spec fn distinct_slots(slots: Seq<Option<Frame>>) -> bool {
    forall|a: int, b: int|
        0 <= a < b < slots.len() && #[trigger] slots[a] is Some && #[trigger] slots[b] is Some ==> slots[a] != slots[b]
}

proof fn lemma_held_finite(slots: Seq<Option<Frame>>)
    ensures
        held_frames(slots).finite(),
        held_frames(slots).len() + empty_slots(slots) <= slots.len(),
        distinct_slots(slots) ==> held_frames(slots).len() + empty_slots(slots) == slots.len(),
    decreases slots.len(),
{
    if slots.len() == 0 {
        assert(held_frames(slots) =~= Set::empty());
    } else {
        let rest = slots.drop_last();
        lemma_held_finite(rest);
        match slots.last() {
            Some(f) => {
                if distinct_slots(slots) {
                    assert(distinct_slots(rest)) by {
                        assert forall|a: int, b: int|
                            0 <= a < b < rest.len() && #[trigger] rest[a] is Some && #[trigger] rest[b] is Some
                                implies rest[a] != rest[b] by {
                            assert(slots[a] is Some && slots[b] is Some);
                        }
                    }
                    if held_frames(rest).contains(f.0) {
                        let k = choose|k: int| 0 <= k < rest.len() && #[trigger] rest[k] == Some(Frame(f.0));
                        assert(slots[k] is Some && slots[slots.len() - 1] is Some);
                        assert(slots[k] != slots[slots.len() - 1]);
                    }
                }
                assert(held_frames(slots) =~= held_frames(rest).insert(f.0)) by {
                    assert forall|g: usize| #[trigger] held_frames(slots).contains(g) implies held_frames(rest).insert(f.0).contains(g) by {
                        let k = choose|k: int| 0 <= k < slots.len() && #[trigger] slots[k] == Some(Frame(g));
                        if k < slots.len() - 1 {
                            assert(rest[k] == Some(Frame(g)));
                        }
                    }
                    assert forall|g: usize| #[trigger] held_frames(rest).insert(f.0).contains(g) implies held_frames(slots).contains(g) by {
                        if g == f.0 {
                            assert(slots[slots.len() - 1] == Some(Frame(g)));
                        } else {
                            let k = choose|k: int| 0 <= k < rest.len() && #[trigger] rest[k] == Some(Frame(g));
                            assert(slots[k] == Some(Frame(g)));
                        }
                    }
                }
            },
            None => {
                if distinct_slots(slots) {
                    assert(distinct_slots(rest)) by {
                        assert forall|a: int, b: int|
                            0 <= a < b < rest.len() && #[trigger] rest[a] is Some && #[trigger] rest[b] is Some
                                implies rest[a] != rest[b] by {
                            assert(slots[a] is Some && slots[b] is Some);
                        }
                    }
                }
                assert(held_frames(slots) =~= held_frames(rest)) by {
                    assert forall|g: usize| #[trigger] held_frames(slots).contains(g) implies held_frames(rest).contains(g) by {
                        let k = choose|k: int| 0 <= k < slots.len() && #[trigger] slots[k] == Some(Frame(g));
                        assert(rest[k] == Some(Frame(g)));
                    }
                    assert forall|g: usize| #[trigger] held_frames(rest).contains(g) implies held_frames(slots).contains(g) by {
                        let k = choose|k: int| 0 <= k < rest.len() && #[trigger] rest[k] == Some(Frame(g));
                        assert(slots[k] == Some(Frame(g)));
                    }
                }
            },
        }
    }
}

/// A frame allocator with room for `N` frames, handed to it up front.
pub struct TinyAllocator<const N: usize> {
    frames: Vec<Option<Frame>>,
}

impl<const N: usize> TinyAllocator<N> {
    /// The slots.
    pub closed spec fn slots(&self) -> Seq<Option<Frame>> {
        self.frames@
    }

    /// The internal invariant: `N` slots, no frame held twice, every frame
    /// below [`MAX_FRAME_COUNT`].
    pub closed spec fn inv(&self) -> bool {
        &&& self.frames.len() == N
        &&& forall|a: int, b: int|
            0 <= a < b < self.frames.len() && #[trigger] self.frames[a] is Some && #[trigger] self.frames[b] is Some
                ==> self.frames[a] != self.frames[b]
        &&& forall|k: int| 0 <= k < self.frames.len() && #[trigger] self.frames[k] is Some ==> self.frames[k].unwrap().0 < MAX_FRAME_COUNT
    }

    /// Fills the slots in order with frames taken from `allocator`, one
    /// request per slot; a slot stays empty once `allocator` has none left.
    pub fn new<A: FrameAllocator>(allocator: &mut A) -> (r: Self)
        requires
            old(allocator).wf(),
        ensures
            r.inv(),
            r.slots().len() == N,
            final(allocator).wf(),
            final(allocator).free_frames().subset_of(old(allocator).free_frames()),
            held_frames(r.slots()) == old(allocator).free_frames().difference(final(allocator).free_frames()),
            (exists|k: int| 0 <= k < N && #[trigger] r.slots()[k] is None) ==> final(allocator).free_frames()
                == Set::<usize>::empty(),
            forall|a: int, b: int| 0 <= a < b < N && #[trigger] r.slots()[a] is None ==> #[trigger] r.slots()[b] is None,
            old(allocator).free_frames().finite() ==> empty_slots(r.slots()) == (if N >= old(allocator).free_frames().len() {
                N - old(allocator).free_frames().len()
            } else {
                0
            }),
    {
        let mut frames: Vec<Option<Frame>> = Vec::new();
        while frames.len() < N
            invariant
                frames.len() <= N,
                allocator.wf(),
                (TinyAllocator::<N> { frames }).inv_prefix(),
                allocator.free_frames().subset_of(old(allocator).free_frames()),
                held_frames(frames@) == old(allocator).free_frames().difference(allocator.free_frames()),
                (exists|k: int| 0 <= k < frames.len() && #[trigger] frames@[k] is None) ==> allocator.free_frames()
                    == Set::<usize>::empty(),
                forall|a: int, b: int|
                    0 <= a < b < frames.len() && #[trigger] frames@[a] is None ==> #[trigger] frames@[b] is None,
            decreases N - frames.len(),
        {
            let ghost before = frames@;
            let ghost free_before = allocator.free_frames();
            let ghost had_empty = exists|k: int| 0 <= k < before.len() && #[trigger] before[k] is None;
            let f = allocator.allocate_frame();
            frames.push(f);
            proof {
                assert(frames@.drop_last() == before);
                if had_empty {
                    assert(free_before == Set::<usize>::empty());
                    assert(f is None);
                }
                assert forall|k: int| 0 <= k < frames.len() && #[trigger] frames@[k] is None implies allocator.free_frames()
                    == Set::<usize>::empty() by {
                    if k < before.len() {
                        assert(before[k] is None);
                    }
                }
                assert forall|a: int, b: int|
                    0 <= a < b < frames.len() && #[trigger] frames@[a] is None implies #[trigger] frames@[b] is None by {
                    assert(before[a] is None);
                    if b < before.len() {
                        assert(before[b] is None);
                    }
                }
                assert(held_frames(frames@) =~= old(allocator).free_frames().difference(allocator.free_frames())) by {
                    assert forall|g: usize| #[trigger] held_frames(frames@).contains(g) implies old(allocator).free_frames().difference(allocator.free_frames()).contains(g) by {
                        let k = choose|k: int| 0 <= k < frames@.len() && #[trigger] frames@[k] == Some(Frame(g));
                        if k < before.len() {
                            assert(before[k] == Some(Frame(g)));
                            assert(held_frames(before).contains(g));
                        }
                    }
                    assert forall|g: usize| #[trigger] old(allocator).free_frames().difference(allocator.free_frames()).contains(g) implies held_frames(frames@).contains(g) by {
                        if free_before.contains(g) {
                            assert(frames@[before.len() as int] == Some(Frame(g)));
                        } else {
                            assert(held_frames(before).contains(g));
                            let k = choose|k: int| 0 <= k < before.len() && #[trigger] before[k] == Some(Frame(g));
                            assert(frames@[k] == Some(Frame(g)));
                        }
                    }
                }
                assert forall|a: int, b: int|
                    0 <= a < b < frames.len() && #[trigger] frames[a] is Some && #[trigger] frames[b] is Some
                        implies frames[a] != frames[b] by {
                    if b == before.len() {
                        let g = frames[a].unwrap().0;
                        assert(before[a] == Some(Frame(g)));
                        assert(held_frames(before).contains(g));
                    } else {
                        assert(before[a] != before[b]);
                    }
                }
            }
        }
        proof {
            lemma_held_finite(frames@);
            assert(distinct_slots(frames@));
            let old_free = old(allocator).free_frames();
            if old_free.finite() {
                if exists|k: int| 0 <= k < N && #[trigger] frames@[k] is None {
                    assert(held_frames(frames@) =~= old_free);
                } else {
                    if empty_slots(frames@) > 0 {
                        lemma_some_empty_slot(frames@);
                    }
                    vstd::set_lib::lemma_len_subset(held_frames(frames@), old_free);
                }
            }
        }
        TinyAllocator { frames }
    }

    spec fn inv_prefix(&self) -> bool {
        &&& forall|a: int, b: int|
            0 <= a < b < self.frames.len() && #[trigger] self.frames[a] is Some && #[trigger] self.frames[b] is Some
                ==> self.frames[a] != self.frames[b]
        &&& forall|k: int| 0 <= k < self.frames.len() && #[trigger] self.frames[k] is Some ==> self.frames[k].unwrap().0 < MAX_FRAME_COUNT
    }
}

impl<const N: usize> TinyAllocator<N> {
    /// An allocator whose slots are all empty.
    pub fn empty() -> (r: Self)
        ensures
            r.inv(),
            r.slots().len() == N,
            forall|k: int| 0 <= k < N ==> #[trigger] r.slots()[k] is None,
    {
        let mut frames: Vec<Option<Frame>> = Vec::new();
        while frames.len() < N
            invariant
                frames.len() <= N,
                forall|k: int| 0 <= k < frames.len() ==> #[trigger] frames[k] is None,
            decreases N - frames.len(),
        {
            frames.push(None);
        }
        TinyAllocator { frames }
    }

    proof fn lemma_held_suffix(slots: Seq<Option<Frame>>, k: int)
        requires
            0 <= k < slots.len(),
            forall|a: int, b: int|
                0 <= a < b < slots.len() && #[trigger] slots[a] is Some && #[trigger] slots[b] is Some
                    ==> slots[a] != slots[b],
        ensures
            held_frames(slots.subrange(k + 1, slots.len() as int)) == (match slots[k] {
                Some(f) => held_frames(slots.subrange(k, slots.len() as int)).remove(f.0),
                None => held_frames(slots.subrange(k, slots.len() as int)),
            }),
    {
        let hi = slots.subrange(k, slots.len() as int);
        let lo = slots.subrange(k + 1, slots.len() as int);
        let target = match slots[k] {
            Some(f) => held_frames(hi).remove(f.0),
            None => held_frames(hi),
        };
        assert forall|g: usize| #[trigger] held_frames(lo).contains(g) implies target.contains(g) by {
            let j = choose|j: int| 0 <= j < lo.len() && #[trigger] lo[j] == Some(Frame(g));
            assert(hi[j + 1] == Some(Frame(g)));
            if slots[k] is Some {
                assert(slots[k + 1 + j] == Some(Frame(g)));
                assert(slots[k] != slots[k + 1 + j]);
            }
        }
        assert forall|g: usize| #[trigger] target.contains(g) implies held_frames(lo).contains(g) by {
            let j = choose|j: int| 0 <= j < hi.len() && #[trigger] hi[j] == Some(Frame(g));
            assert(j != 0);
            assert(lo[j - 1] == Some(Frame(g)));
        }
        assert(held_frames(lo) =~= target);
    }

    /// Gives every frame it holds back to `allocator`.
    pub fn destroy<A: FrameAllocator>(self, allocator: &mut A)
        requires
            self.inv(),
            old(allocator).wf(),
            old(allocator).accepts(held_frames(self.slots())),
        ensures
            final(allocator).wf(),
            final(allocator).free_frames() == old(allocator).free_frames().union(held_frames(self.slots())),
    {
        let mut k: usize = 0;
        proof {
            assert(self.frames@.subrange(0, N as int) =~= self.frames@);
        }
        while k < N
            invariant
                self.inv(),
                k <= N,
                allocator.wf(),
                allocator.accepts(held_frames(self.frames@.subrange(k as int, N as int))),
                allocator.free_frames() == old(allocator).free_frames().union(held_frames(self.frames@))
                    .difference(held_frames(self.frames@.subrange(k as int, N as int))).union(
                    old(allocator).free_frames().intersect(held_frames(self.frames@.subrange(k as int, N as int)))),
            decreases N - k,
        {
            let ghost rest = held_frames(self.frames@.subrange(k as int, N as int));
            proof {
                Self::lemma_held_suffix(self.frames@, k as int);
            }
            match self.frames[k] {
                Some(f) => {
                    proof {
                        assert(self.frames@.subrange(k as int, N as int)[0] == Some(f));
                        assert(rest.contains(f.0));
                        assert(rest.remove(f.0).insert(f.0) =~= rest);
                        allocator.lemma_accepts_subset(rest, set![f.0]);
                    }
                    allocator.deallocate_frame(f);
                },
                None => {},
            }
            k = k + 1;
        }
        proof {
            assert(self.frames@.subrange(N as int, N as int) =~= Seq::<Option<Frame>>::empty());
            assert(held_frames(Seq::<Option<Frame>>::empty()) =~= Set::<usize>::empty());
        }
    }
}

proof fn lemma_some_empty_slot(slots: Seq<Option<Frame>>)
    requires
        empty_slots(slots) > 0,
    ensures
        exists|k: int| 0 <= k < slots.len() && #[trigger] slots[k] is None,
    decreases slots.len(),
{
    if slots.last() is None {
        assert(slots[slots.len() - 1] is None);
    } else {
        lemma_some_empty_slot(slots.drop_last());
        let k = choose|k: int| 0 <= k < slots.drop_last().len() && #[trigger] slots.drop_last()[k] is None;
        assert(slots[k] is None);
    }
}

impl<const N: usize> FrameAllocator for TinyAllocator<N> {
    open spec fn wf(&self) -> bool {
        self.inv()
    }

    open spec fn free_frames(&self) -> Set<usize> {
        held_frames(self.slots())
    }

    open spec fn accepts(&self, frames: Set<usize>) -> bool {
        &&& frames.finite()
        &&& frames.len() <= empty_slots(self.slots())
        &&& forall|f: usize| #[trigger] frames.contains(f) ==> f < MAX_FRAME_COUNT && !held_frames(self.slots()).contains(f)
    }

    proof fn lemma_accepts_subset(&self, frames: Set<usize>, fewer: Set<usize>) {
        vstd::set_lib::lemma_len_subset(fewer, frames);
    }

    /// Takes the frame out of the first slot that holds one.
    fn allocate_frame(&mut self) -> (r: Option<Frame>)
        ensures
            r is None <==> forall|k: int| 0 <= k < old(self).slots().len() ==> #[trigger] old(self).slots()[k] is None,
            r is None ==> final(self).slots() == old(self).slots(),
            r matches Some(f) ==> exists|k: int|
                0 <= k < old(self).slots().len() && old(self).slots()[k] == Some(f) && (forall|j: int|
                    0 <= j < k ==> #[trigger] old(self).slots()[j] is None) && final(self).slots()
                    == old(self).slots().update(k, None),
    {
        let mut k: usize = 0;
        while k < self.frames.len()
            invariant
                self == old(self),
                self.inv(),
                k <= self.frames.len(),
                forall|j: int| 0 <= j < k ==> #[trigger] self.frames[j] is None,
            decreases self.frames.len() - k,
        {
            if let Some(f) = self.frames[k] {
                let ghost before = self.frames@;
                self.frames.set(k, None);
                proof {
                    assert(held_frames(self.frames@) =~= held_frames(before).remove(f.0)) by {
                        assert forall|g: usize| #[trigger] held_frames(self.frames@).contains(g) implies held_frames(before).remove(f.0).contains(g) by {
                            let j = choose|j: int| 0 <= j < self.frames@.len() && #[trigger] self.frames@[j] == Some(Frame(g));
                            assert(before[j] == Some(Frame(g)));
                            assert(before[j] != before[k as int]);
                        }
                        assert forall|g: usize| #[trigger] held_frames(before).remove(f.0).contains(g) implies held_frames(self.frames@).contains(g) by {
                            let j = choose|j: int| 0 <= j < before.len() && #[trigger] before[j] == Some(Frame(g));
                            assert(self.frames@[j] == Some(Frame(g)));
                        }
                    }
                    assert(before[k as int] == Some(f));
                    assert(held_frames(before).contains(f.0));
                    assert(self.frames@ == before.update(k as int, None));
                }
                return Some(f);
            }
            k = k + 1;
        }
        None
    }

    /// Puts `frame` into the first empty slot.
    fn deallocate_frame(&mut self, frame: Frame)
        ensures
            exists|k: int|
                0 <= k < old(self).slots().len() && old(self).slots()[k] is None && (forall|j: int|
                    0 <= j < k ==> #[trigger] old(self).slots()[j] is Some) && final(self).slots()
                    == old(self).slots().update(k, Some(frame)),
    {
        proof {
            assert(set![frame.0].contains(frame.0));
            vstd::set_lib::lemma_set_empty_equivalency_len(set![frame.0]);
            lemma_some_empty_slot(self.frames@);
        }
        let mut k: usize = 0;
        while k < self.frames.len()
            invariant
                self == old(self),
                self.inv(),
                k <= self.frames.len(),
                forall|j: int| 0 <= j < k ==> #[trigger] self.frames[j] is Some,
                exists|j: int| 0 <= j < self.frames.len() && #[trigger] self.frames[j] is None,
                old(self).accepts(set![frame.0]),
                set![frame.0].contains(frame.0),
            decreases self.frames.len() - k,
        {
            if self.frames[k].is_none() {
                let ghost before = self.frames@;
                self.frames.set(k, Some(frame));
                proof {
                    lemma_empty_slots_update(before, k as int, Some(frame));
                    assert(!held_frames(before).contains(frame.0));
                    assert(held_frames(self.frames@) =~= held_frames(before).insert(frame.0)) by {
                        assert forall|g: usize| #[trigger] held_frames(self.frames@).contains(g) implies held_frames(before).insert(frame.0).contains(g) by {
                            let j = choose|j: int| 0 <= j < self.frames@.len() && #[trigger] self.frames@[j] == Some(Frame(g));
                            if j != k {
                                assert(before[j] == Some(Frame(g)));
                            }
                        }
                        assert forall|g: usize| #[trigger] held_frames(before).insert(frame.0).contains(g) implies held_frames(self.frames@).contains(g) by {
                            if g == frame.0 {
                                assert(self.frames@[k as int] == Some(Frame(g)));
                            } else {
                                let j = choose|j: int| 0 <= j < before.len() && #[trigger] before[j] == Some(Frame(g));
                                assert(self.frames@[j] == Some(Frame(g)));
                            }
                        }
                    }
                    assert forall|a: int, b: int|
                        0 <= a < b < self.frames.len() && #[trigger] self.frames[a] is Some && #[trigger] self.frames[b] is Some
                            implies self.frames[a] != self.frames[b] by {
                        if a == k {
                            assert(held_frames(before).contains(self.frames[b].unwrap().0));
                        } else if b == k {
                            assert(held_frames(before).contains(self.frames[a].unwrap().0));
                        } else {
                            assert(before[a] != before[b]);
                        }
                    }
                    assert forall|s: Set<usize>| old(self).accepts(s) && s.contains(frame.0) implies #[trigger] self.accepts(
                        s.remove(frame.0),
                    ) by {
                        vstd::set::axiom_set_remove_len(s, frame.0);
                    }
                    assert(self.frames@ == before.update(k as int, Some(frame)));
                }
                return;
            }
            k = k + 1;
        }
    }

    /// A tiny allocator keeps its frames in its own slots and uses no memory
    /// outside them: the empty range.
    fn bounds(&self) -> (r: (usize, usize))
        ensures
            r == (0usize, 0usize),
    {
        (0, 0)
    }
}

} // verus!
