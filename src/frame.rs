//! Physical frame allocation from the memory map handed over at boot.
//!
//! The allocator is a bump allocator over the usable frames: it keeps a
//! cursor and always hands out the lowest usable frame at or above it, then
//! moves the cursor past that frame. Frames are never returned, so no frame
//! is ever handed out twice, and the sequence is fully determined by the map.
use vstd::prelude::*;

verus! {

/// Size in bytes of a physical frame and of a virtual page.
pub const FRAME_SIZE: u64 = 4096;

/// What a region of the boot memory map may be used for.
#[derive(Debug, Clone, Copy, PartialEq, Eq, Structural)]
pub enum RegionKind {
    /// Free RAM that the kernel may hand out.
    Usable,
    /// Claimed by the kernel image, the boot structures, or firmware.
    Reserved,
}

/// One entry of the boot memory map: the physical bytes `[start, end)`.
#[derive(Debug, Clone, Copy, PartialEq, Eq, Structural)]
pub struct MemoryRegion {
    pub start: u64,
    pub end: u64,
    pub kind: RegionKind,
}

/// A physical address.
#[derive(Debug, Clone, Copy, PartialEq, Eq, Structural)]
pub struct PhysAddr(pub u64);

/// A 4 KiB physical frame, named by its first address.
#[derive(Debug, Clone, Copy, PartialEq, Eq, Structural)]
pub struct PhysFrame {
    pub start: u64,
}

pub open spec fn aligned(a: int) -> bool {
    a % (FRAME_SIZE as int) == 0
}

/// `f` is the start of a whole frame lying inside the usable region `r`.
pub open spec fn frame_in_region(r: MemoryRegion, f: int) -> bool {
    &&& r.kind == RegionKind::Usable
    &&& aligned(f)
    &&& r.start <= f
    &&& f + FRAME_SIZE <= r.end
}

/// `f` is the start of a whole frame inside some usable region of the map.
pub open spec fn is_usable_frame(regions: Seq<MemoryRegion>, f: int) -> bool {
    exists|i: int| 0 <= i < regions.len() && #[trigger] frame_in_region(regions[i], f)
}

/// `after` is `before` once `allocate_frame` has returned `r`: the lowest
/// usable frame not handed out yet, which joins the allocated set, or
/// `None` when no usable frame is left.
pub open spec fn frame_step(before: FrameAllocator, after: FrameAllocator, r: Option<PhysFrame>) -> bool {
    &&& after.regions() == before.regions()
    &&& match r {
        Some(f) => {
            &&& is_usable_frame(before.regions(), f.start as int)
            &&& !before.allocated().contains(f.start as int)
            &&& f.start >= before.cursor()
            &&& forall|g: int| before.cursor() <= g < f.start ==> !is_usable_frame(before.regions(), g)
            &&& after.allocated() == before.allocated().insert(f.start as int)
        },
        None => before.exhausted() && after == before,
    }
}

/// Along any run of `allocate_frame` calls, recorded as the states
/// `states` and the results `results`, the allocated set only grows.
proof fn lemma_allocated_grows(states: Seq<FrameAllocator>, results: Seq<Option<PhysFrame>>, i: int, j: int)
    requires
        states.len() == results.len() + 1,
        forall|k: int| 0 <= k < results.len() ==> frame_step(states[k], states[k + 1], #[trigger] results[k]),
        0 <= i <= j < states.len(),
    ensures
        states[i].allocated().subset_of(states[j].allocated()),
        states[j].regions() == states[i].regions(),
    decreases j - i,
{
    if i < j {
        lemma_allocated_grows(states, results, i, j - 1);
        assert(frame_step(states[j - 1], states[j], results[j - 1]));
    }
}

/// Along any run of `allocate_frame` calls on one allocator, no frame is
/// handed out twice, and every frame handed out is a whole usable frame
/// of the memory map.
pub proof fn lemma_frame_sequence(states: Seq<FrameAllocator>, results: Seq<Option<PhysFrame>>)
    requires
        states.len() == results.len() + 1,
        forall|k: int| 0 <= k < results.len() ==> frame_step(states[k], states[k + 1], #[trigger] results[k]),
    ensures
        forall|i: int, j: int|
            0 <= i < j < results.len() && #[trigger] results[i] is Some && #[trigger] results[j] is Some
                ==> results[i].unwrap().start != results[j].unwrap().start,
        forall|i: int|
            0 <= i < results.len() && #[trigger] results[i] is Some ==> is_usable_frame(
                states[0].regions(),
                results[i].unwrap().start as int,
            ),
{
    assert forall|i: int, j: int|
        0 <= i < j < results.len() && #[trigger] results[i] is Some && #[trigger] results[j] is Some
            implies results[i].unwrap().start != results[j].unwrap().start by {
        assert(frame_step(states[i], states[i + 1], results[i]));
        assert(frame_step(states[j], states[j + 1], results[j]));
        lemma_allocated_grows(states, results, i + 1, j);
    }
    assert forall|i: int|
        0 <= i < results.len() && #[trigger] results[i] is Some implies is_usable_frame(
            states[0].regions(),
            results[i].unwrap().start as int,
        ) by {
        assert(frame_step(states[i], states[i + 1], results[i]));
        lemma_allocated_grows(states, results, 0, i);
    }
}

/// Hands out the usable frames of a memory map in increasing address order.
pub struct FrameAllocator {
    regions: Vec<MemoryRegion>,
    next: u64,
}

impl FrameAllocator {
    pub closed spec fn regions(&self) -> Seq<MemoryRegion> {
        self.regions@
    }

    /// Every usable frame below this address has been handed out.
    pub closed spec fn cursor(&self) -> int {
        self.next as int
    }

    /// The frames handed out so far.
    pub open spec fn allocated(&self) -> Set<int> {
        Set::new(|f: int| is_usable_frame(self.regions(), f) && f < self.cursor())
    }

    /// No usable frame is left to hand out.
    pub open spec fn exhausted(&self) -> bool {
        forall|g: int| g >= self.cursor() ==> !is_usable_frame(self.regions(), g)
    }

    /// An allocator over `regions` that has handed out nothing yet.
    pub fn new(regions: Vec<MemoryRegion>) -> (r: Self)
        ensures
            r.regions() == regions@,
            r.cursor() == 0,
            r.allocated() == Set::<int>::empty(),
    {
        let r = FrameAllocator { regions, next: 0 };
        assert(r.allocated() =~= Set::<int>::empty());
        r
    }

    /// Returns the lowest usable frame not handed out yet, or `None` once
    /// every usable frame has been handed out.
    pub fn allocate_frame(&mut self) -> (r: Option<PhysFrame>)
        ensures
            frame_step(*old(self), *final(self), r),
    {
        let from = self.next;
        let mut best: Option<u64> = None;
        let mut i: usize = 0;
        while i < self.regions.len()
            invariant
                0 <= i <= self.regions@.len(),
                from == self.next,
                match best {
                    Some(b) => {
                        &&& b >= from
                        &&& exists|j: int| 0 <= j < i && #[trigger] frame_in_region(self.regions@[j], b as int)
                        &&& forall|j: int, g: int|
                            0 <= j < i && from <= g < b ==> !#[trigger] frame_in_region(self.regions@[j], g)
                    },
                    None => forall|j: int, g: int|
                        0 <= j < i && from <= g ==> !#[trigger] frame_in_region(self.regions@[j], g),
                },
            decreases self.regions@.len() - i,
        {
            let cand = first_frame_in(self.regions[i], from);
            match cand {
                Some(c) => {
                    match best {
                        Some(b) => {
                            if c < b {
                                best = Some(c);
                            }
                        },
                        None => {
                            best = Some(c);
                        },
                    }
                },
                None => {},
            }
            i = i + 1;
        }
        match best {
            Some(b) => {
                let ghost old_alloc = self.allocated();
                self.next = b + FRAME_SIZE;
                assert(self.allocated() =~= old_alloc.insert(b as int));
                Some(PhysFrame { start: b })
            },
            None => None,
        }
    }
}

/// The lowest frame of the usable region `r` that starts at or above `from`.
fn first_frame_in(r: MemoryRegion, from: u64) -> (res: Option<u64>)
    ensures
        match res {
            Some(f) => {
                &&& f >= from
                &&& frame_in_region(r, f as int)
                &&& forall|g: int| from <= g < f ==> !frame_in_region(r, g)
            },
            None => forall|g: int| from <= g ==> !frame_in_region(r, g),
        },
{
    if r.kind != RegionKind::Usable {
        return None;
    }
    let lo = if r.start > from { r.start } else { from };
    if r.end < FRAME_SIZE || lo > r.end - FRAME_SIZE {
        return None;
    }
    let rem = lo % FRAME_SIZE;
    let f = if rem == 0 { lo } else { lo - rem + FRAME_SIZE };
    if f > r.end - FRAME_SIZE {
        return None;
    }
    Some(f)
}

} // verus!
