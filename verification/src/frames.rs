//! The frame allocator that the address spaces draw their frames from.

use vstd::prelude::*;
use crate::units::{PhysFrame, PhysFrameRange, PAGE_SIZE, PHYS_ADDR_END};

verus! {

/// Whether `addr` can stand in the free list: a frame's base address other
/// than zero. Frame zero stands for "no frame" and is never handed out.
pub open spec fn usable_frame(addr: u64) -> bool {
    addr != 0 && addr % 4096 == 0 && addr < PHYS_ADDR_END
}

/// A stack of free frames. The view is the stack, its top last.
///
/// A frame released twice stands twice on the stack and is handed out twice:
/// the allocator keeps no record of what is in use.
pub struct FrameAllocator {
    free: Vec<u64>,
    limit: u64,
}

impl View for FrameAllocator {
    type V = Seq<u64>;

    closed spec fn view(&self) -> Seq<u64> {
        self.free@
    }
}

impl FrameAllocator {
    /// Every frame on the stack is usable.
    pub closed spec fn wf(&self) -> bool {
        &&& forall|i: int| 0 <= i < self.free@.len() ==> usable_frame(#[trigger] self.free@[i])
        &&& self.limit % 4096 == 0
        &&& self.limit < PHYS_ADDR_END
    }

    /// End of the memory that the allocator was made for.
    pub closed spec fn limit(&self) -> u64 {
        self.limit
    }

    /// Every frame on the stack of a well-formed allocator is usable.
    pub proof fn lemma_frames_usable(&self)
        requires
            self.wf(),
        ensures
            forall|i: int| 0 <= i < self@.len() ==> usable_frame(#[trigger] self@[i]),
    {
    }

    /// Base address of the lowest frame that `new` puts on the stack.
    pub open spec fn first_usable(frames: PhysFrameRange) -> int {
        if frames.start.addr() == 0 {
            4096
        } else {
            frames.start.addr() as int
        }
    }

    /// Number of frames that `new` puts on the stack.
    pub open spec fn usable_count(frames: PhysFrameRange) -> int {
        if Self::first_usable(frames) < frames.end.addr() {
            (frames.end.addr() - Self::first_usable(frames)) / 4096
        } else {
            0
        }
    }

    /// An allocator over the frames of `frames`, frame zero left out. The
    /// frames stand on the stack by falling address: the lowest is handed out
    /// first.
    pub fn new(frames: PhysFrameRange) -> (allocator: FrameAllocator)
        ensures
            allocator.wf(),
            allocator@.len() == Self::usable_count(frames),
            forall|i: int|
                0 <= i < allocator@.len() ==> #[trigger] allocator@[i] == frames.end.addr() - 4096
                    * (i + 1),
            allocator.limit() == frames.end.addr(),
    {
        let start: u64 = frames.start.start_address();
        let end: u64 = frames.end.start_address();
        let first: u64 = if start == 0 {
            PAGE_SIZE
        } else {
            start
        };
        let mut free: Vec<u64> = Vec::new();
        let mut next: u64 = end;
        while next > first
            invariant
                first % 4096 == 0,
                first >= 4096,
                end % 4096 == 0,
                end < PHYS_ADDR_END,
                next % 4096 == 0,
                next <= end,
                first <= next || free@.len() == 0,
                next == end - 4096 * free@.len(),
                forall|i: int| 0 <= i < free@.len() ==> #[trigger] free@[i] == end - 4096 * (i + 1),
                forall|i: int| 0 <= i < free@.len() ==> usable_frame(#[trigger] free@[i]),
            decreases next,
        {
            next = next - PAGE_SIZE;
            free.push(next);
        }
        FrameAllocator { free, limit: end }
    }

    /// Takes the frame on top of the stack.
    pub fn allocate(&mut self) -> (frame: PhysFrame)
        requires
            old(self).wf(),
            old(self)@.len() > 0,
        ensures
            final(self).wf(),
            frame.addr() == old(self)@.last(),
            final(self)@ == old(self)@.drop_last(),
            final(self).limit() == old(self).limit(),
            usable_frame(frame.addr()),
    {
        let addr: u64 = self.free.pop().unwrap();
        PhysFrame::from_start_address(addr).unwrap()
    }

    /// Puts `frame` on top of the stack. Frame zero is not taken.
    pub fn free(&mut self, frame: PhysFrame)
        requires
            old(self).wf(),
        ensures
            final(self).wf(),
            final(self)@ == if frame.addr() != 0 {
                old(self)@.push(frame.addr())
            } else {
                old(self)@
            },
            final(self).limit() == old(self).limit(),
    {
        let addr: u64 = frame.start_address();
        if addr != 0 {
            self.free.push(addr);
        }
    }

    /// Number of free frames.
    pub fn free_count(&self) -> (count: usize)
        ensures
            count == self@.len(),
    {
        self.free.len()
    }

    /// End of the memory that the allocator was made for.
    pub fn phys_limit(&self) -> (frame: PhysFrame)
        requires
            self.wf(),
        ensures
            frame.addr() == self.limit(),
    {
        PhysFrame::from_start_address(self.limit).unwrap()
    }
}

} // verus!
