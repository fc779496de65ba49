//! The walkers: they descend the tree of one address space, level by level.

use vstd::prelude::*;
use crate::entry::{entry_of, lemma_entry_frame_is_frame, lemma_frame_is_address, translation_of};
use crate::frames::FrameAllocator;
use crate::hw::{entry_addr, entry_is_unused, entry_set_addr};
use crate::layout::{lemma_slot_parts, lemma_span_values, page_table_index, slot, span};
use crate::tree::Node;
use crate::units::{
    MemorySpace,
    PageRange,
    PageTableFlags,
    PhysFrameRange,
    PAGE_SIZE,
    PHYS_ADDR_END,
};

verus! {

/// Number of pages that a walk over `n` pages from the page `number` on
/// covers in one table of level `level`: all of them, or those up to the
/// table's end.
pub open spec fn taken(number: int, n: int, level: nat) -> int {
    if n <= span(level) - slot(number, level) {
        n
    } else {
        span(level) - slot(number, level)
    }
}

/// Whether a mapping request takes its leaf frames from the allocator: a
/// request for user space that brings no frames.
pub open spec fn takes_fresh(space: MemorySpace, frames: PhysFrameRange) -> bool {
    space is User && frames.count() == 0
}

/// The frame that backs the `d`-th page of a mapping request: the `d`-th
/// supplied frame where frames are supplied; else, in kernel space, the
/// frame with the page's own address and, in user space, the frame at
/// `pos[d]` of the allocator's stack `stack`.
pub open spec fn backing(
    space: MemorySpace,
    frames: PhysFrameRange,
    pages: PageRange,
    stack: Seq<u64>,
    pos: Seq<int>,
    d: int,
) -> u64 {
    if frames.count() > 0 {
        (frames.start.addr() + 4096 * d) as u64
    } else {
        match space {
            MemorySpace::Kernel => (pages.start.addr() + 4096 * d) as u64,
            MemorySpace::User => stack[pos[d]],
        }
    }
}

/// Whether a mapping request backs each page by the frame with the page's
/// own address: a request for kernel space that brings no frames.
pub open spec fn maps_identity(space: MemorySpace, frames: PhysFrameRange) -> bool {
    space is Kernel && frames.count() == 0
}

/// Whether the entries of a mapping request are all used entries: the flags
/// are not empty or no frame is frame zero.
pub open spec fn solid(
    space: MemorySpace,
    frames: PhysFrameRange,
    pages: PageRange,
    flags: PageTableFlags,
) -> bool {
    flags.value() != 0 || if frames.count() > 0 {
        frames.start.addr() != 0
    } else {
        match space {
            MemorySpace::Kernel => pages.start.addr() != 0,
            MemorySpace::User => true,
        }
    }
}

/// Installs identity mappings in a table of level 1: as many as the range
/// holds, or as fit up to the table's end.
pub(crate) fn identity_map_kernel(table: &mut Node, pages: PageRange, flags: PageTableFlags) -> (count:
    u64)
    requires
        old(table).wf(1),
        pages.start.addr() + 4096 * taken(pages.start.number(), pages.count(), 1) <= PHYS_ADDR_END,
    ensures
        final(table).wf(1),
        final(table).children@ == old(table).children@,
        count == taken(pages.start.number(), pages.count(), 1),
        forall|t: int|
            0 <= t < 512 ==> #[trigger] final(table).entries()[t] == if slot(
                pages.start.number(),
                1,
            ) <= t < slot(pages.start.number(), 1) + count {
                entry_of(
                    (pages.start.addr() + 4096 * (t - slot(pages.start.number(), 1))) as u64,
                    flags.value(),
                )
            } else {
                old(table).entries()[t]
            },
{
    let start_index: usize = page_table_index(pages.start.start_address(), 1);
    let left: u64 = pages.len();
    let room: u64 = (512 - start_index) as u64;
    let alloc_count: u64 = if left < room {
        left
    } else {
        room
    };
    let bits: u64 = flags.bits();
    let mut frame_addr: u64 = pages.start.start_address();
    let mut count: u64 = 0;
    proof {
        lemma_span_values();
        lemma_slot_parts(pages.start.number(), 1);
    }
    while count < alloc_count
        invariant
            count <= alloc_count,
            start_index + alloc_count <= 512,
            start_index == slot(pages.start.number(), 1),
            frame_addr == pages.start.addr() + 4096 * count,
            pages.start.addr() + 4096 * alloc_count <= PHYS_ADDR_END,
            pages.start.addr() % 4096 == 0,
            bits == flags.value(),
            bits & crate::units::FLAG_MASK == bits,
            table.wf(1),
            table.children@ == old(table).children@,
            forall|t: int|
                0 <= t < 512 ==> #[trigger] table.entries()[t] == if start_index <= t < start_index
                    + count {
                    entry_of((pages.start.addr() + 4096 * (t - start_index)) as u64, bits)
                } else {
                    old(table).entries()[t]
                },
        decreases alloc_count - count,
    {
        proof {
            lemma_frame_is_address(frame_addr);
        }
        entry_set_addr(&mut table.table, start_index + count as usize, frame_addr, bits);
        frame_addr = frame_addr + PAGE_SIZE;
        count = count + 1;
    }
    alloc_count
}

/// Installs mappings to frames fresh from the allocator in a table of level
/// 1: as many as the range holds, or as fit up to the table's end. The
/// frames leave the allocator's stack from the top, one per page in order.
pub(crate) fn map_user(
    table: &mut Node,
    pages: PageRange,
    flags: PageTableFlags,
    allocator: &mut FrameAllocator,
) -> (count: u64)
    requires
        old(table).wf(1),
        old(allocator).wf(),
        old(allocator)@.len() >= taken(pages.start.number(), pages.count(), 1),
    ensures
        final(table).wf(1),
        final(table).children@ == old(table).children@,
        final(allocator).wf(),
        final(allocator).limit() == old(allocator).limit(),
        count == taken(pages.start.number(), pages.count(), 1),
        final(allocator)@ == old(allocator)@.take(old(allocator)@.len() - count),
        forall|t: int|
            0 <= t < 512 ==> #[trigger] final(table).entries()[t] == if slot(
                pages.start.number(),
                1,
            ) <= t < slot(pages.start.number(), 1) + count {
                entry_of(
                    old(allocator)@[old(allocator)@.len() - 1 - (t - slot(pages.start.number(), 1))],
                    flags.value(),
                )
            } else {
                old(table).entries()[t]
            },
{
    let start_index: usize = page_table_index(pages.start.start_address(), 1);
    let left: u64 = pages.len();
    let room: u64 = (512 - start_index) as u64;
    let alloc_count: u64 = if left < room {
        left
    } else {
        room
    };
    let bits: u64 = flags.bits();
    let mut count: u64 = 0;
    let ghost stack = allocator@;
    proof {
        lemma_span_values();
        lemma_slot_parts(pages.start.number(), 1);
    }
    while count < alloc_count
        invariant
            count <= alloc_count,
            start_index + alloc_count <= 512,
            start_index == slot(pages.start.number(), 1),
            bits == flags.value(),
            bits & crate::units::FLAG_MASK == bits,
            table.wf(1),
            table.children@ == old(table).children@,
            allocator.wf(),
            allocator.limit() == old(allocator).limit(),
            stack == old(allocator)@,
            stack.len() >= alloc_count,
            allocator@ == stack.take(stack.len() - count),
            forall|t: int|
                0 <= t < 512 ==> #[trigger] table.entries()[t] == if start_index <= t < start_index
                    + count {
                    entry_of(stack[stack.len() - 1 - (t - start_index)], bits)
                } else {
                    old(table).entries()[t]
                },
        decreases alloc_count - count,
    {
        let phys_frame = allocator.allocate();
        proof {
            lemma_frame_is_address(phys_frame.addr());
            assert(allocator@ =~= stack.take(stack.len() - count - 1));
        }
        let addr: u64 = phys_frame.start_address();
        entry_set_addr(&mut table.table, start_index + count as usize, addr, bits);
        count = count + 1;
    }
    alloc_count
}

/// Installs mappings to the frames of `frames` in a table of level 1: as
/// many as the range of pages holds, or as fit up to the table's end, one
/// frame per page in order. Serves every request that brings frames, in
/// user space and in kernel space.
pub(crate) fn map_user_physical(
    table: &mut Node,
    frames: PhysFrameRange,
    pages: PageRange,
    flags: PageTableFlags,
) -> (count: u64)
    requires
        old(table).wf(1),
        frames.count() >= taken(pages.start.number(), pages.count(), 1),
    ensures
        final(table).wf(1),
        final(table).children@ == old(table).children@,
        count == taken(pages.start.number(), pages.count(), 1),
        forall|t: int|
            0 <= t < 512 ==> #[trigger] final(table).entries()[t] == if slot(
                pages.start.number(),
                1,
            ) <= t < slot(pages.start.number(), 1) + count {
                entry_of(
                    (frames.start.addr() + 4096 * (t - slot(pages.start.number(), 1))) as u64,
                    flags.value(),
                )
            } else {
                old(table).entries()[t]
            },
{
    let start_index: usize = page_table_index(pages.start.start_address(), 1);
    let left: u64 = pages.len();
    let room: u64 = (512 - start_index) as u64;
    let alloc_count: u64 = if left < room {
        left
    } else {
        room
    };
    let bits: u64 = flags.bits();
    let given: u64 = frames.len();
    let first: u64 = frames.start.start_address();
    let last: u64 = frames.end.start_address();
    let mut count: u64 = 0;
    proof {
        lemma_span_values();
        lemma_slot_parts(pages.start.number(), 1);
    }
    while count < alloc_count
        invariant
            count <= alloc_count,
            alloc_count <= given,
            given == frames.count(),
            first == frames.start.addr(),
            last == frames.end.addr(),
            first % 4096 == 0,
            last % 4096 == 0,
            last < PHYS_ADDR_END,
            start_index + alloc_count <= 512,
            start_index == slot(pages.start.number(), 1),
            bits == flags.value(),
            bits & crate::units::FLAG_MASK == bits,
            table.wf(1),
            table.children@ == old(table).children@,
            forall|t: int|
                0 <= t < 512 ==> #[trigger] table.entries()[t] == if start_index <= t < start_index
                    + count {
                    entry_of((first + 4096 * (t - start_index)) as u64, bits)
                } else {
                    old(table).entries()[t]
                },
        decreases alloc_count - count,
    {
        let frame = frames.start.plus(count);
        proof {
            lemma_frame_is_address(frame.addr());
        }
        entry_set_addr(&mut table.table, start_index + count as usize, frame.start_address(), bits);
        count = count + 1;
    }
    alloc_count
}

/// Whether the table has no used entry.
pub(crate) fn is_table_empty(table: &Node) -> (empty: bool)
    requires
        table.entries().len() == 512,
    ensures
        empty == !table.used(),
{
    let mut index: usize = 0;
    while index < 512
        invariant
            index <= 512,
            table.entries().len() == 512,
            forall|k: int| 0 <= k < index ==> table.entries()[k] == 0,
        decreases 512 - index,
    {
        if !entry_is_unused(&table.table, index) {
            assert(table.entries()[index as int] != 0);
            return false;
        }
        index = index + 1;
    }
    true
}

/// Walks down from a table of level `level` for `addr`.
pub(crate) fn translate_in_table(table: &Node, addr: u64, level: usize) -> (phys: Option<u64>)
    requires
        table.wf(level as nat),
        level <= 5,
    ensures
        phys == translation_of(table.leaf(level as nat, slot(addr as int / 4096, level as nat)), addr),
    decreases level,
{
    let aligned_addr: u64 = addr - addr % PAGE_SIZE;
    let index: usize = page_table_index(aligned_addr, level);
    proof {
        lemma_slot_parts(addr as int / 4096, level as nat);
        lemma_span_values();
    }
    if entry_is_unused(&table.table, index) {
        return None;
    }
    if level > 1 {
        let child = table.children[index].as_ref().unwrap();
        translate_in_table(child, addr, level - 1)
    } else {
        let frame: u64 = entry_addr(&table.table, index);
        proof {
            lemma_entry_frame_is_frame(table.entries()[index as int]);
        }
        Some(frame + (addr - aligned_addr))
    }
}

} // verus!
