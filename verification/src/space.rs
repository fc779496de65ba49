//! Address spaces: a page-table tree with its root frame and its depth.

use vstd::prelude::*;
use crate::copying::{copy_table, count_tables, drop_table};
use crate::entry::{
    entry_bits,
    entry_frame,
    entry_of,
    lemma_entry_parts,
    lemma_frame_is_address,
    translation_of,
};
use crate::frames::{usable_frame, FrameAllocator};
use crate::layout::{
    lemma_div_range,
    lemma_mod_advance,
    lemma_slot_parts,
    lemma_span_positive,
    lemma_span_values,
    slot,
    span,
};
use crate::growth::{
    alike,
    among,
    apart,
    grown,
    lemma_empty_entry,
    lemma_pushed_stays,
    picked,
    shrunk,
};
use crate::shape::{
    lemma_leaf_reaches,
    lemma_reaches_entry,
    lemma_same_leaves_same_count,
    lemma_table_has_leaf,
    reaches,
};
use crate::mapping::{map_in_table, mapped_leaves, needed_below, needed_in_table, places};
use crate::need::{
    blank_need,
    lemma_blank_need_within_second_level,
    lemma_needed_blank,
    lemma_needed_full,
    lemma_no_tables_no_kids,
};
use crate::tree::{lemma_count_none, lemma_empty_leaf, Node};
use crate::units::{
    MemorySpace,
    Page,
    PageRange,
    PageTableFlags,
    PhysFrame,
    PhysFrameRange,
    ADDR_MASK,
    FLAG_MASK,
    PHYS_ADDR_END,
    PRESENT,
    WRITABLE,
};
use crate::unmapping::{gave_back, released, unmap_in_table, unmapped_leaves};
use crate::walk::{backing, maps_identity, solid, taken, takes_fresh, translate_in_table};

verus! {

/// Number of leaves among `leaves[first..first + count]` that hold a frame
/// other than zero.
pub open spec fn frames_held(leaves: Seq<u64>, first: int, count: int) -> nat
    decreases count,
{
    if count <= 0 {
        0
    } else {
        frames_held(leaves, first, count - 1) + if entry_frame(leaves[first + count - 1]) != 0 {
            1nat
        } else {
            0nat
        }
    }
}

/// Where no leaf of a range holds a frame, none is held.
pub proof fn lemma_frames_held_none(leaves: Seq<u64>, first: int, count: int)
    requires
        forall|d: int| 0 <= d < count ==> #[trigger] leaves[first + d] == 0,
    ensures
        frames_held(leaves, first, count) == 0,
    decreases count,
{
    if count > 0 {
        lemma_frames_held_none(leaves, first, count - 1);
        assert(leaves[first + (count - 1)] == 0);
        assert(0u64 & ADDR_MASK == 0) by (bit_vector);
    }
}

/// Where every leaf of a range holds a frame, as many are held as the range
/// has slots.
pub proof fn lemma_frames_held_all(leaves: Seq<u64>, first: int, count: int)
    requires
        0 <= count,
        forall|d: int| 0 <= d < count ==> entry_frame(#[trigger] leaves[first + d]) != 0,
    ensures
        frames_held(leaves, first, count) == count,
    decreases count,
{
    if count > 0 {
        lemma_frames_held_all(leaves, first, count - 1);
        assert(entry_frame(leaves[first + (count - 1)]) != 0);
    }
}

/// One address space. Its view is the leaf level of its tree laid out flat:
/// for each slot the leaf entry that the walk ends at, zero where the walk
/// ends before a leaf. A space of depth `d` has `512^d` slots.
pub struct AddressSpace {
    root: Node,
    root_frame: PhysFrame,
    depth: usize,
}

impl View for AddressSpace {
    type V = Seq<u64>;

    closed spec fn view(&self) -> Seq<u64> {
        Seq::new(span(self.depth as nat) as nat, |t: int| self.root.leaf(self.depth as nat, t))
    }
}

impl AddressSpace {
    /// The tree is well formed, the depth is between 1 and 5, and the root
    /// stands in a frame other than zero.
    pub closed spec fn wf(&self) -> bool {
        &&& 1 <= self.depth <= 5
        &&& self.root.wf(self.depth as nat)
        &&& self.root_frame.addr() != 0
    }

    /// Number of paging levels.
    pub closed spec fn levels(&self) -> nat {
        self.depth as nat
    }

    /// Address of the frame that holds the root table.
    pub closed spec fn root_address(&self) -> u64 {
        self.root_frame.addr()
    }

    /// Number of tables in the tree, the root counted.
    pub closed spec fn table_count(&self) -> nat {
        self.root.count(self.depth as nat)
    }

    /// No table but the root is empty.
    pub closed spec fn tight(&self) -> bool {
        self.root.tight(self.depth as nat)
    }

    /// Number of frames that mapping `pages` takes from the allocator: one
    /// for each table that is missing on the way to the pages' leaves and,
    /// in user space without supplied frames, one for each page.
    pub closed spec fn frames_needed(
        &self,
        frames: PhysFrameRange,
        pages: PageRange,
        space: MemorySpace,
    ) -> nat {
        needed_below(
            self.root.children@,
            self.depth as nat,
            pages.start.number(),
            pages.count(),
            takes_fresh(space, frames),
        )
    }

    /// Slot of the page that holds `addr`.
    pub open spec fn slot_of(&self, addr: u64) -> int {
        slot(addr as int / 4096, self.levels())
    }

    /// Slot of the first page of `pages`.
    pub open spec fn first_slot(&self, pages: PageRange) -> int {
        slot(pages.start.number(), self.levels())
    }

    /// Number of pages of `pages` that a walk covers: all of them, or those
    /// up to the end of the root table.
    pub open spec fn covered(&self, pages: PageRange) -> int {
        taken(pages.start.number(), pages.count(), self.levels())
    }

    /// Number of leaf frames that mapping `pages` takes from the allocator.
    pub open spec fn fresh_leaves(
        &self,
        frames: PhysFrameRange,
        pages: PageRange,
        space: MemorySpace,
    ) -> int {
        if takes_fresh(space, frames) {
            self.covered(pages)
        } else {
            0
        }
    }

    /// What `translate` returns for `addr`.
    pub open spec fn translation(&self, addr: u64) -> Option<u64> {
        translation_of(self@[self.slot_of(addr)], addr)
    }

    /// `after` is `before` with `pages` mapped: the covered slots hold the
    /// entries of the request, each made of its backing frame and the
    /// flags; all other slots are as before.
    pub open spec fn maps(
        before: AddressSpace,
        after: AddressSpace,
        frames: PhysFrameRange,
        pages: PageRange,
        space: MemorySpace,
        flags: PageTableFlags,
        stack: Seq<u64>,
        pos: Seq<int>,
    ) -> bool {
        &&& after.levels() == before.levels()
        &&& after@.len() == before@.len()
        &&& forall|t: int|
            0 <= t < after@.len() ==> #[trigger] after@[t] == if before.first_slot(pages) <= t
                < before.first_slot(pages) + before.covered(pages) {
                entry_of(
                    backing(space, frames, pages, stack, pos, t - before.first_slot(pages)),
                    flags.value(),
                )
            } else {
                before@[t]
            }
    }

    /// `after` is `before` with `pages` unmapped: the covered slots are
    /// unused; all other slots are as before.
    pub open spec fn unmaps(before: AddressSpace, after: AddressSpace, pages: PageRange) -> bool {
        &&& after.levels() == before.levels()
        &&& after@.len() == before@.len()
        &&& forall|t: int|
            0 <= t < after@.len() ==> #[trigger] after@[t] == if before.first_slot(pages) <= t
                < before.first_slot(pages) + before.covered(pages) {
                0
            } else {
                before@[t]
            }
    }

    /// The view has one slot for each page that the root table spans.
    pub proof fn lemma_view_len(&self)
        requires
            self.wf(),
        ensures
            self@.len() == span(self.levels()),
            1 <= self.levels() <= 5,
    {
        lemma_span_positive(self.depth as nat);
    }

    /// The leaves that an unmapping releases, counted on the tree and on the
    /// view.
    proof fn lemma_released_view(&self, first: int, count: int)
        requires
            0 <= first,
            first + count <= span(self.depth as nat),
        ensures
            released(self.root, self.depth as nat, first, count) == frames_held(self@, first, count),
        decreases count,
    {
        if count > 0 {
            self.lemma_released_view(first, count - 1);
        }
    }

    /// Whether a table of level `level` stands on the way from the root to
    /// the slot `t`.
    pub closed spec fn table_at(&self, level: nat, t: int) -> bool {
        reaches(self.root, self.depth as nat, level, t)
    }

    /// The entry in the table of level `level` at which the walk to the slot
    /// `t` arrives: the entry that points to the table one level down. Zero
    /// where the walk ends above that table. For levels from 2 on.
    pub closed spec fn table_entry(&self, level: nat, t: int) -> u64 {
        self.root.entry_at(self.depth as nat, level, t)
    }

    /// Every entry that points to a table in `after` is the entry of
    /// `before` or, where `before` had none, a new entry with a frame from
    /// among `taken` and the flags `flags`.
    pub open spec fn grows(
        before: AddressSpace,
        after: AddressSpace,
        flags: PageTableFlags,
        taken: Seq<u64>,
    ) -> bool {
        forall|level: nat, t: int|
            2 <= level <= before.levels() && 0 <= t < before@.len() ==> {
                let b = before.table_entry(level, t);
                let a = #[trigger] after.table_entry(level, t);
                a == b || (b == 0 && entry_bits(a) == flags.value() && entry_frame(a) != 0
                    && taken.contains(entry_frame(a)))
            }
    }

    /// Every entry that points to a table in `after` is the entry of
    /// `before`, or it is gone and its frame is among `pushed`.
    pub open spec fn shrinks(before: AddressSpace, after: AddressSpace, pushed: Seq<u64>) -> bool {
        forall|level: nat, t: int|
            2 <= level <= before.levels() && 0 <= t < before@.len() ==> {
                let b = before.table_entry(level, t);
                let a = #[trigger] after.table_entry(level, t);
                a == b || (a == 0 && pushed.contains(entry_frame(b)))
            }
    }

    /// The frame of every leaf in the covered part of `pages` is among
    /// `pushed`, unless it is frame zero.
    pub open spec fn gives_back(before: AddressSpace, pages: PageRange, pushed: Seq<u64>) -> bool {
        forall|t: int|
            before.first_slot(pages) <= t < before.first_slot(pages) + before.covered(pages)
                ==> entry_frame(#[trigger] before@[t]) != 0 ==> pushed.contains(
                entry_frame(before@[t]),
            )
    }

    /// The frame of the root table and of every table that an entry points
    /// to is among `frames`.
    pub open spec fn tables_among(&self, frames: Seq<u64>) -> bool {
        &&& frames.contains(self.root_address())
        &&& forall|level: nat, t: int|
            2 <= level <= self.levels() && 0 <= t < self@.len() ==> {
                let e = #[trigger] self.table_entry(level, t);
                e != 0 ==> frames.contains(entry_frame(e))
            }
    }

    /// Every entry that points to a table in `copy` has the flags of the
    /// entry of `source`, and a frame where that one has a frame.
    pub open spec fn copies(source: AddressSpace, copy: AddressSpace) -> bool {
        forall|level: nat, t: int|
            2 <= level <= source.levels() && 0 <= t < source@.len() ==> {
                let b = source.table_entry(level, t);
                let a = #[trigger] copy.table_entry(level, t);
                entry_bits(a) == entry_bits(b) && (entry_frame(a) != 0) == (entry_frame(b) != 0)
            }
    }

    /// A table stands on the way to a slot exactly where the entry one level
    /// up on that way is used.
    pub proof fn lemma_table_at_entry(&self, level: nat, t: int)
        requires
            self.wf(),
            1 <= level < self.levels(),
            0 <= t < self@.len(),
        ensures
            self.table_at(level, t) <==> self.table_entry((level + 1) as nat, t) != 0,
    {
        lemma_span_positive(self.depth as nat);
        lemma_reaches_entry(self.root, self.depth as nat, level, t);
    }

    /// On the way to a used leaf stands a table of every level: the walk
    /// passes a used entry at each level above.
    pub proof fn lemma_used_leaf_has_tables(&self, level: nat, t: int)
        requires
            self.wf(),
            1 <= level < self.levels(),
            0 <= t < self@.len(),
            self@[t] != 0,
        ensures
            self.table_at(level, t),
            self.table_entry((level + 1) as nat, t) != 0,
    {
        lemma_span_positive(self.depth as nat);
        lemma_leaf_reaches(self.root, self.depth as nat, level, t);
        self.lemma_table_at_entry(level, t);
    }

    /// The slot of an address in the covered part of `pages` lies as far
    /// behind the first slot as its page lies behind the first page.
    pub proof fn lemma_slot_in_range(&self, pages: PageRange, addr: u64)
        requires
            self.wf(),
            pages.valid(),
            pages.start.addr() <= addr < pages.start.addr() + 4096 * self.covered(pages),
        ensures
            0 <= addr as int / 4096 - pages.start.number() < self.covered(pages),
            self.slot_of(addr) == self.first_slot(pages) + (addr as int / 4096
                - pages.start.number()),
            0 <= self.first_slot(pages),
            self.first_slot(pages) + self.covered(pages) <= self@.len(),
    {
        pages.start.lemma_aligned();
        let level = self.depth as nat;
        lemma_span_positive(level);
        lemma_slot_parts(pages.start.number(), level);
        let d = addr as int / 4096 - pages.start.number();
        lemma_mod_advance(pages.start.number(), span(level), d);
    }

    /// Two spaces with the same view and depth translate alike.
    pub proof fn lemma_same_view_same_translation(&self, other: &AddressSpace, addr: u64)
        requires
            self.levels() == other.levels(),
            self@ == other@,
        ensures
            self.translation(addr) == other.translation(addr),
    {
    }

    /// A space without used leaf translates no address.
    pub proof fn lemma_blank_translates_nothing(&self, addr: u64)
        requires
            self.wf(),
            forall|t: int| 0 <= t < self@.len() ==> self@[t] == 0,
        ensures
            self.translation(addr) is None,
    {
        lemma_span_positive(self.depth as nat);
        lemma_slot_parts(addr as int / 4096, self.depth as nat);
    }

    /// Every used leaf of the space stands at a slot of `slots`: the pages
    /// at all other slots are not mapped.
    pub open spec fn maps_within(&self, slots: Set<int>) -> bool {
        forall|t: int| 0 <= t < self@.len() && !slots.contains(t) ==> #[trigger] self@[t] == 0
    }

    /// The slots that a walk over `pages` covers.
    pub open spec fn covered_slots(&self, pages: PageRange) -> Set<int> {
        Set::new(
            |t: int| self.first_slot(pages) <= t < self.first_slot(pages) + self.covered(pages),
        )
    }

    /// An address whose slot holds no mapping translates to nothing. With
    /// the four laws that follow, which say how the mapped slots change from
    /// a new space on, this holds of every page that lies in no range
    /// that is mapped at the time.
    pub proof fn lemma_unmapped_translates_nothing(&self, slots: Set<int>, addr: u64)
        requires
            self.wf(),
            self.maps_within(slots),
            !slots.contains(self.slot_of(addr)),
        ensures
            self.translation(addr) is None,
    {
        lemma_span_positive(self.depth as nat);
        lemma_slot_parts(addr as int / 4096, self.depth as nat);
    }

    /// A space without used leaf maps within no slots at all.
    pub proof fn lemma_blank_maps_nothing(&self)
        requires
            forall|t: int| 0 <= t < self@.len() ==> self@[t] == 0,
        ensures
            self.maps_within(Set::empty()),
    {
    }

    /// After a mapping the space maps within the slots it mapped within
    /// before and the covered slots.
    pub proof fn lemma_map_maps_within(
        before: AddressSpace,
        after: AddressSpace,
        frames: PhysFrameRange,
        pages: PageRange,
        space: MemorySpace,
        flags: PageTableFlags,
        stack: Seq<u64>,
        pos: Seq<int>,
        slots: Set<int>,
    )
        requires
            before.maps_within(slots),
            Self::maps(before, after, frames, pages, space, flags, stack, pos),
        ensures
            after.maps_within(slots.union(before.covered_slots(pages))),
    {
        assert forall|t: int|
            0 <= t < after@.len() && !slots.union(before.covered_slots(pages)).contains(
                t,
            ) implies #[trigger] after@[t] == 0 by {
            assert(!before.covered_slots(pages).contains(t));
            assert(before@[t] == 0);
        }
    }

    /// After an unmapping the space maps within the slots it mapped within
    /// before, the covered slots taken out.
    pub proof fn lemma_unmap_maps_within(
        before: AddressSpace,
        after: AddressSpace,
        pages: PageRange,
        slots: Set<int>,
    )
        requires
            before.maps_within(slots),
            Self::unmaps(before, after, pages),
        ensures
            after.maps_within(slots.difference(before.covered_slots(pages))),
    {
        assert forall|t: int|
            0 <= t < after@.len() && !slots.difference(before.covered_slots(pages)).contains(
                t,
            ) implies #[trigger] after@[t] == 0 by {
            if !before.covered_slots(pages).contains(t) {
                assert(before@[t] == 0);
            }
        }
    }

    /// A copy maps within the slots that its source maps within.
    pub proof fn lemma_copy_maps_within(&self, copy: &AddressSpace, slots: Set<int>)
        requires
            self.maps_within(slots),
            copy@ == self@,
        ensures
            copy.maps_within(slots),
    {
    }

    /// Mapping leaves alone every address whose slot is not covered: such
    /// an address translates as before.
    pub proof fn lemma_map_keeps_other_pages(
        before: AddressSpace,
        after: AddressSpace,
        frames: PhysFrameRange,
        pages: PageRange,
        space: MemorySpace,
        flags: PageTableFlags,
        stack: Seq<u64>,
        pos: Seq<int>,
        addr: u64,
    )
        requires
            before.wf(),
            Self::maps(before, after, frames, pages, space, flags, stack, pos),
            !(before.first_slot(pages) <= before.slot_of(addr) < before.first_slot(pages)
                + before.covered(pages)),
        ensures
            after.translation(addr) == before.translation(addr),
    {
        lemma_span_positive(before.depth as nat);
        lemma_slot_parts(addr as int / 4096, before.depth as nat);
    }

    /// After a mapping in kernel space without supplied frames every address
    /// in the covered part of the range translates to itself, unless the
    /// entry of its page is zero: page zero under empty flags.
    pub proof fn lemma_kernel_map_translates_to_itself(
        before: AddressSpace,
        after: AddressSpace,
        frames: PhysFrameRange,
        pages: PageRange,
        flags: PageTableFlags,
        stack: Seq<u64>,
        pos: Seq<int>,
        addr: u64,
    )
        requires
            before.wf(),
            frames.count() == 0,
            Self::maps(before, after, frames, pages, MemorySpace::Kernel, flags, stack, pos),
            pages.valid(),
            flags.only_flags(),
            pages.start.addr() + 4096 * before.covered(pages) <= PHYS_ADDR_END,
            pages.start.addr() <= addr < pages.start.addr() + 4096 * before.covered(pages),
            addr >= 4096 || flags.value() != 0,
        ensures
            after.translation(addr) == Some(addr),
    {
        pages.start.lemma_aligned();
        flags.lemma_only_flags();
        before.lemma_slot_in_range(pages, addr);
        let d = addr as int / 4096 - pages.start.number();
        let frame = (pages.start.addr() + 4096 * d) as u64;
        lemma_frame_is_address(frame);
        lemma_entry_parts(frame, flags.value());
    }

    /// After a mapping with supplied frames, in either space, every address
    /// in the covered part of the range translates to the address as far
    /// into the frames as it lies into the pages, unless the entry of its
    /// page is zero: frame zero under empty flags.
    pub proof fn lemma_physical_map_translates_to_frames(
        before: AddressSpace,
        after: AddressSpace,
        frames: PhysFrameRange,
        pages: PageRange,
        space: MemorySpace,
        flags: PageTableFlags,
        stack: Seq<u64>,
        pos: Seq<int>,
        addr: u64,
    )
        requires
            before.wf(),
            frames.count() == pages.count(),
            frames.count() > 0,
            Self::maps(before, after, frames, pages, space, flags, stack, pos),
            pages.valid(),
            frames.valid(),
            flags.only_flags(),
            pages.start.addr() <= addr < pages.start.addr() + 4096 * before.covered(pages),
            frames.start.addr() != 0 || flags.value() != 0,
        ensures
            after.translation(addr) == Some(
                (frames.start.addr() + (addr - pages.start.addr())) as u64,
            ),
            frames.start.addr() + (addr - pages.start.addr()) < PHYS_ADDR_END,
    {
        pages.start.lemma_aligned();
        frames.start.lemma_valid();
        frames.end.lemma_valid();
        flags.lemma_only_flags();
        before.lemma_slot_in_range(pages, addr);
        let d = addr as int / 4096 - pages.start.number();
        let frame = (frames.start.addr() + 4096 * d) as u64;
        lemma_frame_is_address(frame);
        lemma_entry_parts(frame, flags.value());
    }

    /// After a mapping in user space without supplied frames, two addresses
    /// in different pages of the covered part of the range translate, and
    /// to different frames, provided that no frame stands twice on the
    /// allocator's stack.
    pub proof fn lemma_user_map_translates_to_distinct_frames(
        before: AddressSpace,
        after: AddressSpace,
        frames: PhysFrameRange,
        pages: PageRange,
        flags: PageTableFlags,
        stack: Seq<u64>,
        pos: Seq<int>,
        low: int,
        a: u64,
        b: u64,
    )
        requires
            before.wf(),
            frames.count() == 0,
            Self::maps(before, after, frames, pages, MemorySpace::User, flags, stack, pos),
            places(pos, before.covered(pages), low, stack.len() as int),
            0 <= low,
            forall|i: int| 0 <= i < stack.len() ==> usable_frame(#[trigger] stack[i]),
            stack.no_duplicates(),
            pages.valid(),
            flags.only_flags(),
            pages.start.addr() <= a < pages.start.addr() + 4096 * before.covered(pages),
            pages.start.addr() <= b < pages.start.addr() + 4096 * before.covered(pages),
            a / 4096 != b / 4096,
        ensures
            after.translation(a) is Some,
            after.translation(b) is Some,
            entry_frame(after@[after.slot_of(a)]) != entry_frame(after@[after.slot_of(b)]),
            entry_frame(after@[after.slot_of(a)]) != 0,
            after.translation(a)->0 / 4096 != after.translation(b)->0 / 4096,
    {
        flags.lemma_only_flags();
        before.lemma_slot_in_range(pages, a);
        before.lemma_slot_in_range(pages, b);
        let da = a as int / 4096 - pages.start.number();
        let db = b as int / 4096 - pages.start.number();
        let fa = stack[pos[da]];
        let fb = stack[pos[db]];
        assert(pos[da] != pos[db]) by {
            if da < db {
                assert(pos[da] > pos[db]);
            } else {
                assert(pos[db] > pos[da]);
            }
        }
        assert(usable_frame(fa) && usable_frame(fb));
        lemma_frame_is_address(fa);
        lemma_frame_is_address(fb);
        lemma_entry_parts(fa, flags.value());
        lemma_entry_parts(fb, flags.value());
    }

    /// After a mapping in user space without supplied frames, the frame of a
    /// fresh leaf is the frame of no table made by the same mapping,
    /// provided that no frame stands twice on the allocator's stack.
    pub proof fn lemma_fresh_leaf_is_no_new_table(
        before: AddressSpace,
        after: AddressSpace,
        frames: PhysFrameRange,
        pages: PageRange,
        flags: PageTableFlags,
        stack: Seq<u64>,
        pos: Seq<int>,
        tabs: Seq<int>,
        low: int,
        addr: u64,
        level: nat,
        t: int,
    )
        requires
            before.wf(),
            frames.count() == 0,
            Self::maps(before, after, frames, pages, MemorySpace::User, flags, stack, pos),
            Self::grows(before, after, flags, picked(stack, tabs)),
            places(pos, before.covered(pages), low, stack.len() as int),
            places(tabs, tabs.len() as int, low, stack.len() as int),
            apart(tabs, pos),
            0 <= low,
            forall|i: int| 0 <= i < stack.len() ==> usable_frame(#[trigger] stack[i]),
            stack.no_duplicates(),
            pages.valid(),
            flags.only_flags(),
            pages.start.addr() <= addr < pages.start.addr() + 4096 * before.covered(pages),
            2 <= level <= before.levels(),
            0 <= t < before@.len(),
            after.table_entry(level, t) != before.table_entry(level, t),
        ensures
            entry_frame(after@[after.slot_of(addr)]) != entry_frame(after.table_entry(level, t)),
    {
        flags.lemma_only_flags();
        before.lemma_slot_in_range(pages, addr);
        let d = addr as int / 4096 - pages.start.number();
        let leaf = stack[pos[d]];
        assert(usable_frame(leaf));
        lemma_frame_is_address(leaf);
        lemma_entry_parts(leaf, flags.value());
        let held = picked(stack, tabs);
        let frame = entry_frame(after.table_entry(level, t));
        assert(held.contains(frame));
        let i = choose|i: int| 0 <= i < held.len() && held[i] == frame;
        assert(tabs[i] != pos[d]);
    }

    /// After an unmapping no address in the covered part of the range
    /// translates, and every address whose slot is not covered translates as
    /// before.
    pub proof fn lemma_unmap_translation(
        before: AddressSpace,
        after: AddressSpace,
        pages: PageRange,
        addr: u64,
    )
        requires
            before.wf(),
            Self::unmaps(before, after, pages),
            pages.valid(),
        ensures
            pages.start.addr() <= addr < pages.start.addr() + 4096 * before.covered(pages)
                ==> after.translation(addr) is None,
            !(before.first_slot(pages) <= before.slot_of(addr) < before.first_slot(pages)
                + before.covered(pages)) ==> after.translation(addr) == before.translation(addr),
    {
        lemma_span_positive(before.depth as nat);
        lemma_slot_parts(addr as int / 4096, before.depth as nat);
        if pages.start.addr() <= addr < pages.start.addr() + 4096 * before.covered(pages) {
            before.lemma_slot_in_range(pages, addr);
        }
    }

    /// A space holds its root table at least, and no table but the root
    /// exactly where no entry points to a table of level 1 or above.
    pub proof fn lemma_table_count_of_root(&self)
        requires
            self.wf(),
        ensures
            self.table_count() >= 1,
            self.levels() == 1 ==> self.table_count() == 1,
            self.table_count() == 1 ==> forall|level: nat, t: int|
                2 <= level <= self.levels() && 0 <= t < self@.len() ==> #[trigger] self.table_entry(
                    level,
                    t,
                ) == 0,
    {
        let depth = self.depth as nat;
        lemma_span_positive(depth);
        if self.table_count() == 1 && depth > 1 {
            lemma_no_tables_no_kids(self.root.children@, (depth - 1) as nat, 0);
            assert forall|level: nat, t: int|
                2 <= level <= depth && 0 <= t < span(depth) implies #[trigger] self.table_entry(
                level,
                t,
            ) == 0 by {
                crate::shape::lemma_slot_entry(t, depth);
                let q = t / span((depth - 1) as nat);
                assert(self.root.children@[q] is None);
                assert(self.root.entries()[q] == 0);
            }
        }
    }

    /// Mapping takes no more frames than it takes in a space that holds no
    /// table but its root, and as many in such a space.
    pub proof fn lemma_frames_needed_bound(
        &self,
        frames: PhysFrameRange,
        pages: PageRange,
        space: MemorySpace,
    )
        requires
            self.wf(),
        ensures
            self.frames_needed(frames, pages, space) <= blank_need(
                self.levels(),
                pages.start.number(),
                pages.count(),
                takes_fresh(space, frames),
            ),
            self.table_count() == 1 ==> self.frames_needed(frames, pages, space) == blank_need(
                self.levels(),
                pages.start.number(),
                pages.count(),
                takes_fresh(space, frames),
            ),
    {
        let level = self.depth as nat;
        let number = pages.start.number();
        if level > 1 {
            lemma_needed_blank(
                self.root.children@,
                level,
                crate::layout::table_index(number, level),
                number,
                pages.count(),
                takes_fresh(space, frames),
            );
            if self.table_count() == 1 {
                lemma_no_tables_no_kids(self.root.children@, (level - 1) as nat, 0);
            }
        }
    }

    /// Where a table of level 1 stands on the way to every covered slot, and
    /// to the first slot of the range, mapping takes frames for fresh
    /// leaves only: no table is made.
    pub proof fn lemma_frames_needed_where_tables_stand(
        &self,
        frames: PhysFrameRange,
        pages: PageRange,
        space: MemorySpace,
    )
        requires
            self.wf(),
            self.table_at(1, self.first_slot(pages)),
            forall|t: int|
                self.first_slot(pages) <= t < self.first_slot(pages) + self.covered(pages)
                    ==> #[trigger] self.table_at(1, t),
        ensures
            self.frames_needed(frames, pages, space) == self.fresh_leaves(frames, pages, space),
    {
        let level = self.depth as nat;
        let number = pages.start.number();
        if level > 1 {
            lemma_slot_parts(number, level);
            assert forall|t: int|
                slot(number, level) <= t < slot(number, level) + taken(
                    number,
                    pages.count(),
                    level,
                ) implies #[trigger] reaches(self.root, level, 1, t) by {
                assert(self.table_at(1, t));
            }
            lemma_needed_full(
                self.root,
                level,
                crate::layout::table_index(number, level),
                number,
                pages.count(),
                takes_fresh(space, frames),
            );
        } else {
            lemma_span_values();
        }
    }

    /// Two spaces without empty tables that have the same view and depth
    /// have the same number of tables.
    pub proof fn lemma_tables_follow_view(&self, other: &AddressSpace)
        requires
            self.wf(),
            other.wf(),
            self.tight(),
            other.tight(),
            self.levels() == other.levels(),
            self@ == other@,
        ensures
            self.table_count() == other.table_count(),
    {
        let level = self.depth as nat;
        lemma_span_positive(level);
        assert forall|t: int| 0 <= t < span(level) implies #[trigger] self.root.leaf(level, t)
            == other.root.leaf(level, t) by {
            assert(self@[t] == self.root.leaf(level, t));
            assert(other@[t] == other.root.leaf(level, t));
        }
        lemma_same_leaves_same_count(self.root, other.root, level);
    }

    /// In a space without empty tables, below every table lies a used leaf:
    /// where all the slots of a table's span are unused, no table stands.
    pub proof fn lemma_unused_span_holds_no_table(&self, level: nat, t: int)
        requires
            self.wf(),
            self.tight(),
            1 <= level < self.levels(),
            0 <= t < self@.len(),
            forall|u: int|
                0 <= u < self@.len() && u / span(level) == t / span(level) ==> self@[u] == 0,
        ensures
            !self.table_at(level, t),
    {
        lemma_span_positive(self.depth as nat);
        if self.table_at(level, t) {
            let u = lemma_table_has_leaf(self.root, self.depth as nat, level, t);
            assert(self@[u] == self.root.leaf(self.depth as nat, u));
        }
    }

    /// After an unmapping, no table stands whose whole span lies in the
    /// covered part of the range, provided that the space had no empty table
    /// before.
    pub proof fn lemma_unmap_leaves_no_table(
        before: AddressSpace,
        after: AddressSpace,
        pages: PageRange,
        level: nat,
        t: int,
    )
        requires
            after.wf(),
            after.tight(),
            Self::unmaps(before, after, pages),
            1 <= level < after.levels(),
            0 <= t < after@.len(),
            before.first_slot(pages) <= span(level) * (t / span(level)),
            span(level) * (t / span(level)) + span(level) <= before.first_slot(pages)
                + before.covered(pages),
        ensures
            !after.table_at(level, t),
    {
        lemma_span_positive(level);
        assert forall|u: int|
            0 <= u < after@.len() && u / span(level) == t / span(level) implies after@[u] == 0 by {
            lemma_div_range(u, span(level), t / span(level));
        }
        after.lemma_unused_span_holds_no_table(level, t);
    }

    /// Unmapping a range that holds no used leaf changes neither the view
    /// nor the allocator's stack, provided that the space has no empty
    /// table.
    pub proof fn lemma_unmap_of_unmapped_changes_nothing(
        before: AddressSpace,
        after: AddressSpace,
        stack: Seq<u64>,
        stack_after: Seq<u64>,
        pages: PageRange,
    )
        requires
            before.wf(),
            before.tight(),
            after.wf(),
            after.tight(),
            Self::unmaps(before, after, pages),
            forall|t: int|
                before.first_slot(pages) <= t < before.first_slot(pages) + before.covered(pages)
                    && 0 <= t < before@.len() ==> before@[t] == 0,
            stack_after.len() >= stack.len(),
            stack_after.take(stack.len() as int) == stack,
            stack_after.len() + after.table_count() == stack.len() + before.table_count()
                + frames_held(before@, before.first_slot(pages), before.covered(pages)),
        ensures
            after@ == before@,
            stack_after == stack,
            forall|addr: u64| #[trigger] after.translation(addr) == before.translation(addr),
    {
        let level = before.depth as nat;
        lemma_span_positive(level);
        lemma_slot_parts(pages.start.number(), level);
        assert(after@ =~= before@);
        after.lemma_tables_follow_view(&before);
        lemma_frames_held_none(before@, before.first_slot(pages), before.covered(pages));
        assert(stack_after =~= stack);
    }

    /// Mapping a range without used leaf in user space and unmapping it
    /// again leaves as many frames free as before, provided that the space
    /// has no empty table and that the range holds a page.
    pub proof fn lemma_map_then_unmap_restores_free_count(
        before: AddressSpace,
        mapped: AddressSpace,
        after: AddressSpace,
        stack: Seq<u64>,
        stack_mapped: Seq<u64>,
        stack_after: Seq<u64>,
        frames: PhysFrameRange,
        pages: PageRange,
        flags: PageTableFlags,
        pos: Seq<int>,
    )
        requires
            before.wf(),
            before.tight(),
            mapped.wf(),
            after.wf(),
            after.tight(),
            frames.count() == 0,
            flags.only_flags(),
            forall|i: int| 0 <= i < stack.len() ==> usable_frame(#[trigger] stack[i]),
            forall|t: int|
                before.first_slot(pages) <= t < before.first_slot(pages) + before.covered(pages)
                    && 0 <= t < before@.len() ==> before@[t] == 0,
            places(pos, before.covered(pages), stack_mapped.len() as int, stack.len() as int),
            Self::maps(before, mapped, frames, pages, MemorySpace::User, flags, stack, pos),
            stack_mapped.len() == stack.len() - before.frames_needed(
                frames,
                pages,
                MemorySpace::User,
            ),
            mapped.table_count() + before.covered(pages) == before.table_count()
                + before.frames_needed(frames, pages, MemorySpace::User),
            Self::unmaps(mapped, after, pages),
            stack_after.len() + after.table_count() == stack_mapped.len() + mapped.table_count()
                + frames_held(mapped@, mapped.first_slot(pages), mapped.covered(pages)),
        ensures
            after@ == before@,
            stack_after.len() == stack.len(),
    {
        let level = before.depth as nat;
        let first = before.first_slot(pages);
        let count = before.covered(pages);
        flags.lemma_only_flags();
        lemma_span_positive(level);
        lemma_slot_parts(pages.start.number(), level);
        assert(after@ =~= before@);
        after.lemma_tables_follow_view(&before);
        assert forall|d: int| 0 <= d < count implies entry_frame(#[trigger] mapped@[first + d])
            != 0 by {
            let frame = stack[pos[d]];
            assert(usable_frame(frame));
            lemma_frame_is_address(frame);
            lemma_entry_parts(frame, flags.value());
        }
        lemma_frames_held_all(mapped@, first, count);
    }

    /// A space of `depth` levels whose root table is empty.
    fn blank(depth: usize, allocator: &mut FrameAllocator) -> (space: AddressSpace)
        requires
            1 <= depth <= 5,
            old(allocator).wf(),
            old(allocator)@.len() > 0,
        ensures
            space.wf(),
            space.depth == depth,
            space.root.entries() == Seq::new(512, |j: int| 0u64),
            space.root.children@ == Seq::new(512, |j: int| None::<Box<Node>>),
            space@ == Seq::new(span(depth as nat) as nat, |t: int| 0u64),
            forall|level: nat, t: int|
                0 <= t < span(depth as nat) ==> #[trigger] space.table_entry(level, t) == 0,
            space.table_count() == 1,
            space.tight(),
            space.root_address() == old(allocator)@.last(),
            final(allocator).wf(),
            final(allocator).limit() == old(allocator).limit(),
            final(allocator)@ == old(allocator)@.drop_last(),
    {
        let table_addr = allocator.allocate();
        let root = Node::empty(Ghost(depth as nat));
        let space = AddressSpace { root, root_frame: table_addr, depth };
        proof {
            lemma_span_positive(depth as nat);
            assert forall|t: int| 0 <= t < span(depth as nat) implies space.root.leaf(
                depth as nat,
                t,
            ) == 0 by {
                lemma_empty_leaf(space.root, depth as nat, t);
            }
            assert(space@ =~= Seq::new(span(depth as nat) as nat, |t: int| 0u64));
            lemma_count_none(space.root.children@, (depth - 1) as nat, 0);
            assert forall|level: nat, t: int| 0 <= t < span(depth as nat) implies #[trigger]
                space.table_entry(level, t) == 0 by {
                lemma_empty_entry(space.root, depth as nat, level, t);
            }
        }
        space
    }

    /// A space of `depth` levels without any mapping. The root table stands
    /// in a frame from the allocator.
    pub fn new(depth: usize, allocator: &mut FrameAllocator) -> (space: AddressSpace)
        requires
            1 <= depth <= 5,
            old(allocator).wf(),
            old(allocator)@.len() > 0,
        ensures
            space.wf(),
            space.levels() == depth,
            space@ == Seq::new(span(depth as nat) as nat, |t: int| 0u64),
            forall|level: nat, t: int|
                0 <= t < span(depth as nat) ==> #[trigger] space.table_entry(level, t) == 0,
            space.table_count() == 1,
            space.tight(),
            space.root_address() == old(allocator)@.last(),
            final(allocator).wf(),
            final(allocator).limit() == old(allocator).limit(),
            final(allocator)@ == old(allocator)@.drop_last(),
    {
        Self::blank(depth, allocator)
    }

    /// A space with the mappings of `other`: the tables are copies in frames
    /// from the allocator, the leaves point to the frames that the leaves of
    /// `other` point to.
    pub fn from_other(other: &AddressSpace, allocator: &mut FrameAllocator) -> (space: AddressSpace)
        requires
            other.wf(),
            old(allocator).wf(),
            old(allocator)@.len() >= other.table_count(),
        ensures
            space.wf(),
            space.levels() == other.levels(),
            space@ == other@,
            forall|addr: u64| #[trigger] space.translation(addr) == other.translation(addr),
            Self::copies(*other, space),
            space.tables_among(old(allocator)@.skip(final(allocator)@.len() as int)),
            space.table_count() == other.table_count(),
            other.tight() ==> space.tight(),
            space.root_address() == old(allocator)@.last(),
            final(allocator).wf(),
            final(allocator).limit() == old(allocator).limit(),
            final(allocator)@ == old(allocator)@.take(
                old(allocator)@.len() - other.table_count(),
            ),
    {
        let ghost stack = allocator@;
        let mut address_space = Self::blank(other.depth, allocator);
        copy_table(&other.root, &mut address_space.root, other.depth, allocator);
        proof {
            lemma_span_positive(other.depth as nat);
            reveal(alike);
            reveal(among);
            assert(address_space@ =~= other@);
            assert(Self::copies(*other, address_space));
            let low = allocator@.len() as int;
            let taken = stack.skip(low);
            assert(taken[stack.len() - 1 - low] == stack.last());
            if other.depth > 1 {
                assert(span(other.depth as nat) == span((other.depth - 1) as nat) * 512);
            }
            assert(stack.take(stack.len() - 1) =~= stack.drop_last());
            lemma_pushed_stays(stack.drop_last(), stack, low, low);
            assert forall|level: nat, t: int|
                2 <= level <= address_space.levels() && 0 <= t < address_space@.len() implies {
                let e = #[trigger] address_space.table_entry(level, t);
                e != 0 ==> taken.contains(entry_frame(e))
            } by {
                let e = address_space.table_entry(level, t);
                if e != 0 {
                    assert(stack.drop_last().skip(low).contains(entry_frame(e)));
                }
            }
            assert(address_space.tables_among(taken));
            assert(allocator@ =~= stack.take(stack.len() - other.table_count()));
        }
        address_space
    }

    /// Address of the frame that holds the root table.
    pub fn page_table_address(&self) -> (addr: u64)
        ensures
            addr == self.root_address(),
            addr % 4096 == 0,
            addr < PHYS_ADDR_END,
            self.wf() ==> addr != 0,
    {
        self.root_frame.start_address()
    }

    /// Number of paging levels.
    pub fn depth(&self) -> (depth: usize)
        ensures
            depth == self.levels(),
    {
        self.depth
    }

    /// Number of tables in the tree, the root counted: the frames that a
    /// copy of the space takes from the allocator.
    pub fn tables(&self) -> (count: u64)
        requires
            self.wf(),
        ensures
            count == self.table_count(),
    {
        count_tables(&self.root, self.depth)
    }

    /// Number of frames that mapping `pages` would take from the allocator.
    pub fn frames_to_map(&self, frames: PhysFrameRange, pages: PageRange, space: MemorySpace) -> (need:
        u64)
        requires
            self.wf(),
        ensures
            need == self.frames_needed(frames, pages, space),
    {
        let fresh: bool = match space {
            MemorySpace::Kernel => false,
            MemorySpace::User => frames.len() == 0,
        };
        needed_in_table(Some(&self.root.children), pages, fresh, self.depth)
    }

    /// Walks the tree for `addr`. Returns nothing where the walk meets an
    /// unused entry, else the frame address of the leaf entry plus the offset
    /// of `addr` in its page.
    pub fn translate(&self, addr: u64) -> (phys: Option<u64>)
        requires
            self.wf(),
        ensures
            phys == self.translation(addr),
    {
        proof {
            lemma_slot_parts(addr as int / 4096, self.depth as nat);
        }
        translate_in_table(&self.root, addr, self.depth)
    }

    /// Maps `pages` to `frames`, to the pages' own addresses or to fresh
    /// frames, as `space` and `frames` say.
    fn map_range(
        &mut self,
        allocator: &mut FrameAllocator,
        frames: PhysFrameRange,
        pages: PageRange,
        space: MemorySpace,
        flags: PageTableFlags,
    )
        requires
            old(self).wf(),
            old(allocator).wf(),
            frames.count() == 0 || frames.count() == pages.count(),
            maps_identity(space, frames) ==> pages.start.addr() + 4096 * old(self).covered(
                pages,
            ) <= PHYS_ADDR_END,
            old(allocator)@.len() >= old(self).frames_needed(frames, pages, space),
        ensures
            final(self).wf(),
            final(self).root_address() == old(self).root_address(),
            final(allocator).wf(),
            final(allocator).limit() == old(allocator).limit(),
            exists|pos: Seq<int>, tabs: Seq<int>|
                {
                    &&& places(
                        pos,
                        old(self).fresh_leaves(frames, pages, space),
                        final(allocator)@.len() as int,
                        old(allocator)@.len() as int,
                    )
                    &&& places(
                        tabs,
                        tabs.len() as int,
                        final(allocator)@.len() as int,
                        old(allocator)@.len() as int,
                    )
                    &&& #[trigger] apart(tabs, pos)
                    &&& tabs.len() + pos.len() == old(allocator)@.len() - final(allocator)@.len()
                    &&& Self::maps(
                        *old(self),
                        *final(self),
                        frames,
                        pages,
                        space,
                        flags,
                        old(allocator)@,
                        pos,
                    )
                    &&& Self::grows(
                        *old(self),
                        *final(self),
                        flags,
                        picked(old(allocator)@, tabs),
                    )
                },
            final(allocator)@ == old(allocator)@.take(
                old(allocator)@.len() - old(self).frames_needed(frames, pages, space),
            ),
            final(self).table_count() + old(self).fresh_leaves(frames, pages, space) == old(
                self,
            ).table_count() + old(self).frames_needed(frames, pages, space),
            old(self).tight() && pages.count() > 0 && solid(space, frames, pages, flags)
                ==> final(self).tight(),
            Self::grows(
                *old(self),
                *final(self),
                flags,
                old(allocator)@.skip(final(allocator)@.len() as int),
            ),
    {
        let depth = self.depth;
        let ghost before = *self;
        let ghost stack = allocator@;
        proof {
            lemma_slot_parts(pages.start.number(), depth as nat);
        }
        let (count, Ghost(pos), Ghost(tabs)) = map_in_table(
            &mut self.root,
            frames,
            pages,
            space,
            flags,
            depth,
            allocator,
        );
        proof {
            reveal(mapped_leaves);
            reveal(grown);
            lemma_span_positive(depth as nat);
            assert(Self::maps(before, *self, frames, pages, space, flags, stack, pos));
            assert(Self::grows(before, *self, flags, stack.skip(allocator@.len() as int)));
            assert(Self::grows(before, *self, flags, picked(stack, tabs)));
            assert(apart(tabs, pos));
        }
    }

    /// Maps `pages`. In kernel space each page is backed by the frame with
    /// the page's own address; in user space by a frame fresh from the
    /// allocator. A page that was mapped before is mapped anew, and the
    /// frame it pointed to is forgotten. Tables that are missing on the way
    /// are made under the same flags.
    pub fn map(
        &mut self,
        allocator: &mut FrameAllocator,
        pages: PageRange,
        space: MemorySpace,
        flags: PageTableFlags,
    )
        requires
            old(self).wf(),
            old(allocator).wf(),
            space is Kernel ==> pages.start.addr() + 4096 * old(self).covered(pages)
                <= PHYS_ADDR_END,
            old(allocator)@.len() >= old(self).frames_needed(PhysFrameRange::none(), pages, space),
        ensures
            final(self).wf(),
            final(self).root_address() == old(self).root_address(),
            final(allocator).wf(),
            final(allocator).limit() == old(allocator).limit(),
            exists|pos: Seq<int>, tabs: Seq<int>|
                {
                    &&& places(
                        pos,
                        old(self).fresh_leaves(PhysFrameRange::none(), pages, space),
                        final(allocator)@.len() as int,
                        old(allocator)@.len() as int,
                    )
                    &&& places(
                        tabs,
                        tabs.len() as int,
                        final(allocator)@.len() as int,
                        old(allocator)@.len() as int,
                    )
                    &&& #[trigger] apart(tabs, pos)
                    &&& tabs.len() + pos.len() == old(allocator)@.len() - final(allocator)@.len()
                    &&& Self::maps(
                        *old(self),
                        *final(self),
                        PhysFrameRange::none(),
                        pages,
                        space,
                        flags,
                        old(allocator)@,
                        pos,
                    )
                    &&& Self::grows(
                        *old(self),
                        *final(self),
                        flags,
                        picked(old(allocator)@, tabs),
                    )
                },
            final(allocator)@ == old(allocator)@.take(
                old(allocator)@.len() - old(self).frames_needed(
                    PhysFrameRange::none(),
                    pages,
                    space,
                ),
            ),
            final(self).table_count() + old(self).fresh_leaves(PhysFrameRange::none(), pages, space)
                == old(self).table_count() + old(self).frames_needed(
                PhysFrameRange::none(),
                pages,
                space,
            ),
            old(self).tight() && pages.count() > 0 && solid(
                space,
                PhysFrameRange::none(),
                pages,
                flags,
            ) ==> final(self).tight(),
            Self::grows(
                *old(self),
                *final(self),
                flags,
                old(allocator)@.skip(final(allocator)@.len() as int),
            ),
    {
        let frames = PhysFrameRange { start: PhysFrame::zero(), end: PhysFrame::zero() };
        self.map_range(allocator, frames, pages, space, flags);
    }

    /// Maps `pages` to the frames of `frames`, one frame per page in order,
    /// in kernel space as in user space. Tables that are missing on the way
    /// are made, each in a frame from the allocator; no leaf takes one.
    pub fn map_physical(
        &mut self,
        allocator: &mut FrameAllocator,
        frames: PhysFrameRange,
        pages: PageRange,
        space: MemorySpace,
        flags: PageTableFlags,
    )
        requires
            old(self).wf(),
            old(allocator).wf(),
            frames.count() == pages.count(),
            maps_identity(space, frames) ==> pages.start.addr() + 4096 * old(self).covered(
                pages,
            ) <= PHYS_ADDR_END,
            old(allocator)@.len() >= old(self).frames_needed(frames, pages, space),
        ensures
            final(self).wf(),
            final(self).root_address() == old(self).root_address(),
            final(allocator).wf(),
            final(allocator).limit() == old(allocator).limit(),
            exists|pos: Seq<int>, tabs: Seq<int>|
                {
                    &&& places(
                        pos,
                        old(self).fresh_leaves(frames, pages, space),
                        final(allocator)@.len() as int,
                        old(allocator)@.len() as int,
                    )
                    &&& places(
                        tabs,
                        tabs.len() as int,
                        final(allocator)@.len() as int,
                        old(allocator)@.len() as int,
                    )
                    &&& #[trigger] apart(tabs, pos)
                    &&& tabs.len() + pos.len() == old(allocator)@.len() - final(allocator)@.len()
                    &&& Self::maps(
                        *old(self),
                        *final(self),
                        frames,
                        pages,
                        space,
                        flags,
                        old(allocator)@,
                        pos,
                    )
                    &&& Self::grows(
                        *old(self),
                        *final(self),
                        flags,
                        picked(old(allocator)@, tabs),
                    )
                },
            final(allocator)@ == old(allocator)@.take(
                old(allocator)@.len() - old(self).frames_needed(frames, pages, space),
            ),
            final(self).table_count() + old(self).fresh_leaves(frames, pages, space) == old(
                self,
            ).table_count() + old(self).frames_needed(frames, pages, space),
            old(self).tight() && pages.count() > 0 && solid(space, frames, pages, flags)
                ==> final(self).tight(),
            Self::grows(
                *old(self),
                *final(self),
                flags,
                old(allocator)@.skip(final(allocator)@.len() as int),
            ),
    {
        self.map_range(allocator, frames, pages, space, flags);
    }

    /// Unmaps `pages`. The frame of each used leaf in the range goes back to
    /// the allocator, whoever brought it, and so does each table that the
    /// walk finds empty afterwards. Pages that are not mapped are passed
    /// over.
    pub fn unmap(&mut self, allocator: &mut FrameAllocator, pages: PageRange)
        requires
            old(self).wf(),
            old(allocator).wf(),
        ensures
            final(self).wf(),
            final(self).root_address() == old(self).root_address(),
            final(allocator).wf(),
            final(allocator).limit() == old(allocator).limit(),
            Self::unmaps(*old(self), *final(self), pages),
            final(allocator)@.len() >= old(allocator)@.len(),
            final(allocator)@.take(old(allocator)@.len() as int) == old(allocator)@,
            final(allocator)@.len() + final(self).table_count() == old(allocator)@.len() + old(
                self,
            ).table_count() + frames_held(
                old(self)@,
                old(self).first_slot(pages),
                old(self).covered(pages),
            ),
            old(self).tight() ==> final(self).tight(),
            Self::shrinks(
                *old(self),
                *final(self),
                final(allocator)@.skip(old(allocator)@.len() as int),
            ),
            Self::gives_back(
                *old(self),
                pages,
                final(allocator)@.skip(old(allocator)@.len() as int),
            ),
    {
        let depth = self.depth;
        let ghost before = *self;
        proof {
            lemma_slot_parts(pages.start.number(), depth as nat);
            before.lemma_released_view(before.first_slot(pages), before.covered(pages));
        }
        let ghost stack = allocator@;
        let count = unmap_in_table(&mut self.root, pages, depth, allocator);
        proof {
            reveal(unmapped_leaves);
            reveal(shrunk);
            reveal(gave_back);
            lemma_span_positive(depth as nat);
            let pushed = allocator@.skip(stack.len() as int);
            assert(Self::unmaps(before, *self, pages));
            assert(Self::shrinks(before, *self, pushed));
            assert forall|t: int|
                before.first_slot(pages) <= t < before.first_slot(pages) + before.covered(pages)
                    && entry_frame(#[trigger] before@[t]) != 0 implies pushed.contains(
                entry_frame(before@[t]),
            ) by {
                let d = t - before.first_slot(pages);
                assert(before@[t] == before.root.leaf(depth as nat, before.first_slot(pages) + d));
            }
        }
    }

    /// Gives the frames of all tables of the space back to the allocator.
    /// Frames that leaves point to stay out.
    pub fn drop(self, allocator: &mut FrameAllocator)
        requires
            self.wf(),
            old(allocator).wf(),
        ensures
            final(allocator).wf(),
            final(allocator).limit() == old(allocator).limit(),
            final(allocator)@.len() == old(allocator)@.len() + self.table_count(),
            final(allocator)@.take(old(allocator)@.len() as int) == old(allocator)@,
            self.tables_among(final(allocator)@.skip(old(allocator)@.len() as int)),
    {
        drop_table(&self.root, self.root_frame, self.depth, allocator);
        proof {
            reveal(among);
            lemma_span_positive(self.depth as nat);
            if self.depth > 1 {
                assert(span(self.depth as nat) == span((self.depth - 1) as nat) * 512);
            }
        }
    }
}

/// Number of frames that making the kernel's space for a memory of `limit`
/// bytes takes from the allocator: one for the root table and one for each
/// table on the way to the leaves of the pages below `limit`.
pub open spec fn bootstrap_frames(limit: u64) -> nat {
    1 + blank_need(4, 0, limit as int / 4096, false)
}

/// Making the kernel's space for a memory of up to 1 GiB takes a frame for
/// the root, one for each of the two tables above level 1 and one for each
/// 2 MiB of memory, begun ones counted.
pub proof fn lemma_bootstrap_frames(limit: u64)
    requires
        4096 <= limit <= 0x4000_0000,
    ensures
        bootstrap_frames(limit) == 3 + (limit as int / 4096 + 511) / 512,
{
    lemma_span_values();
    lemma_blank_need_within_second_level(4, 0, limit as int / 4096, false);
}

/// Number of frames that making the kernel's space for the allocator's
/// memory would take from the allocator.
pub fn frames_to_bootstrap(allocator: &FrameAllocator) -> (need: u64)
    requires
        allocator.wf(),
    ensures
        need == bootstrap_frames(allocator.limit()),
{
    let limit = allocator.phys_limit().start_address();
    let range = PageRange {
        start: Page::containing_address(0),
        end: Page::containing_address(limit),
    };
    proof {
        crate::mapping::lemma_need_bound_values();
        lemma_span_values();
        lemma_needed_blank(
            Seq::new(512, |j: int| None::<Box<Node>>),
            4,
            0,
            0,
            limit as int / 4096,
            false,
        );
    }
    let under: u64 = needed_in_table(None, range, false, 4);
    1 + under
}

/// Makes an address space. Where no kernel space exists yet, the new space
/// is the kernel's: four levels, with every page below the allocator's limit
/// mapped to the frame of its own address, present and writable. Where the
/// kernel's space exists, the new space is a copy of it.
pub fn create_address_space(kernel: Option<&AddressSpace>, allocator: &mut FrameAllocator) -> (space:
    AddressSpace)
    requires
        old(allocator).wf(),
        kernel is Some ==> kernel->0.wf() && old(allocator)@.len() >= kernel->0.table_count(),
        kernel is None ==> old(allocator)@.len() >= bootstrap_frames(old(allocator).limit()),
    ensures
        space.wf(),
        final(allocator).wf(),
        final(allocator).limit() == old(allocator).limit(),
        space.root_address() == old(allocator)@.last(),
        kernel is Some ==> {
            &&& space.levels() == kernel->0.levels()
            &&& space@ == kernel->0@
            &&& AddressSpace::copies(*kernel->0, space)
            &&& space.tables_among(old(allocator)@.skip(final(allocator)@.len() as int))
            &&& space.table_count() == kernel->0.table_count()
            &&& kernel->0.tight() ==> space.tight()
            &&& final(allocator)@ == old(allocator)@.take(
                old(allocator)@.len() - kernel->0.table_count(),
            )
        },
        kernel is None ==> {
            &&& space.levels() == 4
            &&& space@.len() == span(4)
            &&& forall|t: int|
                0 <= t < span(4) ==> #[trigger] space@[t] == if t < old(allocator).limit() / 4096 {
                    entry_of((4096 * t) as u64, (PRESENT | WRITABLE) as u64)
                } else {
                    0
                }
            &&& forall|level: nat, t: int|
                2 <= level <= 4 && 0 <= t < span(4) ==> {
                    let e = #[trigger] space.table_entry(level, t);
                    e == 0 || (entry_bits(e) == (PRESENT | WRITABLE) as u64 && entry_frame(e) != 0)
                }
            &&& space.tables_among(old(allocator)@.skip(final(allocator)@.len() as int))
            &&& space.table_count() == bootstrap_frames(old(allocator).limit())
            &&& final(allocator)@ == old(allocator)@.take(
                old(allocator)@.len() - bootstrap_frames(old(allocator).limit()),
            )
        },
{
    match kernel {
        Some(kernel_space) => AddressSpace::from_other(kernel_space, allocator),
        None => {
            let ghost stack = allocator@;
            let ghost limit = allocator.limit();
            let mut address_space = AddressSpace::blank(4, allocator);
            let max_phys_addr: u64 = allocator.phys_limit().start_address();
            let range = PageRange {
                start: Page::containing_address(0),
                end: Page::containing_address(max_phys_addr),
            };
            let flags = PageTableFlags::from_bits_truncate(PRESENT | WRITABLE);
            let frames = PhysFrameRange { start: PhysFrame::zero(), end: PhysFrame::zero() };
            let ghost before = address_space;
            proof {
                lemma_span_values();
                lemma_needed_blank(address_space.root.children@, 4, 0, 0, limit as int / 4096, false);
                assert(3u64 & crate::units::FLAG_MASK == 3u64) by (bit_vector);
                assert(1u64 | 2u64 == 3u64) by (bit_vector);
                assert(address_space.root.children@ =~= Seq::new(
                    512,
                    |j: int| None::<Box<Node>>,
                ));
                assert(slot(0, 4) == 0);
                assert(before.covered(range) <= limit / 4096);
            }
            address_space.map_range(allocator, frames, range, MemorySpace::Kernel, flags);
            proof {
                assert(allocator@ =~= stack.take(stack.len() - bootstrap_frames(limit)));
                let (pos, tabs) = choose|pos: Seq<int>, tabs: Seq<int>| #[trigger]
                    apart(tabs, pos) && AddressSpace::maps(
                        before,
                        address_space,
                        frames,
                        range,
                        MemorySpace::Kernel,
                        flags,
                        stack.drop_last(),
                        pos,
                    );
                assert forall|t: int| 0 <= t < span(4) implies #[trigger] address_space@[t] == if t
                    < limit / 4096 {
                    entry_of((4096 * t) as u64, (PRESENT | WRITABLE) as u64)
                } else {
                    0
                } by {
                    assert(before@[t] == 0);
                }
                let low = allocator@.len() as int;
                let taken = stack.skip(low);
                assert(stack.take(stack.len() - 1) =~= stack.drop_last());
                lemma_pushed_stays(stack.drop_last(), stack, low, low);
                assert forall|level: nat, t: int| 2 <= level <= 4 && 0 <= t < span(4) implies {
                    let e = #[trigger] address_space.table_entry(level, t);
                    (e == 0 || (entry_bits(e) == (PRESENT | WRITABLE) as u64 && entry_frame(e)
                        != 0)) && (e != 0 ==> taken.contains(entry_frame(e)))
                } by {
                    let e = address_space.table_entry(level, t);
                    assert(before.table_entry(level, t) == 0);
                    if e != 0 {
                        assert(stack.drop_last().skip(low).contains(entry_frame(e)));
                    }
                }
                assert(taken[stack.len() - 1 - low] == stack.last());
                assert(address_space.tables_among(taken));
            }
            address_space
        },
    }
}

} // verus!
