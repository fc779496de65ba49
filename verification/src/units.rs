//! Pages, frames, ranges of both, and entry flags.

use vstd::prelude::*;

verus! {

/// Size of a page and of a frame in bytes.
pub const PAGE_SIZE: u64 = 4096;

/// First address that is no physical address: physical addresses have 52 bits.
pub const PHYS_ADDR_END: u64 = 0x10_0000_0000_0000;

/// Bits of a page-table entry that hold the physical address.
pub const ADDR_MASK: u64 = 0x000f_ffff_ffff_f000;

/// Bits of a page-table entry that hold flags.
pub const FLAG_MASK: u64 = 0xfff0_0000_0000_0fff;

/// The mapped frame or table is present.
pub const PRESENT: u64 = 1;

/// Writes through the mapping are allowed.
pub const WRITABLE: u64 = 2;

/// Accesses from user mode are allowed.
pub const USER_ACCESSIBLE: u64 = 4;

/// Which backing policy a mapping request uses at the leaf level.
#[derive(Clone, Copy, Debug, PartialEq, Eq, Structural)]
pub enum MemorySpace {
    /// Every page is backed by the frame with the page's own address.
    Kernel,
    /// Every page is backed by a frame taken from the frame allocator, or by
    /// a frame the caller supplies.
    User,
}

/// A 4 KiB virtual page, named by its base address.
#[derive(Clone, Copy, Debug, PartialEq, Eq, Structural)]
pub struct Page {
    base: u64,
}

impl Page {
    #[verifier::type_invariant]
    pub closed spec fn aligned(self) -> bool {
        self.base % 4096 == 0
    }

    /// Base address of the page.
    pub closed spec fn addr(self) -> u64 {
        self.base
    }

    /// Number of the page: its base address in units of pages.
    pub open spec fn number(self) -> int {
        self.addr() as int / 4096
    }

    /// The base address of a page is a multiple of the page size.
    pub proof fn lemma_aligned(self)
        requires
            self.aligned(),
        ensures
            self.addr() % 4096 == 0,
            self.addr() == 4096 * self.number(),
    {
    }

    /// The page that starts at `addr`, if `addr` is a multiple of the page size.
    pub fn from_start_address(addr: u64) -> (page: Option<Page>)
        ensures
            page is Some <==> addr % 4096 == 0,
            page is Some ==> page->0.addr() == addr,
    {
        if addr % PAGE_SIZE == 0 {
            Some(Page { base: addr })
        } else {
            None
        }
    }

    /// The page that holds `addr`.
    pub fn containing_address(addr: u64) -> (page: Page)
        ensures
            page.addr() == addr - addr % 4096,
            page.number() == addr as int / 4096,
    {
        Page { base: addr - addr % PAGE_SIZE }
    }

    /// Base address of the page.
    pub fn start_address(&self) -> (addr: u64)
        ensures
            addr == self.addr(),
            addr % 4096 == 0,
    {
        proof {
            use_type_invariant(self);
        }
        self.base
    }

    /// The page `count` pages after this one.
    pub fn plus(self, count: u64) -> (page: Page)
        requires
            self.addr() + 4096 * count <= u64::MAX,
        ensures
            page.addr() == self.addr() + 4096 * count,
            page.number() == self.number() + count,
    {
        proof {
            use_type_invariant(self);
        }
        Page { base: self.base + PAGE_SIZE * count }
    }
}

/// Pages from `start` up to, not including, `end`; empty when `start >= end`.
#[derive(Clone, Copy, Debug, PartialEq, Eq, Structural)]
pub struct PageRange {
    pub start: Page,
    pub end: Page,
}

impl PageRange {
    /// Both ends are pages.
    pub open spec fn valid(self) -> bool {
        self.start.aligned() && self.end.aligned()
    }

    /// Number of pages in the range.
    pub open spec fn count(self) -> int {
        if self.start.number() < self.end.number() {
            self.end.number() - self.start.number()
        } else {
            0
        }
    }

    /// Number of pages in the range.
    pub fn len(&self) -> (n: u64)
        ensures
            n == self.count(),
    {
        let start: u64 = self.start.start_address();
        let end: u64 = self.end.start_address();
        if start < end {
            (end - start) / PAGE_SIZE
        } else {
            0
        }
    }

    /// Whether the range holds no page.
    pub fn is_empty(&self) -> (empty: bool)
        ensures
            empty <==> self.count() == 0,
    {
        self.start.start_address() >= self.end.start_address()
    }
}

/// A 4 KiB physical frame, named by its base address.
#[derive(Clone, Copy, Debug, PartialEq, Eq, Structural)]
pub struct PhysFrame {
    base: u64,
}

impl PhysFrame {
    #[verifier::type_invariant]
    pub closed spec fn valid(self) -> bool {
        self.base % 4096 == 0 && self.base < PHYS_ADDR_END
    }

    /// Base address of the frame.
    pub closed spec fn addr(self) -> u64 {
        self.base
    }

    /// Number of the frame: its base address in units of frames.
    pub open spec fn number(self) -> int {
        self.addr() as int / 4096
    }

    /// The base address of a frame is a multiple of the frame size and a
    /// physical address.
    pub proof fn lemma_valid(self)
        requires
            self.valid(),
        ensures
            self.addr() % 4096 == 0,
            self.addr() < PHYS_ADDR_END,
            self.addr() == 4096 * self.number(),
    {
    }

    /// The frame at address zero.
    pub closed spec fn null() -> PhysFrame {
        PhysFrame { base: 0 }
    }

    /// The frame at address zero.
    pub fn zero() -> (frame: PhysFrame)
        ensures
            frame == Self::null(),
            frame.addr() == 0,
    {
        PhysFrame { base: 0 }
    }

    /// The frame that starts at `addr`, if `addr` is a multiple of the frame
    /// size and a physical address.
    pub fn from_start_address(addr: u64) -> (frame: Option<PhysFrame>)
        ensures
            frame is Some <==> addr % 4096 == 0 && addr < PHYS_ADDR_END,
            frame is Some ==> frame->0.addr() == addr,
    {
        if addr % PAGE_SIZE == 0 && addr < PHYS_ADDR_END {
            Some(PhysFrame { base: addr })
        } else {
            None
        }
    }

    /// Base address of the frame.
    pub fn start_address(&self) -> (addr: u64)
        ensures
            addr == self.addr(),
            addr % 4096 == 0,
            addr < PHYS_ADDR_END,
    {
        proof {
            use_type_invariant(self);
        }
        self.base
    }

    /// The frame `count` frames after this one.
    pub fn plus(self, count: u64) -> (frame: PhysFrame)
        requires
            self.addr() + 4096 * count < PHYS_ADDR_END,
        ensures
            frame.addr() == self.addr() + 4096 * count,
            frame.number() == self.number() + count,
    {
        proof {
            use_type_invariant(self);
        }
        PhysFrame { base: self.base + PAGE_SIZE * count }
    }
}

/// Frames from `start` up to, not including, `end`; empty when `start >= end`.
#[derive(Clone, Copy, Debug, PartialEq, Eq, Structural)]
pub struct PhysFrameRange {
    pub start: PhysFrame,
    pub end: PhysFrame,
}

impl PhysFrameRange {
    /// The range without frames that starts and ends at frame zero.
    pub open spec fn none() -> PhysFrameRange {
        PhysFrameRange { start: PhysFrame::null(), end: PhysFrame::null() }
    }

    /// Both ends are frames.
    pub open spec fn valid(self) -> bool {
        self.start.valid() && self.end.valid()
    }

    /// Number of frames in the range.
    pub open spec fn count(self) -> int {
        if self.start.number() < self.end.number() {
            self.end.number() - self.start.number()
        } else {
            0
        }
    }

    /// Number of frames in the range.
    pub fn len(&self) -> (n: u64)
        ensures
            n == self.count(),
    {
        let start: u64 = self.start.start_address();
        let end: u64 = self.end.start_address();
        if start < end {
            (end - start) / PAGE_SIZE
        } else {
            0
        }
    }
}

/// Flag bits of a page-table entry. Holds no address bit.
#[derive(Clone, Copy, Debug, PartialEq, Eq, Structural)]
pub struct PageTableFlags {
    bits: u64,
}

impl PageTableFlags {
    #[verifier::type_invariant]
    pub closed spec fn only_flags(self) -> bool {
        self.bits & FLAG_MASK == self.bits
    }

    /// The flag bits as a number.
    pub closed spec fn value(self) -> u64 {
        self.bits
    }

    /// Flags hold flag bits only.
    pub proof fn lemma_only_flags(self)
        requires
            self.only_flags(),
        ensures
            self.value() & FLAG_MASK == self.value(),
    {
    }

    /// No flag set.
    pub fn empty() -> (flags: PageTableFlags)
        ensures
            flags.value() == 0,
    {
        assert(0u64 & FLAG_MASK == 0u64) by (bit_vector);
        PageTableFlags { bits: 0 }
    }

    /// The flags among `bits`; address bits are dropped.
    pub fn from_bits_truncate(bits: u64) -> (flags: PageTableFlags)
        ensures
            flags.value() == bits & FLAG_MASK,
    {
        let kept: u64 = bits & FLAG_MASK;
        assert((bits & FLAG_MASK) & FLAG_MASK == bits & FLAG_MASK) by (bit_vector);
        PageTableFlags { bits: kept }
    }

    /// The flag bits as a number.
    pub fn bits(&self) -> (bits: u64)
        ensures
            bits == self.value(),
            bits & FLAG_MASK == bits,
    {
        proof {
            use_type_invariant(self);
        }
        self.bits
    }

    /// The flags set in `self` or in `other`.
    pub fn union(self, other: PageTableFlags) -> (flags: PageTableFlags)
        ensures
            flags.value() == self.value() | other.value(),
    {
        proof {
            use_type_invariant(self);
            use_type_invariant(other);
        }
        let a: u64 = self.bits;
        let b: u64 = other.bits;
        assert((a | b) & FLAG_MASK == (a | b)) by (bit_vector)
            requires
                a & FLAG_MASK == a,
                b & FLAG_MASK == b,
        ;
        PageTableFlags { bits: a | b }
    }

    /// Whether every flag of `other` is set in `self`.
    pub fn contains(&self, other: PageTableFlags) -> (all: bool)
        ensures
            all <==> self.value() & other.value() == other.value(),
    {
        self.bits & other.bits == other.bits
    }
}

} // verus!
