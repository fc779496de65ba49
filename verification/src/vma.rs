//! Virtual memory areas: a range of pages with a label.

use vstd::prelude::*;
use crate::units::{Page, PageRange};

verus! {

/// What an area of virtual memory is used for.
#[derive(Clone, Copy, Debug, PartialEq, Eq, Structural)]
pub enum VmaType {
    Code,
    Heap,
    Stack,
}

/// Why an area could not be made.
#[derive(Clone, Copy, Debug, PartialEq, Eq, Structural)]
pub enum VmaError {
    /// The start address is no multiple of the page size.
    Misaligned,
}

/// A range of pages and what it is used for.
#[derive(Clone, Copy, Debug)]
pub struct VirtualMemoryArea {
    range: PageRange,
    typ: VmaType,
}

impl View for VirtualMemoryArea {
    type V = (PageRange, VmaType);

    closed spec fn view(&self) -> (PageRange, VmaType) {
        (self.range, self.typ)
    }
}

impl VirtualMemoryArea {
    /// Whether the area holds the page with number `page`.
    pub open spec fn holds(&self, page: int) -> bool {
        self@.0.start.number() <= page < self@.0.end.number()
    }

    /// What `overlaps_with` returns: each area ends after the other starts.
    pub open spec fn overlaps(&self, other: &VirtualMemoryArea) -> bool {
        self@.0.end.addr() > other@.0.start.addr() && other@.0.end.addr() > self@.0.start.addr()
    }

    /// The area of `range` with the label `typ`.
    pub fn new(range: PageRange, typ: VmaType) -> (area: VirtualMemoryArea)
        ensures
            area@ == (range, typ),
    {
        VirtualMemoryArea { range, typ }
    }

    /// The area of `size / 4096` pages from the address `start` on. Fails
    /// where `start` is no multiple of the page size.
    pub fn from_address(start: u64, size: usize, typ: VmaType) -> (area: Result<
        VirtualMemoryArea,
        VmaError,
    >)
        requires
            start % 4096 == 0 ==> start + 4096 * (size as int / 4096) <= u64::MAX,
        ensures
            area is Ok <==> start % 4096 == 0,
            area is Err ==> area->Err_0 == VmaError::Misaligned,
            area is Ok ==> {
                &&& area->Ok_0@.0.start.addr() == start
                &&& area->Ok_0@.0.end.addr() == start + 4096 * (size as int / 4096)
                &&& area->Ok_0@.1 == typ
            },
    {
        match Page::from_start_address(start) {
            Some(start_page) => {
                let pages: u64 = (size / 4096) as u64;
                let range = PageRange { start: start_page, end: start_page.plus(pages) };
                Ok(VirtualMemoryArea { range, typ })
            },
            None => Err(VmaError::Misaligned),
        }
    }

    /// Address of the first page.
    pub fn start(&self) -> (addr: u64)
        ensures
            addr == self@.0.start.addr(),
    {
        self.range.start.start_address()
    }

    /// Address of the page after the last.
    pub fn end(&self) -> (addr: u64)
        ensures
            addr == self@.0.end.addr(),
    {
        self.range.end.start_address()
    }

    /// The pages of the area.
    pub fn range(&self) -> (range: PageRange)
        ensures
            range == self@.0,
    {
        self.range
    }

    /// The label of the area.
    pub fn typ(&self) -> (typ: VmaType)
        ensures
            typ == self@.1,
    {
        self.typ
    }

    /// Whether the two areas overlap.
    pub fn overlaps_with(&self, other: &VirtualMemoryArea) -> (overlap: bool)
        ensures
            overlap == self.overlaps(other),
    {
        if self.range.end.start_address() <= other.range.start.start_address()
            || self.range.start.start_address() >= other.range.end.start_address() {
            false
        } else {
            true
        }
    }

    /// Two areas that both hold a page overlap exactly if some page lies in
    /// both.
    pub proof fn lemma_overlap_is_intersection(&self, other: &VirtualMemoryArea)
        requires
            self@.0.valid(),
            other@.0.valid(),
            self@.0.count() > 0,
            other@.0.count() > 0,
        ensures
            self.overlaps(other) <==> exists|page: int| self.holds(page) && other.holds(page),
    {
        self@.0.start.lemma_aligned();
        self@.0.end.lemma_aligned();
        other@.0.start.lemma_aligned();
        other@.0.end.lemma_aligned();
        if self.overlaps(other) {
            let page = if self@.0.start.number() >= other@.0.start.number() {
                self@.0.start.number()
            } else {
                other@.0.start.number()
            };
            assert(self.holds(page) && other.holds(page));
        }
    }
}

} // verus!
