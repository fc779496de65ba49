//! Virtual-memory core of an x86_64 kernel: address spaces as trees of page
//! tables, with mapping, unmapping, translation, copying and teardown, and
//! memory areas as labelled page ranges.
//!
//! An [`AddressSpace`] owns its tree. Its view is the leaf level laid out
//! flat, one raw entry per page slot; every operation says what it does to
//! that view, to the entries that point to tables, and to the stack of the
//! [`FrameAllocator`] that it draws frames from. Each page table is a
//! `PageTable` of the `x86_64` crate, read and written through the functions
//! of [`hw`].

pub mod copying;
pub mod entry;
pub mod frames;
pub mod growth;
pub mod hw;
pub mod layout;
pub mod mapping;
pub mod need;
pub mod shape;
pub mod space;
pub mod tree;
pub mod units;
pub mod unmapping;
pub mod vma;
pub mod walk;

pub use frames::FrameAllocator;
pub use space::{create_address_space, frames_to_bootstrap, AddressSpace};
pub use units::{
    MemorySpace, Page, PageRange, PageTableFlags, PhysFrame, PhysFrameRange, PAGE_SIZE, PRESENT,
    USER_ACCESSIBLE, WRITABLE,
};
pub use vma::{VirtualMemoryArea, VmaError, VmaType};
