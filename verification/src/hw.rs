//! The hardware page table and the operations on its entries.

use vstd::prelude::*;
use x86_64::structures::paging::{PageTable, PageTableFlags};
use x86_64::PhysAddr;
use crate::units::{ADDR_MASK, FLAG_MASK};

verus! {

/// `x86_64::structures::paging::PageTable`, taken as it is: nothing of its
/// inside is known here but through the functions below.
#[verifier::external_type_specification]
#[verifier::external_body]
pub struct ExPageTable(PageTable);

/// The 512 raw entries of a `PageTable`, in index order: what the hardware
/// reads from the table's frame.
pub uninterp spec fn table_entries(table: PageTable) -> Seq<u64>;

/// `PageTable::new`: a table of 512 entries, all zero.
#[verifier::external_body]
pub(crate) fn table_new() -> (table: Box<PageTable>)
    ensures
        table_entries(*table) == Seq::new(512, |i: int| 0u64),
{
    Box::new(PageTable::new())
}

/// `PageTableEntry::is_unused` on the entry at `index`: whether the entry is zero.
#[verifier::external_body]
pub(crate) fn entry_is_unused(table: &PageTable, index: usize) -> (unused: bool)
    requires
        index < 512,
    ensures
        unused == (table_entries(*table)[index as int] == 0),
{
    table[index].is_unused()
}

/// `PageTableEntry::addr` on the entry at `index`: the entry's address bits.
#[verifier::external_body]
pub(crate) fn entry_addr(table: &PageTable, index: usize) -> (addr: u64)
    requires
        index < 512,
    ensures
        addr == table_entries(*table)[index as int] & ADDR_MASK,
{
    table[index].addr().as_u64()
}

/// `PageTableEntry::flags` on the entry at `index`: the entry's flag bits.
#[verifier::external_body]
pub(crate) fn entry_flags(table: &PageTable, index: usize) -> (flags: u64)
    requires
        index < 512,
    ensures
        flags == table_entries(*table)[index as int] & FLAG_MASK,
{
    table[index].flags().bits()
}

/// `PageTableEntry::set_addr` on the entry at `index`: the entry becomes the
/// address combined with the flag bits of `flags`; the other entries stay.
/// The address must be page-aligned and below 2^52.
#[verifier::external_body]
pub(crate) fn entry_set_addr(table: &mut PageTable, index: usize, addr: u64, flags: u64)
    requires
        index < 512,
        addr & ADDR_MASK == addr,
    ensures
        table_entries(*final(table)) == table_entries(*old(table)).update(
            index as int,
            addr | (flags & FLAG_MASK),
        ),
{
    table[index].set_addr(PhysAddr::new(addr), PageTableFlags::from_bits_truncate(flags));
}

/// `PageTableEntry::set_unused` on the entry at `index`: the entry becomes
/// zero; the other entries stay.
#[verifier::external_body]
pub(crate) fn entry_set_unused(table: &mut PageTable, index: usize)
    requires
        index < 512,
    ensures
        table_entries(*final(table)) == table_entries(*old(table)).update(index as int, 0u64),
{
    table[index].set_unused();
}

} // verus!
