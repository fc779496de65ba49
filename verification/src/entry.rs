//! The layout of a page-table entry: a frame address and flag bits.

use vstd::prelude::*;
use crate::units::{ADDR_MASK, FLAG_MASK, PHYS_ADDR_END};

verus! {

/// The entry that points to the frame at `frame` with the flag bits `bits`.
pub open spec fn entry_of(frame: u64, bits: u64) -> u64 {
    frame | bits
}

/// The frame address that an entry holds.
pub open spec fn entry_frame(entry: u64) -> u64 {
    entry & ADDR_MASK
}

/// The flag bits that an entry holds.
pub open spec fn entry_bits(entry: u64) -> u64 {
    entry & FLAG_MASK
}

/// What the walk returns for the address `addr` when it ends at the leaf
/// entry `entry`: nothing for an unused entry, else the entry's frame
/// address plus the offset of `addr` in its page.
pub open spec fn translation_of(entry: u64, addr: u64) -> Option<u64> {
    if entry == 0 {
        None
    } else {
        Some((entry_frame(entry) + addr % 4096) as u64)
    }
}

/// A frame address has address bits only.
pub proof fn lemma_frame_is_address(frame: u64)
    requires
        frame % 4096 == 0,
        frame < PHYS_ADDR_END,
    ensures
        frame & ADDR_MASK == frame,
{
    assert(frame % 4096 == 0 && frame < 0x10_0000_0000_0000 ==> frame & 0x000f_ffff_ffff_f000
        == frame) by (bit_vector);
}

/// The frame address of an entry is a frame address.
pub proof fn lemma_entry_frame_is_frame(entry: u64)
    ensures
        entry_frame(entry) % 4096 == 0,
        entry_frame(entry) < PHYS_ADDR_END,
        entry_frame(entry) != 0 ==> entry != 0,
{
    assert((entry & 0x000f_ffff_ffff_f000) % 4096 == 0 && (entry & 0x000f_ffff_ffff_f000)
        < 0x10_0000_0000_0000 && ((entry & 0x000f_ffff_ffff_f000) != 0 ==> entry != 0))
        by (bit_vector);
}

/// An entry made of a frame address and flag bits gives both back, and is
/// unused only if both are zero.
pub proof fn lemma_entry_parts(frame: u64, bits: u64)
    requires
        frame & ADDR_MASK == frame,
        bits & FLAG_MASK == bits,
    ensures
        entry_frame(entry_of(frame, bits)) == frame,
        entry_bits(entry_of(frame, bits)) == bits,
        entry_of(frame, bits) == 0 <==> frame == 0 && bits == 0,
{
    assert(frame & 0x000f_ffff_ffff_f000 == frame && bits & 0xfff0_0000_0000_0fff == bits ==> (
    frame | bits) & 0x000f_ffff_ffff_f000 == frame && (frame | bits) & 0xfff0_0000_0000_0fff
        == bits && ((frame | bits) == 0 <==> frame == 0 && bits == 0)) by (bit_vector);
}

/// An entry is the frame address and the flag bits that it holds.
pub proof fn lemma_entry_whole(entry: u64)
    ensures
        entry_of(entry_frame(entry), entry_bits(entry)) == entry,
        entry_frame(entry) & ADDR_MASK == entry_frame(entry),
        entry_bits(entry) & FLAG_MASK == entry_bits(entry),
{
    assert(((entry & 0x000f_ffff_ffff_f000) | (entry & 0xfff0_0000_0000_0fff)) == entry && (entry
        & 0x000f_ffff_ffff_f000) & 0x000f_ffff_ffff_f000 == (entry & 0x000f_ffff_ffff_f000) && (
    entry & 0xfff0_0000_0000_0fff) & 0xfff0_0000_0000_0fff == (entry & 0xfff0_0000_0000_0fff))
        by (bit_vector);
}

} // verus!
