//! How a page number splits into table indices, level by level.
//!
//! A table of level `L` spans `512^L` pages. Within the span of a table, a
//! page is named by its slot: the page number modulo the span.

use vstd::prelude::*;
use vstd::arithmetic::div_mod::{
    lemma_breakdown,
    lemma_fundamental_div_mod,
    lemma_fundamental_div_mod_converse,
    lemma_mod_bound,
    lemma_mod_mod,
};
use vstd::arithmetic::mul::lemma_mul_is_commutative;

verus! {

/// Number of pages that one table of level `level` spans; 1 at level 0.
pub open spec fn span(level: nat) -> int
    decreases level,
{
    if level == 0 {
        1
    } else {
        512 * span((level - 1) as nat)
    }
}

/// Index into a table of level `level` for the page with number `number`:
/// nine bits of the number, the lowest nine at level 1.
pub open spec fn table_index(number: int, level: nat) -> int {
    (number / span((level - 1) as nat)) % 512
}

/// Slot of the page with number `number` within a table of level `level`.
pub open spec fn slot(number: int, level: nat) -> int {
    number % span(level)
}

/// The spans of the levels up to five.
pub proof fn lemma_span_values()
    ensures
        span(0) == 1,
        span(1) == 0x200,
        span(2) == 0x4_0000,
        span(3) == 0x800_0000,
        span(4) == 0x10_0000_0000,
        span(5) == 0x2000_0000_0000,
{
    reveal_with_fuel(span, 6);
}

/// Every span is positive.
pub proof fn lemma_span_positive(level: nat)
    ensures
        span(level) > 0,
    decreases level,
{
    if level > 0 {
        lemma_span_positive((level - 1) as nat);
    }
}

/// A quotient is `q` exactly for the numbers from `d * q` up to `d * q + d`.
pub proof fn lemma_div_range(x: int, d: int, q: int)
    requires
        d > 0,
    ensures
        x / d == q <==> d * q <= x < d * q + d,
        x / d == q ==> x % d == x - d * q,
{
    lemma_fundamental_div_mod(x, d);
    lemma_mod_bound(x, d);
    lemma_mul_is_commutative(d, q);
    if d * q <= x < d * q + d {
        lemma_fundamental_div_mod_converse(x, d, q, x - d * q);
    }
}

/// A remainder moves with the number as long as it stays below the modulus.
pub proof fn lemma_mod_advance(x: int, m: int, c: int)
    requires
        m > 0,
        0 <= c,
        x % m + c < m,
    ensures
        (x + c) % m == x % m + c,
{
    lemma_fundamental_div_mod(x, m);
    lemma_mod_bound(x, m);
    lemma_mul_is_commutative(m, x / m);
    lemma_fundamental_div_mod_converse(x + c, m, x / m, x % m + c);
}

/// The slot at level `level` splits into the index at that level and the
/// slot one level down.
pub proof fn lemma_slot_parts(number: int, level: nat)
    requires
        level >= 1,
        number >= 0,
    ensures
        0 <= slot(number, level) < span(level),
        0 <= table_index(number, level) < 512,
        slot(number, level) / span((level - 1) as nat) == table_index(number, level),
        slot(number, level) % span((level - 1) as nat) == slot(number, (level - 1) as nat),
        slot(number, level) == span((level - 1) as nat) * table_index(number, level) + slot(
            number,
            (level - 1) as nat,
        ),
{
    let below = span((level - 1) as nat);
    lemma_span_positive((level - 1) as nat);
    lemma_span_positive(level);
    lemma_mul_is_commutative(below, 512);
    lemma_mod_bound(number, span(level));
    lemma_mod_bound(number / below, 512);
    lemma_mod_bound(number, below);
    lemma_breakdown(number, below, 512);
    lemma_mod_mod(number, below, 512);
    let s = slot(number, level);
    lemma_mul_is_commutative(below, table_index(number, level));
    lemma_fundamental_div_mod_converse(s, below, table_index(number, level), number % below);
}

/// Number of pages that one table of level `level` spans.
pub fn span_of(level: usize) -> (pages: u64)
    requires
        level <= 5,
    ensures
        pages == span(level as nat),
        pages > 0,
{
    proof {
        lemma_span_values();
    }
    if level == 0 {
        1
    } else if level == 1 {
        0x200
    } else if level == 2 {
        0x4_0000
    } else if level == 3 {
        0x800_0000
    } else if level == 4 {
        0x10_0000_0000
    } else {
        0x2000_0000_0000
    }
}

/// Index into a table of level `level` for the page that holds `addr`.
pub fn page_table_index(addr: u64, level: usize) -> (index: usize)
    requires
        1 <= level <= 5,
    ensures
        index == table_index(addr as int / 4096, level as nat),
        index < 512,
{
    let shift: u64 = ((level - 1) * 9) as u64;
    let shifted: u64 = addr >> 12 >> shift;
    proof {
        lemma_span_values();
        assert(addr >> 12 >> 0 == addr / 4096) by (bit_vector);
        assert(addr >> 12 >> 9 == addr / 4096 / 0x200) by (bit_vector);
        assert(addr >> 12 >> 18 == addr / 4096 / 0x4_0000) by (bit_vector);
        assert(addr >> 12 >> 27 == addr / 4096 / 0x800_0000) by (bit_vector);
        assert(addr >> 12 >> 36 == addr / 4096 / 0x10_0000_0000) by (bit_vector);
    }
    (shifted % 512) as usize
}

} // verus!
