//! The walker that removes mappings, and what it gives back to the allocator.

use vstd::prelude::*;
use crate::entry::{entry_frame, lemma_entry_frame_is_frame};
use crate::frames::FrameAllocator;
use crate::growth::{
    lemma_prefix_stays,
    lemma_pushed_stays,
    lemma_shrunk_more,
    lemma_shrunk_same,
    lemma_shrunk_step,
    lemma_shrunk_twice,
    lemma_within_chain,
    shrunk,
    within,
};
use crate::hw::{entry_addr, entry_is_unused, entry_set_unused};
use crate::layout::{
    lemma_div_range,
    lemma_slot_parts,
    lemma_span_positive,
    lemma_span_values,
    page_table_index,
    slot,
    span,
    span_of,
    table_index,
};
use crate::mapping::lemma_walk_advance;
use crate::tree::{count_from, lemma_count_none, lemma_count_update, Node};
use crate::units::{PageRange, PhysFrame, ADDR_MASK, PAGE_SIZE};
use crate::walk::{is_table_empty, taken};

verus! {

/// Number of leaves among the `count` slots from `first` on that hold a
/// frame other than zero: the leaves whose frame an unmapping gives back.
pub(crate) open spec fn released(node: Node, level: nat, first: int, count: int) -> nat
    decreases count,
{
    if count <= 0 {
        0
    } else {
        released(node, level, first, count - 1) + if entry_frame(
            node.leaf(level, first + count - 1),
        ) != 0 {
            1nat
        } else {
            0nat
        }
    }
}

/// The leaves of `after` are those of `before`, but for the `count` slots
/// from `first` on: these are unused.
#[verifier::opaque]
pub(crate) open spec fn unmapped_leaves(
    before: Node,
    after: Node,
    level: nat,
    first: int,
    count: int,
) -> bool {
    forall|t: int|
        0 <= t < span(level) ==> #[trigger] after.leaf(level, t) == if first <= t < first + count {
            0
        } else {
            before.leaf(level, t)
        }
}

/// The frame of every leaf among the `count` slots from `first` on is among
/// `pushed`, unless it is frame zero.
#[verifier::opaque]
pub(crate) open spec fn gave_back(
    before: Node,
    level: nat,
    first: int,
    count: int,
    pushed: Seq<u64>,
) -> bool {
    forall|d: int|
        0 <= d < count ==> entry_frame(#[trigger] before.leaf(level, first + d)) != 0
            ==> pushed.contains(entry_frame(before.leaf(level, first + d)))
}

/// One step of the walk at a level above 1: the frames that the child at
/// `index` gave back are given back.
pub(crate) proof fn lemma_gave_back_step(
    before: Node,
    level: nat,
    index: int,
    first: int,
    total: int,
    inner: int,
    c: int,
    earlier: Seq<u64>,
    below_pushed: Seq<u64>,
    pushed: Seq<u64>,
)
    requires
        1 < level <= 5,
        0 <= index < 512,
        0 <= total,
        0 <= c,
        0 <= inner,
        inner + c <= span((level - 1) as nat),
        first + total == span((level - 1) as nat) * index + inner,
        gave_back(before, level, first, total, earlier),
        before.children@[index] is Some ==> gave_back(
            *before.children@[index]->0,
            (level - 1) as nat,
            inner,
            c,
            below_pushed,
        ),
        within(earlier, pushed),
        within(below_pushed, pushed),
    ensures
        gave_back(before, level, first, total + c, pushed),
{
    reveal(gave_back);
    let below = span((level - 1) as nat);
    lemma_span_positive((level - 1) as nat);
    assert forall|d: int| 0 <= d < total + c && entry_frame(
        #[trigger] before.leaf(level, first + d),
    ) != 0 implies pushed.contains(entry_frame(before.leaf(level, first + d))) by {
        let frame = entry_frame(before.leaf(level, first + d));
        if d < total {
            assert(earlier.contains(frame));
        } else {
            let r = inner + (d - total);
            lemma_div_range(first + d, below, index);
            assert(0u64 & ADDR_MASK == 0) by (bit_vector);
            if before.children@[index] is Some {
                let child = *before.children@[index]->0;
                assert(before.leaf(level, first + d) == child.leaf((level - 1) as nat, r));
                assert(child.leaf((level - 1) as nat, inner + (d - total)) == before.leaf(
                    level,
                    first + d,
                ));
                assert(below_pushed.contains(frame));
            }
        }
    }
}

/// The released leaves of two ranges that follow each other add up.
pub(crate) proof fn lemma_released_split(node: Node, level: nat, first: int, a: int, b: int)
    requires
        0 <= a,
        0 <= b,
    ensures
        released(node, level, first, a + b) == released(node, level, first, a) + released(
            node,
            level,
            first + a,
            b,
        ),
    decreases b,
{
    if b > 0 {
        lemma_released_split(node, level, first, a, b - 1);
    }
}

/// Two trees with the same leaves in a range release the same number there.
pub(crate) proof fn lemma_released_same(
    x: Node,
    xl: nat,
    xf: int,
    y: Node,
    yl: nat,
    yf: int,
    count: int,
)
    requires
        forall|d: int| 0 <= d < count ==> #[trigger] x.leaf(xl, xf + d) == y.leaf(yl, yf + d),
    ensures
        released(x, xl, xf, count) == released(y, yl, yf, count),
    decreases count,
{
    if count > 0 {
        lemma_released_same(x, xl, xf, y, yl, yf, count - 1);
        assert(x.leaf(xl, xf + (count - 1)) == y.leaf(yl, yf + (count - 1)));
    }
}

/// Where every leaf of a range is unused, nothing is released.
pub(crate) proof fn lemma_released_none(node: Node, level: nat, first: int, count: int)
    requires
        forall|d: int| 0 <= d < count ==> #[trigger] node.leaf(level, first + d) == 0,
    ensures
        released(node, level, first, count) == 0,
    decreases count,
{
    if count > 0 {
        lemma_released_none(node, level, first, count - 1);
        assert(node.leaf(level, first + (count - 1)) == 0);
        assert(0u64 & ADDR_MASK == 0) by (bit_vector);
    }
}

/// A well-formed table without a used entry has no used leaf.
pub(crate) proof fn lemma_unused_leaf(node: Node, level: nat, r: int)
    requires
        node.wf(level),
        !node.used(),
        0 <= r < span(level),
    ensures
        node.leaf(level, r) == 0,
{
    if level > 1 {
        let below = span((level - 1) as nat);
        lemma_span_positive((level - 1) as nat);
        let q = r / below;
        lemma_div_range(r, below, q);
        assert(0 <= q < 512) by (nonlinear_arith)
            requires
                below > 0,
                0 <= r < 512 * below,
                below * q <= r < below * q + below,
        ;
        assert(node.entries()[q] == 0);
        assert(node.children@[q] is None);
    } else {
        assert(span(1) == 512) by {
            lemma_span_values();
        }
        assert(node.entries()[r] == 0);
    }
}

/// A well-formed table without a used entry is one table.
pub(crate) proof fn lemma_unused_count(node: Node, level: nat)
    requires
        node.wf(level),
        !node.used(),
    ensures
        node.count(level) == 1,
{
    if level > 1 {
        assert forall|k: int| 0 <= k < 512 implies (#[trigger] node.children@[k]) is None by {
            assert(node.entries()[k] == 0);
        }
        lemma_count_none(node.children@, (level - 1) as nat, 0);
    }
}

/// One step of the walk at a level above 1: the `c` slots of the child at
/// `index` are unused now, and the leaves of the whole table follow.
pub(crate) proof fn lemma_unmap_step(
    before: Node,
    prev: Node,
    cur: Node,
    level: nat,
    index: int,
    first: int,
    total: int,
    inner: int,
    c: int,
)
    requires
        1 < level <= 5,
        0 <= index < 512,
        0 <= total,
        0 <= c,
        0 <= inner,
        inner + c <= span((level - 1) as nat),
        first + total == span((level - 1) as nat) * index + inner,
        unmapped_leaves(before, prev, level, first, total),
        forall|q: int| 0 <= q < 512 && q != index ==> cur.children@[q] == prev.children@[q],
        forall|r: int|
            0 <= r < span((level - 1) as nat) ==> #[trigger] cur.leaf(
                level,
                span((level - 1) as nat) * index + r,
            ) == if inner <= r < inner + c {
                0
            } else {
                prev.leaf(level, span((level - 1) as nat) * index + r)
            },
    ensures
        unmapped_leaves(before, cur, level, first, total + c),
{
    reveal(unmapped_leaves);
    let below = span((level - 1) as nat);
    lemma_span_positive((level - 1) as nat);
    assert forall|t: int| 0 <= t < span(level) implies #[trigger] cur.leaf(level, t) == if first
        <= t < first + (total + c) {
        0
    } else {
        before.leaf(level, t)
    } by {
        let q = t / below;
        let r = t % below;
        lemma_div_range(t, below, q);
        lemma_div_range(t, below, index);
        assert(0 <= q < 512) by (nonlinear_arith)
            requires
                below > 0,
                0 <= t < 512 * below,
                below * q <= t < below * q + below,
        ;
        if q == index {
            assert(t == below * index + r);
            assert(cur.leaf(level, below * index + r) == if inner <= r < inner + c {
                0
            } else {
                prev.leaf(level, below * index + r)
            });
        } else {
            assert(cur.children@[q] == prev.children@[q]);
            assert(cur.leaf(level, t) == prev.leaf(level, t));
        }
    }
}

/// The leaves released below the child at `index` are those that the child
/// releases in its own slots.
pub(crate) proof fn lemma_released_child(
    parent: Node,
    level: nat,
    index: int,
    inner: int,
    c: int,
)
    requires
        1 < level <= 5,
        0 <= index < 512,
        0 <= inner,
        0 <= c,
        inner + c <= span((level - 1) as nat),
    ensures
        parent.children@[index] is Some ==> released(
            parent,
            level,
            span((level - 1) as nat) * index + inner,
            c,
        ) == released(*parent.children@[index]->0, (level - 1) as nat, inner, c),
        parent.children@[index] is None ==> released(
            parent,
            level,
            span((level - 1) as nat) * index + inner,
            c,
        ) == 0,
{
    let below = span((level - 1) as nat);
    lemma_span_positive((level - 1) as nat);
    let first = below * index + inner;
    if parent.children@[index] is Some {
        let child = *parent.children@[index]->0;
        assert forall|d: int| 0 <= d < c implies #[trigger] parent.leaf(level, first + d)
            == child.leaf((level - 1) as nat, inner + d) by {
            lemma_div_range(first + d, below, index);
        }
        lemma_released_same(parent, level, first, child, (level - 1) as nat, inner, c);
    } else {
        assert forall|d: int| 0 <= d < c implies #[trigger] parent.leaf(level, first + d) == 0 by {
            lemma_div_range(first + d, below, index);
        }
        lemma_released_none(parent, level, first, c);
    }
}

/// Removes the mappings of `pages` from a table of level 1: as many as the
/// range holds, or as lie before the table's end. The frame of each used
/// entry goes back to the allocator.
fn unmap_leaves(table: &mut Node, pages: PageRange, allocator: &mut FrameAllocator) -> (count: u64)
    requires
        old(table).wf(1),
        old(allocator).wf(),
    ensures
        final(table).wf(1),
        final(table).children@ == old(table).children@,
        final(allocator).wf(),
        final(allocator).limit() == old(allocator).limit(),
        count == taken(pages.start.number(), pages.count(), 1),
        final(allocator)@.len() == old(allocator)@.len() + released(
            *old(table),
            1,
            slot(pages.start.number(), 1),
            count as int,
        ),
        final(allocator)@.take(old(allocator)@.len() as int) == old(allocator)@,
        gave_back(
            *old(table),
            1,
            slot(pages.start.number(), 1),
            count as int,
            final(allocator)@.skip(old(allocator)@.len() as int),
        ),
        forall|t: int|
            0 <= t < 512 ==> #[trigger] final(table).entries()[t] == if slot(
                pages.start.number(),
                1,
            ) <= t < slot(pages.start.number(), 1) + count {
                0
            } else {
                old(table).entries()[t]
            },
{
    let start_index: usize = page_table_index(pages.start.start_address(), 1);
    let left: u64 = pages.len();
    let room: u64 = (512 - start_index) as u64;
    let free_count: u64 = if left < room {
        left
    } else {
        room
    };
    let ghost before = *table;
    let ghost stack = allocator@;
    let mut count: u64 = 0;
    proof {
        lemma_span_values();
        lemma_slot_parts(pages.start.number(), 1);
        reveal(gave_back);
    }
    while count < free_count
        invariant
            count <= free_count,
            start_index + free_count <= 512,
            allocator@.len() >= stack.len(),
            gave_back(before, 1, start_index as int, count as int, allocator@.skip(stack.len() as int)),
            start_index == slot(pages.start.number(), 1),
            before == *old(table),
            stack == old(allocator)@,
            table.wf(1),
            table.children@ == before.children@,
            allocator.wf(),
            allocator.limit() == old(allocator).limit(),
            allocator@.len() == stack.len() + released(before, 1, start_index as int, count as int),
            allocator@.take(stack.len() as int) == stack,
            forall|t: int|
                0 <= t < 512 ==> #[trigger] table.entries()[t] == if start_index <= t < start_index
                    + count {
                    0
                } else {
                    before.entries()[t]
                },
        decreases free_count - count,
    {
        let at: usize = start_index + count as usize;
        let ghost entry = before.entries()[at as int];
        assert(table.entries()[at as int] == entry);
        assert(before.leaf(1, start_index + count) == entry);
        proof {
            lemma_entry_frame_is_frame(entry);
            assert(0u64 & ADDR_MASK == 0) by (bit_vector);
        }
        let ghost early = allocator@;
        if !entry_is_unused(&table.table, at) {
            let addr: u64 = entry_addr(&table.table, at);
            let frame = PhysFrame::from_start_address(addr).unwrap();
            let ghost len = allocator@.len() as int;
            allocator.free(frame);
            proof {
                assert(allocator@.take(len) =~= early);
                lemma_prefix_stays(stack, early, allocator@);
                if addr != 0 {
                    assert(allocator@.skip(stack.len() as int)[len - stack.len()] == addr);
                }
            }
            entry_set_unused(&mut table.table, at);
        }
        proof {
            reveal(gave_back);
            assert(allocator@.take(early.len() as int) =~= early);
            lemma_pushed_stays(early, allocator@, stack.len() as int, stack.len() as int);
            let pushed = allocator@.skip(stack.len() as int);
            assert forall|d: int| 0 <= d < count + 1 && entry_frame(
                #[trigger] before.leaf(1, start_index + d),
            ) != 0 implies pushed.contains(entry_frame(before.leaf(1, start_index + d))) by {
                if d < count {
                    assert(early.skip(stack.len() as int).contains(
                        entry_frame(before.leaf(1, start_index + d)),
                    ));
                }
            }
        }
        count = count + 1;
    }
    free_count
}

/// Removes the mappings of `pages` below a table of level `level`: as many
/// as the range holds, or as lie before the table's end. The frame of each
/// used leaf goes back to the allocator, and so does each table below this
/// one that the walk finds empty after its leaves are gone. Returns the
/// number of pages passed.
#[verifier::rlimit(60)]
pub(crate) fn unmap_in_table(
    table: &mut Node,
    pages: PageRange,
    level: usize,
    allocator: &mut FrameAllocator,
) -> (count: u64)
    requires
        old(table).wf(level as nat),
        level <= 5,
        old(allocator).wf(),
    ensures
        final(table).wf(level as nat),
        final(allocator).wf(),
        final(allocator).limit() == old(allocator).limit(),
        count == taken(pages.start.number(), pages.count(), level as nat),
        unmapped_leaves(
            *old(table),
            *final(table),
            level as nat,
            slot(pages.start.number(), level as nat),
            count as int,
        ),
        final(allocator)@.len() >= old(allocator)@.len(),
        final(allocator)@.take(old(allocator)@.len() as int) == old(allocator)@,
        final(allocator)@.len() + final(table).count(level as nat) == old(allocator)@.len() + old(
            table,
        ).count(level as nat) + released(
            *old(table),
            level as nat,
            slot(pages.start.number(), level as nat),
            count as int,
        ),
        old(table).tight(level as nat) ==> final(table).tight(level as nat),
        shrunk(
            *old(table),
            *final(table),
            level as nat,
            final(allocator)@.skip(old(allocator)@.len() as int),
        ),
        gave_back(
            *old(table),
            level as nat,
            slot(pages.start.number(), level as nat),
            count as int,
            final(allocator)@.skip(old(allocator)@.len() as int),
        ),
    decreases level,
{
    let ghost lvl = level as nat;
    let ghost number0 = pages.start.number();
    let ghost n0 = pages.count();
    let ghost s0 = slot(number0, lvl);
    let ghost cnt = taken(number0, n0, lvl);
    let ghost stack0 = allocator@;
    let ghost kids0 = table.children@;
    let ghost before = *table;
    let start_addr: u64 = pages.start.start_address();
    let end_addr: u64 = pages.end.start_address();
    proof {
        lemma_span_values();
        lemma_slot_parts(number0, lvl);
    }
    if level > 1 {
        let below_pages: u64 = span_of(level - 1);
        let mut total: u64 = 0;
        let mut index: usize = page_table_index(start_addr, level);
        let mut rest_pages: PageRange = pages;
        let mut more: bool = !pages.is_empty();
        proof {
            reveal(unmapped_leaves);
            lemma_shrunk_same(before, before, lvl, allocator@.skip(stack0.len() as int));
            reveal(gave_back);
        }
        while more
            invariant
                1 < level <= 5,
                lvl == level as nat,
                shrunk(before, *table, lvl, allocator@.skip(stack0.len() as int)),
                gave_back(before, lvl, s0, total as int, allocator@.skip(stack0.len() as int)),
                forall|k: int|
                    index <= k < 512 ==> #[trigger] table.entries()[k] == before.entries()[k],
                below_pages == span((level - 1) as nat),
                number0 == pages.start.number(),
                n0 == pages.count(),
                number0 >= 0,
                n0 >= 0,
                s0 == slot(number0, lvl),
                cnt == taken(number0, n0, lvl),
                pages.start.addr() % 4096 == 0,
                pages.end.addr() % 4096 == 0,
                0 <= total <= cnt,
                total <= n0,
                index <= 512,
                rest_pages.end == pages.end,
                rest_pages.start.addr() == pages.start.addr() + 4096 * total,
                more ==> index < 512 && slot(number0 + total, lvl) == s0 + total && table_index(
                    number0 + total,
                    lvl,
                ) == index && total < n0,
                !more ==> total == cnt,
                allocator.wf(),
                allocator.limit() == old(allocator).limit(),
                stack0 == old(allocator)@,
                before == *old(table),
                kids0 == before.children@,
                allocator@.len() >= stack0.len(),
                allocator@.take(stack0.len() as int) == stack0,
                table.wf(lvl),
                forall|k: int| index <= k < 512 ==> table.children@[k] == #[trigger] kids0[k],
                allocator@.len() + count_from(table.children@, (lvl - 1) as nat, 0) == stack0.len()
                    + count_from(kids0, (lvl - 1) as nat, 0) + released(
                    before,
                    lvl,
                    s0,
                    total as int,
                ),
                before.tight(lvl) ==> table.tight(lvl),
                unmapped_leaves(before, *table, lvl, s0, total as int),
            decreases 512 - index,
        {
            let ghost number = number0 + total;
            let ghost n = n0 - total;
            let ghost prev = *table;
            let ghost below = span((lvl - 1) as nat);
            let ghost inner = slot(number, (lvl - 1) as nat);
            let ghost c = taken(number, n, (lvl - 1) as nat);
            let ghost len_prev = allocator@.len() as int;
            proof {
                lemma_walk_advance(number0, n0, lvl, index as int, total as int);
                assert(rest_pages.start.number() == number);
                assert(rest_pages.count() == n);
                lemma_released_split(before, lvl, s0, total as int, c);
                lemma_released_child(before, lvl, index as int, inner, c);
                assert(before.children@[index as int] == table.children@[index as int]);
            }
            let ghost early = allocator@;
            let ghost mut now: Node = prev;
            let ghost mut called: Seq<u64> = allocator@;
            let k: u64;
            if entry_is_unused(&table.table, index) {
                let left: u64 = rest_pages.len();
                let inner_pages: u64 = (rest_pages.start.start_address() / PAGE_SIZE) % below_pages;
                let room: u64 = below_pages - inner_pages;
                k = if left < room {
                    left
                } else {
                    room
                };
                proof {
                    assert(k == c);
                    assert forall|r: int| 0 <= r < below implies #[trigger] table.leaf(
                        lvl,
                        below * index + r,
                    ) == if inner <= r < inner + c {
                        0
                    } else {
                        prev.leaf(lvl, below * index + r)
                    } by {
                        lemma_div_range(below * index + r, below, index as int);
                    }
                }
            } else {
                let ghost mid = *table.children@[index as int]->0;
                let child = table.children[index].as_mut().unwrap();
                k = unmap_in_table(child, rest_pages, level - 1, allocator);
                let ghost kept = *table;
                let ghost after = *table.children@[index as int]->0;
                proof {
                    now = after;
                    called = allocator@;
                    lemma_prefix_stays(stack0, early, allocator@);
                    lemma_count_update(
                        prev.children@,
                        table.children@,
                        (lvl - 1) as nat,
                        0,
                        index as int,
                    );
                    assert forall|r: int| 0 <= r < below implies #[trigger] after.leaf(
                        (lvl - 1) as nat,
                        r,
                    ) == if inner <= r < inner + c {
                        0
                    } else {
                        prev.leaf(lvl, below * index + r)
                    } by {
                        reveal(unmapped_leaves);
                        lemma_div_range(below * index + r, below, index as int);
                        assert(prev.leaf(lvl, below * index + r) == mid.leaf((lvl - 1) as nat, r));
                    }
                }
                let empty: bool = is_table_empty(table.children[index].as_ref().unwrap());
                if empty {
                    let addr: u64 = entry_addr(&table.table, index);
                    proof {
                        lemma_entry_frame_is_frame(table.entries()[index as int]);
                    }
                    let table_frame = PhysFrame::from_start_address(addr).unwrap();
                    let ghost len_mid = allocator@.len() as int;
                    allocator.free(table_frame);
                    entry_set_unused(&mut table.table, index);
                    table.children[index] = None;
                    proof {
                        assert(allocator@.take(len_mid) =~= called);
                        lemma_prefix_stays(stack0, called, allocator@);
                        assert(allocator@.skip(stack0.len() as int)[len_mid - stack0.len()]
                            == addr);
                        lemma_unused_count(after, (lvl - 1) as nat);
                        lemma_count_update(
                            kept.children@,
                            table.children@,
                            (lvl - 1) as nat,
                            0,
                            index as int,
                        );
                        assert forall|r: int| 0 <= r < below implies #[trigger] table.leaf(
                            lvl,
                            below * index + r,
                        ) == if inner <= r < inner + c {
                            0
                        } else {
                            prev.leaf(lvl, below * index + r)
                        } by {
                            lemma_div_range(below * index + r, below, index as int);
                            lemma_unused_leaf(after, (lvl - 1) as nat, r);
                            assert(after.leaf((lvl - 1) as nat, r) == 0);
                        }
                    }
                } else {
                    proof {
                        assert forall|r: int| 0 <= r < below implies #[trigger] table.leaf(
                            lvl,
                            below * index + r,
                        ) == if inner <= r < inner + c {
                            0
                        } else {
                            prev.leaf(lvl, below * index + r)
                        } by {
                            lemma_div_range(below * index + r, below, index as int);
                            assert(table.leaf(lvl, below * index + r) == after.leaf(
                                (lvl - 1) as nat,
                                r,
                            ));
                        }
                    }
                }
            }
            proof {
                lemma_unmap_step(
                    before,
                    prev,
                    *table,
                    lvl,
                    index as int,
                    s0,
                    total as int,
                    inner,
                    c,
                );
                let base = stack0.len() as int;
                let pushed = allocator@.skip(base);
                assert(allocator@.take(called.len() as int) =~= called);
                assert(called.take(early.len() as int) =~= early);
                assert(allocator@.take(early.len() as int) =~= early) by {
                    assert(allocator@.take(called.len() as int).take(early.len() as int)
                        =~= allocator@.take(early.len() as int));
                }
                lemma_pushed_stays(early, allocator@, base, len_prev);
                lemma_pushed_stays(called, allocator@, len_prev, len_prev);
                lemma_within_chain(called.skip(len_prev), allocator@.skip(len_prev), pushed);
                if prev.children@[index as int] is Some {
                    lemma_shrunk_more(
                        *prev.children@[index as int]->0,
                        now,
                        (lvl - 1) as nat,
                        called.skip(len_prev),
                        pushed,
                    );
                }
                lemma_shrunk_step(prev, *table, now, lvl, index as int, pushed);
                lemma_shrunk_twice(before, prev, *table, lvl, early.skip(base), pushed, pushed);
                lemma_gave_back_step(
                    before,
                    lvl,
                    index as int,
                    s0,
                    total as int,
                    inner,
                    c,
                    early.skip(base),
                    called.skip(len_prev),
                    pushed,
                );
            }
            rest_pages = PageRange { start: rest_pages.start.plus(k), end: rest_pages.end };
            total = total + k;
            index = index + 1;
            more = index < 512 && !rest_pages.is_empty();
        }
        total
    } else {
        let count: u64 = unmap_leaves(table, pages, allocator);
        proof {
            reveal(unmapped_leaves);
            reveal(shrunk);
            reveal(gave_back);
        }
        count
    }
}

} // verus!
