//! The walkers that copy a tree and that give a tree's tables back.

use vstd::prelude::*;
use crate::entry::{
    entry_bits,
    entry_frame,
    lemma_entry_frame_is_frame,
    lemma_entry_parts,
    lemma_entry_whole,
    lemma_frame_is_address,
};
use crate::frames::FrameAllocator;
use crate::growth::{
    alike,
    among,
    lemma_alike_step,
    lemma_among_step,
    lemma_prefix_stays,
    lemma_pushed_stays,
};
use crate::hw::{entry_addr, entry_flags, entry_is_unused, entry_set_addr};
use crate::layout::{lemma_div_range, lemma_span_positive, lemma_span_values, span};
use crate::tree::{count_from, lemma_count_none, lemma_count_update, lemma_empty_leaf, Node};
use crate::units::{PhysFrame, ADDR_MASK, FLAG_MASK};

verus! {

/// The leaves of `target` are those of `source` below the entries before
/// `done`, and unused from there on.
#[verifier::opaque]
pub(crate) open spec fn copied_leaves(source: Node, target: Node, level: nat, done: int) -> bool {
    forall|t: int|
        0 <= t < span(level) ==> #[trigger] target.leaf(level, t) == if t < span(
            (level - 1) as nat,
        ) * done {
            source.leaf(level, t)
        } else {
            0
        }
}

/// One step of the copy at a level above 1: the child at `index` is copied.
pub(crate) proof fn lemma_copy_step(source: Node, prev: Node, cur: Node, level: nat, index: int)
    requires
        1 < level <= 5,
        0 <= index < 512,
        copied_leaves(source, prev, level, index),
        forall|q: int| 0 <= q < 512 && q != index ==> cur.children@[q] == prev.children@[q],
        source.children@[index] is None ==> cur.children@[index] is None,
        source.children@[index] is Some ==> cur.children@[index] is Some && (forall|r: int|
            0 <= r < span((level - 1) as nat) ==> #[trigger] cur.children@[index]->0.leaf(
                (level - 1) as nat,
                r,
            ) == source.children@[index]->0.leaf((level - 1) as nat, r)),
    ensures
        copied_leaves(source, cur, level, index + 1),
{
    reveal(copied_leaves);
    let below = span((level - 1) as nat);
    lemma_span_positive((level - 1) as nat);
    assert(below * (index + 1) == below * index + below) by (nonlinear_arith);
    assert forall|t: int| 0 <= t < span(level) implies #[trigger] cur.leaf(level, t) == if t < below
        * (index + 1) {
        source.leaf(level, t)
    } else {
        0
    } by {
        let q = t / below;
        let r = t % below;
        lemma_div_range(t, below, q);
        lemma_div_range(t, below, index);
        assert(0 <= q < 512) by (nonlinear_arith)
            requires
                below > 0,
                0 <= t < 512 * below,
                below * q <= t < below * q + below,
        ;
        if q == index {
            if source.children@[index] is Some {
                let copy = *cur.children@[index]->0;
                let model = *source.children@[index]->0;
                assert(copy.leaf((level - 1) as nat, r) == model.leaf((level - 1) as nat, r));
            }
        } else {
            assert(cur.children@[q] == prev.children@[q]);
            assert(cur.leaf(level, t) == prev.leaf(level, t));
            if q < index {
                assert(below * (q + 1) <= below * index) by (nonlinear_arith)
                    requires
                        below > 0,
                        q + 1 <= index,
                ;
                assert(below * (q + 1) == below * q + below) by (nonlinear_arith);
            } else {
                assert(below * (index + 1) <= below * q) by (nonlinear_arith)
                    requires
                        below > 0,
                        index + 1 <= q,
                ;
            }
        }
    }
}

/// Copies the tree below `source` into `target`, a table without children
/// that is empty unless it is of level 1, where every entry is written. Each table
/// below `target` stands in a frame fresh from the allocator, under the
/// flags of the source's entry; the leaves are the source's leaves, entry by
/// entry, so that both trees map to the same frames.
#[verifier::rlimit(60)]
pub(crate) fn copy_table(
    source: &Node,
    target: &mut Node,
    level: usize,
    allocator: &mut FrameAllocator,
)
    requires
        source.wf(level as nat),
        level <= 5,
        old(target).entries().len() == 512,
        old(target).children@ == Seq::new(512, |j: int| None::<Box<Node>>),
        level > 1 ==> old(target).entries() == Seq::new(512, |j: int| 0u64),
        old(allocator).wf(),
        old(allocator)@.len() + 1 >= source.count(level as nat),
    ensures
        final(target).wf(level as nat),
        final(allocator).wf(),
        final(allocator).limit() == old(allocator).limit(),
        final(allocator)@ == old(allocator)@.take(
            old(allocator)@.len() + 1 - source.count(level as nat),
        ),
        final(target).count(level as nat) == source.count(level as nat),
        forall|t: int|
            0 <= t < span(level as nat) ==> #[trigger] final(target).leaf(level as nat, t)
                == source.leaf(level as nat, t),
        forall|j: int|
            0 <= j < 512 ==> entry_bits(#[trigger] final(target).entries()[j]) == entry_bits(
                source.entries()[j],
            ),
        final(target).used() == source.used(),
        source.tight(level as nat) ==> final(target).tight(level as nat),
        alike(*source, *final(target), level as nat),
        among(
            *final(target),
            level as nat,
            512,
            old(allocator)@.skip(final(allocator)@.len() as int),
        ),
    decreases level,
{
    let ghost lvl = level as nat;
    let ghost stack0 = allocator@;
    let ghost kids = source.children@;
    let ghost allocator0 = *allocator;
    proof {
        lemma_span_values();
        allocator0.lemma_frames_usable();
        assert(0u64 & ADDR_MASK == 0) by (bit_vector);
    }
    if level > 1 {
        let ghost below = span((lvl - 1) as nat);
        let mut index: usize = 0;
        proof {
            reveal(copied_leaves);
            reveal(among);
            assert forall|t: int| 0 <= t < span(lvl) implies #[trigger] target.leaf(lvl, t) == 0 by {
                lemma_empty_leaf(*target, lvl, t);
            }
            assert(below * 0 == 0) by (nonlinear_arith);
            lemma_count_none(target.children@, (lvl - 1) as nat, 0);
        }
        while index < 512
            invariant
                1 < level <= 5,
                lvl == level as nat,
                below == span((lvl - 1) as nat),
                index <= 512,
                source.wf(lvl),
                kids == source.children@,
                stack0 == old(allocator)@,
                allocator.wf(),
                allocator.limit() == old(allocator).limit(),
                allocator@.len() <= stack0.len(),
                allocator@ == stack0.take(allocator@.len() as int),
                allocator@.len() >= count_from(kids, (lvl - 1) as nat, index as int),
                stack0.len() - allocator@.len() + count_from(kids, (lvl - 1) as nat, index as int)
                    == count_from(kids, (lvl - 1) as nat, 0),
                count_from(target.children@, (lvl - 1) as nat, 0) == stack0.len()
                    - allocator@.len(),
                target.entries().len() == 512,
                target.children@.len() == 512,
                among(*target, lvl, index as int, stack0.skip(allocator@.len() as int)),
                forall|j: int|
                    0 <= j < 512 ==> if j < index {
                        &&& (target.entries()[j] != 0) == (#[trigger] target.children@[j]) is Some
                        &&& target.children@[j] is Some == kids[j] is Some
                        &&& entry_bits(target.entries()[j]) == entry_bits(source.entries()[j])
                        &&& target.children@[j] is Some ==> {
                            &&& target.entries()[j] & ADDR_MASK != 0
                            &&& target.children@[j]->0.wf((lvl - 1) as nat)
                            &&& alike(*kids[j]->0, *target.children@[j]->0, (lvl - 1) as nat)
                            &&& target.children@[j]->0.used() == kids[j]->0.used()
                            &&& kids[j]->0.tight((lvl - 1) as nat) ==> target.children@[j]->0.tight(
                                (lvl - 1) as nat,
                            )
                        }
                    } else {
                        target.entries()[j] == 0 && (#[trigger] target.children@[j]) is None
                    },
                copied_leaves(*source, *target, lvl, index as int),
            decreases 512 - index,
        {
            let ghost prev = *target;
            let ghost len_prev = allocator@.len() as int;
            let ghost mut called: Seq<u64> = allocator@;
            if !entry_is_unused(&source.table, index) {
                let source_child = source.children[index].as_ref().unwrap();
                let phys_frame = allocator.allocate();
                let flags: u64 = entry_flags(&source.table, index);
                proof {
                    lemma_frame_is_address(phys_frame.addr());
                    lemma_entry_whole(source.entries()[index as int]);
                    lemma_entry_parts(phys_frame.addr(), flags);
                    assert(allocator@ =~= stack0.take(allocator@.len() as int));
                }
                entry_set_addr(&mut target.table, index, phys_frame.start_address(), flags);
                let mut made = Node::empty(Ghost((lvl - 1) as nat));
                proof {
                    called = allocator@;
                }
                copy_table(source_child, &mut made, level - 1, allocator);
                target.children[index] = Some(Box::new(made));
                proof {
                    assert(allocator@ =~= stack0.take(allocator@.len() as int));
                    lemma_count_update(
                        prev.children@,
                        target.children@,
                        (lvl - 1) as nat,
                        0,
                        index as int,
                    );
                }
            }
            proof {
                lemma_copy_step(*source, prev, *target, lvl, index as int);
                let low = allocator@.len() as int;
                let taken = stack0.skip(low);
                assert(stack0.take(stack0.len() as int) =~= stack0);
                lemma_pushed_stays(stack0, stack0, low, len_prev);
                lemma_pushed_stays(called, stack0, low, low);
                if target.children@[index as int] is Some {
                    assert(taken[len_prev - 1 - low] == stack0[len_prev - 1]);
                }
                lemma_among_step(
                    prev,
                    *target,
                    lvl,
                    index as int,
                    stack0.skip(len_prev),
                    called.skip(low),
                    taken,
                );
            }
            index = index + 1;
        }
        proof {
            reveal(copied_leaves);
            assert(span(lvl) == below * 512);
            assert forall|q: int| 0 <= q < 512 implies {
                &&& entry_bits(#[trigger] target.entries()[q]) == entry_bits(source.entries()[q])
                &&& (entry_frame(target.entries()[q]) != 0) == (entry_frame(source.entries()[q])
                    != 0)
                &&& (target.entries()[q] != 0) == (source.entries()[q] != 0)
                &&& target.children@[q] is Some == source.children@[q] is Some
                &&& target.children@[q] is Some ==> alike(
                    *source.children@[q]->0,
                    *target.children@[q]->0,
                    (lvl - 1) as nat,
                )
            } by {
                assert(target.children@[q] is Some == kids[q] is Some);
                lemma_entry_frame_is_frame(source.entries()[q]);
                lemma_entry_frame_is_frame(target.entries()[q]);
            }
            lemma_alike_step(*source, *target, lvl);
            assert forall|j: int| 0 <= j < 512 implies entry_bits(
                #[trigger] target.entries()[j],
            ) == entry_bits(source.entries()[j]) by {
                assert(target.children@[j] is Some == kids[j] is Some);
            }
            if source.used() {
                let k = choose|k: int| 0 <= k < 512 && #[trigger] source.entries()[k] != 0;
                assert(target.children@[k] is Some);
                assert(target.entries()[k] != 0);
            }
            if target.used() {
                let k = choose|k: int| 0 <= k < 512 && #[trigger] target.entries()[k] != 0;
                assert(target.children@[k] is Some);
                assert(source.entries()[k] != 0);
            }
        }
    } else {
        let mut index: usize = 0;
        while index < 512
            invariant
                index <= 512,
                level == 1,
                source.wf(1),
                target.entries().len() == 512,
                target.children@ == old(target).children@,
                forall|j: int|
                    0 <= j < index ==> #[trigger] target.entries()[j] == source.entries()[j],
            decreases 512 - index,
        {
            let addr: u64 = entry_addr(&source.table, index);
            let flags: u64 = entry_flags(&source.table, index);
            proof {
                lemma_entry_whole(source.entries()[index as int]);
                assert(flags & FLAG_MASK == flags);
            }
            entry_set_addr(&mut target.table, index, addr, flags);
            index = index + 1;
        }
        proof {
            assert(target.entries() =~= source.entries());
            reveal(alike);
            reveal(among);
        }
    }
}

/// Gives the frames of all tables of the tree back to the allocator: those
/// below `table`, then the frame `frame` of `table` itself. Frames that
/// leaves point to stay out.
pub(crate) fn drop_table(table: &Node, frame: PhysFrame, level: usize, allocator: &mut FrameAllocator)
    requires
        table.wf(level as nat),
        level <= 5,
        frame.addr() != 0,
        old(allocator).wf(),
    ensures
        final(allocator).wf(),
        final(allocator).limit() == old(allocator).limit(),
        final(allocator)@.len() == old(allocator)@.len() + table.count(level as nat),
        final(allocator)@.take(old(allocator)@.len() as int) == old(allocator)@,
        final(allocator)@.skip(old(allocator)@.len() as int).contains(frame.addr()),
        among(*table, level as nat, 512, final(allocator)@.skip(old(allocator)@.len() as int)),
    decreases level,
{
    let ghost lvl = level as nat;
    let ghost stack0 = allocator@;
    let ghost kids = table.children@;
    let ghost base = stack0.len() as int;
    proof {
        reveal(among);
        assert(span((lvl - 1) as nat) * 0 == 0) by (nonlinear_arith);
    }
    if level > 1 {
        let mut index: usize = 0;
        while index < 512
            invariant
                1 < level <= 5,
                lvl == level as nat,
                base == stack0.len(),
                among(*table, lvl, index as int, allocator@.skip(base)),
                index <= 512,
                table.wf(lvl),
                kids == table.children@,
                stack0 == old(allocator)@,
                allocator.wf(),
                allocator.limit() == old(allocator).limit(),
                allocator@.len() >= stack0.len(),
                allocator@.take(stack0.len() as int) == stack0,
                allocator@.len() + count_from(kids, (lvl - 1) as nat, index as int) == stack0.len()
                    + count_from(kids, (lvl - 1) as nat, 0),
            decreases 512 - index,
        {
            let addr: u64 = entry_addr(&table.table, index);
            let ghost early = allocator@;
            let ghost len = allocator@.len() as int;
            proof {
                lemma_entry_frame_is_frame(table.entries()[index as int]);
                assert(0u64 & ADDR_MASK == 0) by (bit_vector);
            }
            if addr != 0 {
                let child = table.children[index].as_ref().unwrap();
                let child_frame = PhysFrame::from_start_address(addr).unwrap();
                drop_table(child, child_frame, level - 1, allocator);
                proof {
                    lemma_prefix_stays(stack0, early, allocator@);
                }
            }
            proof {
                assert(allocator@.take(len) =~= early);
                lemma_pushed_stays(early, allocator@, base, len);
                lemma_among_step(
                    *table,
                    *table,
                    lvl,
                    index as int,
                    early.skip(base),
                    allocator@.skip(len),
                    allocator@.skip(base),
                );
            }
            index = index + 1;
        }
    }
    let ghost early = allocator@;
    let ghost len = allocator@.len() as int;
    allocator.free(frame);
    proof {
        assert(allocator@.take(len) =~= early);
        assert(early.take(stack0.len() as int) =~= stack0);
        lemma_prefix_stays(stack0, early, allocator@);
        assert(allocator@.skip(base)[len - base] == frame.addr());
        lemma_pushed_stays(early, allocator@, base, len);
        reveal(among);
        if level > 1 {
            assert(span(lvl) == span((lvl - 1) as nat) * 512);
        }
    }
}

/// A bound on the number of tables in a tree of `level` levels.
pub(crate) open spec fn table_bound(level: nat) -> nat
    decreases level,
{
    if level <= 1 {
        1
    } else {
        1 + 512 * table_bound((level - 1) as nat)
    }
}

/// The bounds of the levels up to five.
pub(crate) proof fn lemma_table_bound_values()
    ensures
        table_bound(1) == 1,
        table_bound(2) == 513,
        table_bound(3) == 262657,
        table_bound(4) == 134480385,
        table_bound(5) == 68853957121,
{
    reveal_with_fuel(table_bound, 6);
}

/// The subtrees of the children from `j` on hold no more tables than the
/// bound allows each of them.
pub(crate) proof fn lemma_count_bound(kids: Seq<Option<Box<Node>>>, level: nat, j: int)
    requires
        0 <= j <= 512,
    ensures
        count_from(kids, level, j) <= (512 - j) * table_bound(level),
    decreases level, 512 - j,
{
    let unit = table_bound(level);
    if j < 512 {
        lemma_count_bound(kids, level, j + 1);
        if kids[j] is Some && level > 1 {
            lemma_count_bound(kids[j]->0.children@, (level - 1) as nat, 0);
        }
        assert((512 - j) * unit == unit + (512 - (j + 1)) * unit) by (nonlinear_arith);
    } else {
        assert((512 - j) * unit == 0) by (nonlinear_arith)
            requires
                j == 512,
        ;
    }
}

/// Counts the tables of the tree below `table`, `table` itself counted.
pub(crate) fn count_tables(table: &Node, level: usize) -> (count: u64)
    requires
        table.wf(level as nat),
        level <= 5,
    ensures
        count == table.count(level as nat),
        count <= table_bound(level as nat),
    decreases level,
{
    let ghost lvl = level as nat;
    let ghost kids = table.children@;
    let mut count: u64 = 1;
    proof {
        lemma_table_bound_values();
    }
    if level > 1 {
        let mut index: usize = 0;
        proof {
            lemma_count_bound(kids, (lvl - 1) as nat, 0);
        }
        while index < 512
            invariant
                1 < level <= 5,
                lvl == level as nat,
                index <= 512,
                table.wf(lvl),
                kids == table.children@,
                count + count_from(kids, (lvl - 1) as nat, index as int) == 1 + count_from(
                    kids,
                    (lvl - 1) as nat,
                    0,
                ),
                1 + count_from(kids, (lvl - 1) as nat, 0) <= table_bound(lvl),
                table_bound(lvl) <= 68853957121,
            decreases 512 - index,
        {
            match &table.children[index] {
                Some(child) => {
                    let below: u64 = count_tables(child, level - 1);
                    count = count + below;
                },
                None => {},
            }
            index = index + 1;
        }
    }
    count
}

} // verus!
