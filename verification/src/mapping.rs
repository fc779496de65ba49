//! The walker that installs mappings, and what it takes from the allocator.

use vstd::prelude::*;
use crate::entry::{entry_of, lemma_entry_parts, lemma_frame_is_address};
use crate::frames::FrameAllocator;
use crate::growth::{
    apart,
    grown,
    lemma_picked_below,
    lemma_picked_grows,
    picked,
    lemma_grown_more,
    lemma_grown_same,
    lemma_grown_step,
    lemma_grown_twice,
    lemma_pushed_stays,
};
use crate::hw::{entry_is_unused, entry_set_addr};
use crate::layout::{
    lemma_div_range,
    lemma_mod_advance,
    lemma_slot_parts,
    lemma_span_positive,
    lemma_span_values,
    page_table_index,
    slot,
    span,
    table_index,
};
use crate::tree::{
    children_of,
    count_from,
    lemma_count_none,
    lemma_count_update,
    lemma_empty_leaf,
    Children,
    Node,
};
use crate::units::{
    MemorySpace,
    PageRange,
    PageTableFlags,
    PhysFrameRange,
    FLAG_MASK,
    PHYS_ADDR_END,
};
use crate::walk::{
    backing,
    identity_map_kernel,
    map_user,
    map_user_physical,
    maps_identity,
    solid,
    taken,
    takes_fresh,
};

verus! {

/// Frames that the leaves of one table of level 1 take from the allocator.
pub open spec fn leaf_cost(number: int, n: int, fresh: bool) -> nat {
    if fresh && taken(number, n, 1) > 0 {
        taken(number, n, 1) as nat
    } else {
        0
    }
}

/// Frames that the walk takes from the allocator from the entry `j` on of a
/// table of level `level` with the children `kids`, for `n` pages from the
/// page `number` on: one for each table that is missing on the way, and one
/// for each leaf where the leaves are fresh.
pub(crate) open spec fn needed_from(
    kids: Children,
    level: nat,
    j: int,
    number: int,
    n: int,
    fresh: bool,
) -> nat
    decreases level, (512 - j) as nat,
{
    if j < 0 || j >= 512 || level <= 1 {
        0
    } else {
        let c = taken(number, n, (level - 1) as nat);
        let here: nat = if kids[j] is None {
            1
        } else {
            0
        };
        let below: nat = if level <= 2 {
            leaf_cost(number, n, fresh)
        } else {
            needed_from(
                children_of(kids[j]),
                (level - 1) as nat,
                table_index(number, (level - 1) as nat),
                number,
                n,
                fresh,
            )
        };
        let after: nat = if n - c <= 0 {
            0
        } else {
            needed_from(kids, level, j + 1, number + c, n - c, fresh)
        };
        here + below + after
    }
}

/// Frames that the walk takes from the allocator below a table of level
/// `level` with the children `kids`.
pub(crate) open spec fn needed_below(
    kids: Children,
    level: nat,
    number: int,
    n: int,
    fresh: bool,
) -> nat {
    if level <= 1 {
        leaf_cost(number, n, fresh)
    } else {
        needed_from(kids, level, table_index(number, level), number, n, fresh)
    }
}

/// Frames that the leaves under one table of level `level` take from the
/// allocator.
pub(crate) open spec fn leaf_cost_at(number: int, n: int, level: nat, fresh: bool) -> nat {
    if fresh && taken(number, n, level) > 0 {
        taken(number, n, level) as nat
    } else {
        0
    }
}

/// `pos` names `count` places of a stack between `low` and `high`, falling.
pub open spec fn places(pos: Seq<int>, count: int, low: int, high: int) -> bool {
    &&& pos.len() == count
    &&& forall|d: int| 0 <= d < count ==> low <= #[trigger] pos[d] < high
    &&& forall|d: int, e: int| 0 <= d < e < count ==> #[trigger] pos[d] > #[trigger] pos[e]
}

/// The leaves of `after` are those of `before`, but for the `count` slots
/// from `first` on: these hold the mapping request's entries.
#[verifier::opaque]
pub(crate) open spec fn mapped_leaves(
    before: Node,
    after: Node,
    level: nat,
    first: int,
    count: int,
    space: MemorySpace,
    frames: PhysFrameRange,
    pages: PageRange,
    stack: Seq<u64>,
    pos: Seq<int>,
    bits: u64,
) -> bool {
    forall|t: int|
        0 <= t < span(level) ==> #[trigger] after.leaf(level, t) == if first <= t < first + count {
            entry_of(backing(space, frames, pages, stack, pos, t - first), bits)
        } else {
            before.leaf(level, t)
        }
}

/// One step of the walk at a level above 1: the child at `index` took `c`
/// pages, and the leaves of the whole table follow.
pub(crate) proof fn lemma_map_step(
    before: Node,
    prev: Node,
    cur: Node,
    mid: Node,
    level: nat,
    index: int,
    first: int,
    total: int,
    inner: int,
    c: int,
    space: MemorySpace,
    frames: PhysFrameRange,
    pages: PageRange,
    rest_frames: PhysFrameRange,
    rest_pages: PageRange,
    stack: Seq<u64>,
    stack_here: Seq<u64>,
    pos_prev: Seq<int>,
    p: Seq<int>,
    bits: u64,
)
    requires
        1 < level <= 5,
        0 <= index < 512,
        0 <= total,
        0 <= c,
        0 <= inner,
        inner + c <= span((level - 1) as nat),
        first + total == span((level - 1) as nat) * index + inner,
        mapped_leaves(before, prev, level, first, total, space, frames, pages, stack, pos_prev, bits),
        cur.children@[index] is Some,
        forall|q: int| 0 <= q < 512 && q != index ==> cur.children@[q] == prev.children@[q],
        mapped_leaves(
            mid,
            *cur.children@[index]->0,
            (level - 1) as nat,
            inner,
            c,
            space,
            rest_frames,
            rest_pages,
            stack_here,
            p,
            bits,
        ),
        forall|r: int|
            0 <= r < span((level - 1) as nat) ==> #[trigger] mid.leaf((level - 1) as nat, r)
                == prev.leaf(level, span((level - 1) as nat) * index + r),
        forall|d: int|
            0 <= d < c ==> #[trigger] backing(space, rest_frames, rest_pages, stack_here, p, d)
                == backing(space, frames, pages, stack, pos_prev + p, total + d),
        forall|d: int|
            0 <= d < total ==> #[trigger] backing(space, frames, pages, stack, pos_prev + p, d)
                == backing(space, frames, pages, stack, pos_prev, d),
    ensures
        mapped_leaves(
            before,
            cur,
            level,
            first,
            total + c,
            space,
            frames,
            pages,
            stack,
            pos_prev + p,
            bits,
        ),
{
    reveal(mapped_leaves);
    let below = span((level - 1) as nat);
    lemma_span_positive((level - 1) as nat);
    let child = *cur.children@[index]->0;
    assert forall|t: int| 0 <= t < span(level) implies #[trigger] cur.leaf(level, t) == if first
        <= t < first + (total + c) {
        entry_of(backing(space, frames, pages, stack, pos_prev + p, t - first), bits)
    } else {
        before.leaf(level, t)
    } by {
        let q = t / below;
        let r = t % below;
        lemma_div_range(t, below, q);
        lemma_div_range(t, below, index);
        assert(0 <= q < 512) by (nonlinear_arith)
            requires
                below > 0,
                0 <= t < 512 * below,
                below * q <= t < below * q + below,
        ;
        if q == index {
            assert(cur.leaf(level, t) == child.leaf((level - 1) as nat, r));
            assert(t == below * index + r);
            assert(mid.leaf((level - 1) as nat, r) == prev.leaf(level, t));
            if inner <= r < inner + c {
                let d = r - inner;
                assert(backing(space, rest_frames, rest_pages, stack_here, p, d) == backing(
                    space,
                    frames,
                    pages,
                    stack,
                    pos_prev + p,
                    total + d,
                ));
            } else {
                if first <= t < first + total {
                    let d = t - first;
                    assert(backing(space, frames, pages, stack, pos_prev + p, d) == backing(
                        space,
                        frames,
                        pages,
                        stack,
                        pos_prev,
                        d,
                    ));
                }
            }
        } else {
            assert(cur.children@[q] == prev.children@[q]);
            assert(cur.leaf(level, t) == prev.leaf(level, t));
            if first <= t < first + total {
                let d = t - first;
                assert(backing(space, frames, pages, stack, pos_prev + p, d) == backing(
                    space,
                    frames,
                    pages,
                    stack,
                    pos_prev,
                    d,
                ));
            }
        }
    }
}

/// Where the walk stands after the child at `index` took its pages: at the
/// start of the next child, or at its end.
pub(crate) proof fn lemma_walk_advance(number0: int, n0: int, level: nat, index: int, total: int)
    requires
        1 < level <= 5,
        number0 >= 0,
        0 <= total <= n0,
        0 <= index < 512,
        slot(number0 + total, level) == slot(number0, level) + total,
        table_index(number0 + total, level) == index,
    ensures
        ({
            let below = span((level - 1) as nat);
            let inner = slot(number0 + total, (level - 1) as nat);
            let c = taken(number0 + total, n0 - total, (level - 1) as nat);
            let go_on = n0 - total - c > 0 && index + 1 < 512;
            &&& below > 0
            &&& span(level) == 512 * below
            &&& slot(number0, level) + total == below * index + inner
            &&& 0 <= inner
            &&& 0 <= c
            &&& inner + c <= below
            &&& c <= n0 - total
            &&& total + c <= taken(number0, n0, level)
            &&& go_on ==> slot(number0 + total + c, level) == slot(number0, level) + total + c
            &&& go_on ==> table_index(number0 + total + c, level) == index + 1
            &&& !go_on ==> total + c == taken(number0, n0, level)
        }),
{
    let below = span((level - 1) as nat);
    let inner = slot(number0 + total, (level - 1) as nat);
    let c = taken(number0 + total, n0 - total, (level - 1) as nat);
    let s0 = slot(number0, level);
    lemma_span_positive((level - 1) as nat);
    lemma_slot_parts(number0 + total, level);
    lemma_slot_parts(number0, level);
    lemma_slot_parts(number0 + total, (level - 1) as nat);
    assert(below * (index + 1) <= below * 512) by (nonlinear_arith)
        requires
            below > 0,
            index + 1 <= 512,
    ;
    assert(below * (index + 1) == below * index + below) by (nonlinear_arith);
    if n0 - total - c > 0 && index + 1 < 512 {
        assert(c == below - inner);
        assert(below * (index + 1) < below * 512) by (nonlinear_arith)
            requires
                below > 0,
                index + 1 < 512,
        ;
        lemma_mod_advance(number0, span(level), total + c);
        lemma_slot_parts(number0 + total + c, level);
        lemma_div_range(s0 + total + c, below, index + 1);
    }
}

/// What the walk needs from the entry `index` on: what the child at `index`
/// needs, one frame more if it is missing, and what the entries after it
/// need.
pub(crate) proof fn lemma_needed_step(
    kids: Children,
    level: nat,
    index: int,
    number: int,
    n: int,
    fresh: bool,
)
    requires
        1 < level,
        0 <= index < 512,
    ensures
        ({
            let c = taken(number, n, (level - 1) as nat);
            let here: nat = if kids[index] is None {
                1
            } else {
                0
            };
            let after: nat = if n - c > 0 && index + 1 < 512 {
                needed_from(kids, level, index + 1, number + c, n - c, fresh)
            } else {
                0
            };
            needed_from(kids, level, index, number, n, fresh) == here + needed_below(
                children_of(kids[index]),
                (level - 1) as nat,
                number,
                n,
                fresh,
            ) + after
        }),
{
    let c = taken(number, n, (level - 1) as nat);
    assert(needed_from(kids, level, 512, number + c, n - c, fresh) == 0);
}

/// Places taken later stand below the places taken before.
pub(crate) proof fn lemma_places_append(
    pos: Seq<int>,
    p: Seq<int>,
    count: int,
    more: int,
    low: int,
    mid: int,
    high: int,
)
    requires
        places(pos, count, mid, high),
        places(p, more, low, mid),
        0 <= count,
        0 <= more,
        low <= mid <= high,
    ensures
        places(pos + p, count + more, low, high),
{
    let all = pos + p;
    assert forall|d: int| 0 <= d < count + more implies low <= #[trigger] all[d] < high by {
        if d < count {
            assert(all[d] == pos[d]);
        } else {
            assert(all[d] == p[d - count]);
        }
    }
    assert forall|d: int, e: int| 0 <= d < e < count + more implies #[trigger] all[d]
        > #[trigger] all[e] by {
        if e < count {
            assert(all[d] == pos[d] && all[e] == pos[e]);
        } else if d < count {
            assert(all[d] == pos[d] && all[e] == p[e - count]);
        } else {
            assert(all[d] == p[d - count] && all[e] == p[e - count]);
        }
    }
}

/// The same places lie between wider bounds too.
pub(crate) proof fn lemma_places_widen(pos: Seq<int>, count: int, low: int, high: int, lower: int)
    requires
        places(pos, count, low, high),
        lower <= low,
    ensures
        places(pos, count, lower, high),
{
}

/// Installs mappings for `pages` below a table of level `level`: as many as
/// the range holds, or as fit up to the table's end. Tables that are missing
/// on the way are made, each in a frame from the allocator. Returns the
/// number of pages installed, the place in the allocator's stack that each
/// fresh leaf's frame came from, and the places that the frames of the new
/// tables came from.
#[verifier::rlimit(60)]
pub(crate) fn map_in_table(
    table: &mut Node,
    frames: PhysFrameRange,
    pages: PageRange,
    space: MemorySpace,
    flags: PageTableFlags,
    level: usize,
    allocator: &mut FrameAllocator,
) -> (res: (u64, Ghost<Seq<int>>, Ghost<Seq<int>>))
    requires
        old(table).wf(level as nat),
        level <= 5,
        old(allocator).wf(),
        frames.count() == 0 || frames.count() == pages.count(),
        maps_identity(space, frames) ==> pages.start.addr() + 4096 * taken(
            pages.start.number(),
            pages.count(),
            level as nat,
        ) <= PHYS_ADDR_END,
        old(allocator)@.len() >= needed_below(
            old(table).children@,
            level as nat,
            pages.start.number(),
            pages.count(),
            takes_fresh(space, frames),
        ),
    ensures
        final(table).wf(level as nat),
        final(allocator).wf(),
        final(allocator).limit() == old(allocator).limit(),
        res.0 == taken(pages.start.number(), pages.count(), level as nat),
        final(allocator)@ == old(allocator)@.take(
            old(allocator)@.len() - needed_below(
                old(table).children@,
                level as nat,
                pages.start.number(),
                pages.count(),
                takes_fresh(space, frames),
            ),
        ),
        final(table).count(level as nat) + leaf_cost_at(
            pages.start.number(),
            pages.count(),
            level as nat,
            takes_fresh(space, frames),
        ) == old(table).count(level as nat) + needed_below(
            old(table).children@,
            level as nat,
            pages.start.number(),
            pages.count(),
            takes_fresh(space, frames),
        ),
        places(
            res.1@,
            leaf_cost_at(
                pages.start.number(),
                pages.count(),
                level as nat,
                takes_fresh(space, frames),
            ) as int,
            final(allocator)@.len() as int,
            old(allocator)@.len() as int,
        ),
        mapped_leaves(
            *old(table),
            *final(table),
            level as nat,
            slot(pages.start.number(), level as nat),
            res.0 as int,
            space,
            frames,
            pages,
            old(allocator)@,
            res.1@,
            flags.value(),
        ),
        old(table).tight(level as nat) && pages.count() > 0 && solid(space, frames, pages, flags)
            ==> final(table).tight(level as nat) && final(table).used(),
        grown(
            *old(table),
            *final(table),
            level as nat,
            flags.value(),
            old(allocator)@.skip(final(allocator)@.len() as int),
        ),
        grown(
            *old(table),
            *final(table),
            level as nat,
            flags.value(),
            picked(old(allocator)@, res.2@),
        ),
        places(
            res.2@,
            res.2@.len() as int,
            final(allocator)@.len() as int,
            old(allocator)@.len() as int,
        ),
        apart(res.2@, res.1@),
        res.2@.len() + res.1@.len() == old(allocator)@.len() - final(allocator)@.len(),
    decreases level,
{
    let ghost lvl = level as nat;
    let ghost allocator0 = *allocator;
    let ghost number0 = pages.start.number();
    let ghost n0 = pages.count();
    let ghost s0 = slot(number0, lvl);
    let ghost cnt = taken(number0, n0, lvl);
    let ghost stack0 = allocator@;
    let ghost kids0 = table.children@;
    let ghost before = *table;
    let ghost fresh = takes_fresh(space, frames);
    let ghost total_need = needed_below(kids0, lvl, number0, n0, fresh);
    let bits: u64 = flags.bits();
    let start_addr: u64 = pages.start.start_address();
    let end_addr: u64 = pages.end.start_address();
    let first_frame: u64 = frames.start.start_address();
    let last_frame: u64 = frames.end.start_address();
    let ghost firm = before.tight(lvl) && n0 > 0 && solid(space, frames, pages, flags);
    proof {
        lemma_span_values();
        lemma_slot_parts(number0, lvl);
        allocator0.lemma_frames_usable();
    }
    if level > 1 {
        let start_index: usize = page_table_index(start_addr, level);
        let mut total: u64 = 0;
        let mut index: usize = start_index;
        let mut rest_pages: PageRange = pages;
        let mut rest_frames: PhysFrameRange = frames;
        let ghost mut pos: Seq<int> = Seq::empty();
        let ghost mut tabs: Seq<int> = Seq::empty();
        let mut more: bool = true;
        proof {
            reveal(mapped_leaves);
            lemma_grown_same(before, before, lvl, bits, stack0.skip(stack0.len() as int));
            lemma_grown_same(before, before, lvl, bits, picked(stack0, tabs));
        }
        while more
            invariant
                1 < level <= 5,
                lvl == level as nat,
                grown(before, *table, lvl, bits, stack0.skip(allocator@.len() as int)),
                grown(before, *table, lvl, bits, picked(stack0, tabs)),
                places(tabs, tabs.len() as int, allocator@.len() as int, stack0.len() as int),
                apart(tabs, pos),
                tabs.len() + pos.len() == stack0.len() - allocator@.len(),
                forall|k: int|
                    index <= k < 512 ==> #[trigger] table.entries()[k] == before.entries()[k],
                bits == flags.value(),
                bits & FLAG_MASK == bits,
                number0 == pages.start.number(),
                n0 == pages.count(),
                number0 >= 0,
                n0 >= 0,
                s0 == slot(number0, lvl),
                cnt == taken(number0, n0, lvl),
                fresh == takes_fresh(space, frames),
                frames.count() == 0 || frames.count() == n0,
                maps_identity(space, frames) ==> pages.start.addr() + 4096 * cnt
                    <= PHYS_ADDR_END,
                pages.start.addr() % 4096 == 0,
                pages.end.addr() % 4096 == 0,
                frames.start.addr() % 4096 == 0,
                frames.end.addr() % 4096 == 0,
                frames.end.addr() < PHYS_ADDR_END,
                0 <= total <= cnt,
                total <= n0,
                index <= 512,
                rest_pages.end == pages.end,
                rest_pages.start.addr() == pages.start.addr() + 4096 * total,
                rest_frames.end == frames.end,
                frames.count() == 0 ==> rest_frames == frames,
                frames.count() > 0 ==> rest_frames.start.addr() == frames.start.addr() + 4096
                    * total,
                more ==> index < 512 && slot(number0 + total, lvl) == s0 + total && table_index(
                    number0 + total,
                    lvl,
                ) == index && (n0 > 0 ==> total < n0),
                !more ==> total == cnt,
                allocator.wf(),
                allocator.limit() == old(allocator).limit(),
                stack0 == old(allocator)@,
                allocator@.len() <= stack0.len(),
                allocator@ == stack0.take(allocator@.len() as int),
                total_need <= stack0.len(),
                (stack0.len() - allocator@.len()) + (if more {
                    needed_from(kids0, lvl, index as int, number0 + total, n0 - total, fresh)
                } else {
                    0
                }) == total_need,
                places(
                    pos,
                    if fresh {
                        total as int
                    } else {
                        0
                    },
                    allocator@.len() as int,
                    stack0.len() as int,
                ),
                table.wf(lvl),
                firm == (before.tight(lvl) && n0 > 0 && solid(space, frames, pages, flags)),
                firm ==> table.tight(lvl),
                start_index < 512,
                index > start_index ==> table.children@[start_index as int] is Some,
                index >= start_index,
                more || index > start_index,
                kids0.len() == 512,
                forall|k: int| index <= k < 512 ==> table.children@[k] == #[trigger] kids0[k],
                count_from(table.children@, (lvl - 1) as nat, 0) + (if fresh {
                    total as int
                } else {
                    0
                }) == count_from(kids0, (lvl - 1) as nat, 0) + (stack0.len() - allocator@.len()),
                mapped_leaves(
                    before,
                    *table,
                    lvl,
                    s0,
                    total as int,
                    space,
                    frames,
                    pages,
                    stack0,
                    pos,
                    bits,
                ),
            decreases 512 - index,
        {
            let ghost number = number0 + total;
            let ghost n = n0 - total;
            let ghost prev = *table;
            let ghost pos_prev = pos;
            let ghost tabs_prev = tabs;
            let ghost below = span((lvl - 1) as nat);
            let ghost inner = slot(number, (lvl - 1) as nat);
            let ghost c = taken(number, n, (lvl - 1) as nat);
            let ghost len_prev = allocator@.len() as int;
            proof {
                lemma_walk_advance(number0, n0, lvl, index as int, total as int);
                lemma_needed_step(kids0, lvl, index as int, number, n, fresh);
                assert(rest_pages.start.number() == number);
                assert(rest_pages.count() == n);
                assert(frames.count() > 0 ==> rest_frames.count() == n);
                assert(takes_fresh(space, rest_frames) == fresh);
                assert(firm ==> solid(space, rest_frames, rest_pages, flags));
            }
            if entry_is_unused(&table.table, index) {
                assert(kids0[index as int] is None);
                let frame = allocator.allocate();
                proof {
                    lemma_frame_is_address(frame.addr());
                    lemma_entry_parts(frame.addr(), bits);
                }
                entry_set_addr(&mut table.table, index, frame.start_address(), bits);
                let made = Node::empty(Ghost((level - 1) as nat));
                proof {
                    assert(children_of(None::<Box<Node>>) =~= made.children@);
                    lemma_count_none(made.children@, (lvl - 2) as nat, 0);
                }
                table.children[index] = Some(Box::new(made));
                proof {
                    tabs = tabs_prev + seq![len_prev - 1];
                    lemma_places_append(
                        tabs_prev,
                        seq![len_prev - 1],
                        tabs_prev.len() as int,
                        1,
                        len_prev - 1,
                        len_prev,
                        stack0.len() as int,
                    );
                    assert(allocator@ =~= stack0.take(allocator@.len() as int));
                    lemma_count_update(
                        prev.children@,
                        table.children@,
                        (lvl - 1) as nat,
                        0,
                        index as int,
                    );
                    lemma_places_widen(
                        pos,
                        if fresh {
                            total as int
                        } else {
                            0
                        },
                        len_prev,
                        stack0.len() as int,
                        allocator@.len() as int,
                    );
                }
            }
            let ghost mid_table = *table;
            let ghost stack_here = allocator@;
            let ghost mid = *table.children@[index as int]->0;
            proof {
                assert(table.wf(lvl));
                assert(mid.children@ == children_of(kids0[index as int]));
                assert forall|r: int| 0 <= r < below implies #[trigger] mid.leaf((lvl - 1) as nat, r)
                    == prev.leaf(lvl, below * index + r) by {
                    lemma_div_range(below * index + r, below, index as int);
                    if prev.children@[index as int] is None {
                        lemma_empty_leaf(mid, (lvl - 1) as nat, r);
                    }
                }
            }
            let child = table.children[index].as_mut().unwrap();
            let ghost tabs_mid = tabs;
            let (k, Ghost(p), Ghost(q)) = map_in_table(
                child,
                rest_frames,
                rest_pages,
                space,
                flags,
                level - 1,
                allocator,
            );
            proof {
                pos = pos_prev + p;
                assert(allocator@ =~= stack0.take(allocator@.len() as int));
                lemma_count_update(
                    mid_table.children@,
                    table.children@,
                    (lvl - 1) as nat,
                    0,
                    index as int,
                );
                lemma_places_append(
                    pos_prev,
                    p,
                    if fresh {
                        total as int
                    } else {
                        0
                    },
                    if fresh {
                        c
                    } else {
                        0
                    },
                    allocator@.len() as int,
                    stack_here.len() as int,
                    stack0.len() as int,
                );
                assert forall|d: int| 0 <= d < c implies #[trigger] backing(
                    space,
                    rest_frames,
                    rest_pages,
                    stack_here,
                    p,
                    d,
                ) == backing(space, frames, pages, stack0, pos_prev + p, total + d) by {
                    if fresh {
                        assert((pos_prev + p)[total + d] == p[d]);
                    }
                }
                assert forall|d: int| 0 <= d < total implies #[trigger] backing(
                    space,
                    frames,
                    pages,
                    stack0,
                    pos_prev + p,
                    d,
                ) == backing(space, frames, pages, stack0, pos_prev, d) by {
                    if fresh {
                        assert((pos_prev + p)[d] == pos_prev[d]);
                    }
                }
                lemma_map_step(
                    before,
                    prev,
                    *table,
                    mid,
                    lvl,
                    index as int,
                    s0,
                    total as int,
                    inner,
                    c,
                    space,
                    frames,
                    pages,
                    rest_frames,
                    rest_pages,
                    stack0,
                    stack_here,
                    pos_prev,
                    p,
                    bits,
                );
                let low = allocator@.len() as int;
                let taken = stack0.skip(low);
                assert(stack0.take(stack0.len() as int) =~= stack0);
                lemma_pushed_stays(stack0, stack0, low, len_prev);
                lemma_pushed_stays(stack_here, stack0, low, low);
                lemma_grown_more(before, prev, lvl, bits, stack0.skip(len_prev), taken);
                lemma_grown_more(
                    mid,
                    *table.children@[index as int]->0,
                    (lvl - 1) as nat,
                    bits,
                    stack_here.skip(low),
                    taken,
                );
                if prev.children@[index as int] is None {
                    assert(taken[len_prev - 1 - low] == stack0[len_prev - 1]);
                }
                lemma_grown_step(prev, *table, mid, lvl, index as int, bits, taken);
                lemma_grown_twice(before, prev, *table, lvl, bits, taken);
                tabs = tabs_mid + q;
                let held = picked(stack0, tabs);
                lemma_places_append(
                    tabs_mid,
                    q,
                    tabs_mid.len() as int,
                    q.len() as int,
                    low,
                    stack_here.len() as int,
                    stack0.len() as int,
                );
                lemma_picked_grows(stack0, tabs_mid, q);
                lemma_picked_grows(stack0, tabs_prev, seq![len_prev - 1]);
                lemma_picked_below(stack_here, stack0, q);
                if prev.children@[index as int] is None {
                    assert(tabs_mid == tabs_prev + seq![len_prev - 1]);
                    assert(held[tabs_prev.len() as int] == stack0[len_prev - 1]);
                    crate::growth::lemma_within_chain(
                        picked(stack0, tabs_prev),
                        picked(stack0, tabs_mid),
                        held,
                    );
                } else {
                    assert(tabs_mid == tabs_prev);
                }
                lemma_grown_more(before, prev, lvl, bits, picked(stack0, tabs_prev), held);
                lemma_grown_more(
                    mid,
                    *table.children@[index as int]->0,
                    (lvl - 1) as nat,
                    bits,
                    picked(stack_here, q),
                    held,
                );
                lemma_grown_step(prev, *table, mid, lvl, index as int, bits, held);
                lemma_grown_twice(before, prev, *table, lvl, bits, held);
                assert forall|i: int, d: int|
                    0 <= i < tabs.len() && 0 <= d < pos.len() implies #[trigger] tabs[i]
                    != #[trigger] pos[d] by {
                    if i < tabs_mid.len() {
                        assert(tabs[i] == tabs_mid[i]);
                        assert(tabs[i] >= stack_here.len());
                    } else {
                        assert(tabs[i] == q[i - tabs_mid.len()]);
                        assert(tabs[i] < stack_here.len());
                    }
                    if d < pos_prev.len() {
                        assert(pos[d] == pos_prev[d]);
                        assert(pos[d] >= len_prev);
                        if i < tabs_prev.len() {
                            assert(tabs[i] == tabs_prev[i]);
                        } else if i < tabs_mid.len() {
                            assert(tabs[i] == len_prev - 1);
                        }
                    } else {
                        assert(pos[d] == p[d - pos_prev.len()]);
                        assert(pos[d] < stack_here.len());
                    }
                }
            }
            rest_pages = PageRange { start: rest_pages.start.plus(k), end: rest_pages.end };
            if rest_frames.len() > 0 {
                rest_frames = PhysFrameRange { start: rest_frames.start.plus(k), end: rest_frames.end };
            }
            total = total + k;
            index = index + 1;
            more = index < 512 && !rest_pages.is_empty();
        }
        proof {
            if firm {
                assert(table.children@[start_index as int] is Some);
                assert(table.entries()[start_index as int] != 0);
            }
        }
        (total, Ghost(pos), Ghost(tabs))
    } else {
        let count: u64 = if frames.len() > 0 {
            map_user_physical(table, frames, pages, flags)
        } else {
            match space {
                MemorySpace::Kernel => identity_map_kernel(table, pages, flags),
                MemorySpace::User => map_user(table, pages, flags, allocator),
            }
        };
        let ghost pos: Seq<int> = if fresh {
            Seq::new(count as nat, |d: int| stack0.len() - 1 - d)
        } else {
            Seq::empty()
        };
        proof {
            reveal(mapped_leaves);
            reveal(grown);
            assert(allocator@ =~= stack0.take(stack0.len() - total_need));
            if firm {
                let at = slot(number0, 1);
                let frame = backing(space, frames, pages, stack0, pos, 0);
                assert(table.entries()[at] == entry_of(frame, bits));
                lemma_frame_is_address(frame);
                lemma_entry_parts(frame, bits);
                assert(table.entries()[at] != 0);
            }
        }
        (count, Ghost(pos), Ghost(Seq::empty()))
    }
}

/// A bound on what a walk below a table of level `level` takes.
pub(crate) open spec fn need_bound(level: nat) -> nat
    decreases level,
{
    if level <= 1 {
        512
    } else {
        512 * (1 + need_bound((level - 1) as nat))
    }
}

/// The bounds of the levels up to five.
pub(crate) proof fn lemma_need_bound_values()
    ensures
        need_bound(1) == 512,
        need_bound(2) == 262656,
        need_bound(3) == 134480384,
        need_bound(4) == 68853957120,
        need_bound(5) == 35253226045952,
{
    reveal_with_fuel(need_bound, 6);
}

/// The leaves of one table take at most one frame per entry.
pub(crate) proof fn lemma_leaf_cost_bound(number: int, n: int, fresh: bool)
    ensures
        leaf_cost(number, n, fresh) <= 512,
{
    lemma_span_values();
    vstd::arithmetic::div_mod::lemma_mod_bound(number, 512);
}

/// What a walk takes stays below the bound of its level.
pub(crate) proof fn lemma_needed_bound(
    kids: Children,
    level: nat,
    j: int,
    number: int,
    n: int,
    fresh: bool,
)
    requires
        1 < level,
        0 <= j <= 512,
    ensures
        needed_from(kids, level, j, number, n, fresh) <= (512 - j) * (1 + need_bound(
            (level - 1) as nat,
        )),
    decreases level, 512 - j,
{
    let unit = 1 + need_bound((level - 1) as nat);
    if j < 512 {
        let c = taken(number, n, (level - 1) as nat);
        let under: nat = if level <= 2 {
            leaf_cost(number, n, fresh)
        } else {
            needed_from(
                children_of(kids[j]),
                (level - 1) as nat,
                table_index(number, (level - 1) as nat),
                number,
                n,
                fresh,
            )
        };
        if level <= 2 {
            lemma_leaf_cost_bound(number, n, fresh);
        } else {
            let i = table_index(number, (level - 1) as nat);
            vstd::arithmetic::div_mod::lemma_mod_bound(
                number / span((level - 2) as nat),
                512,
            );
            lemma_needed_bound(children_of(kids[j]), (level - 1) as nat, i, number, n, fresh);
            let inner_unit = 1 + need_bound((level - 2) as nat);
            assert((512 - i) * inner_unit <= 512 * inner_unit) by (nonlinear_arith)
                requires
                    0 <= i,
                    0 <= inner_unit,
            ;
        }
        assert(under <= need_bound((level - 1) as nat));
        if n - c > 0 {
            lemma_needed_bound(kids, level, j + 1, number + c, n - c, fresh);
        }
        assert((512 - j) * unit == unit + (512 - (j + 1)) * unit) by (nonlinear_arith);
        assert(0 <= (512 - (j + 1)) * unit) by (nonlinear_arith)
            requires
                j + 1 <= 512,
                0 <= unit,
        ;
    } else {
        assert((512 - j) * unit == 0) by (nonlinear_arith)
            requires
                j == 512,
        ;
    }
}

/// The children of a table of level `level` are well formed.
pub(crate) open spec fn kids_wf(kids: Children, level: nat) -> bool {
    &&& kids.len() == 512
    &&& level > 1 ==> forall|j: int|
        0 <= j < 512 && (#[trigger] kids[j]) is Some ==> kids[j]->0.wf((level - 1) as nat)
}

/// The children that a walk looks at: those of the table, none where the
/// table is absent.
pub(crate) open spec fn kids_or_none(kids: Option<&Vec<Option<Box<Node>>>>) -> Children {
    match kids {
        Some(v) => v@,
        None => Seq::new(512, |j: int| None),
    }
}

/// Counts the frames that mapping `pages` below a table of level `level`
/// takes from the allocator. `kids` holds the table's children; it is
/// nothing where the table itself is missing.
pub(crate) fn needed_in_table(
    kids: Option<&Vec<Option<Box<Node>>>>,
    pages: PageRange,
    fresh: bool,
    level: usize,
) -> (need: u64)
    requires
        1 <= level <= 5,
        kids is Some ==> kids_wf(kids->0@, level as nat),
    ensures
        need == needed_below(
            kids_or_none(kids),
            level as nat,
            pages.start.number(),
            pages.count(),
            fresh,
        ),
        need <= need_bound(level as nat),
    decreases level,
{
    let ghost lvl = level as nat;
    let ghost number0 = pages.start.number();
    let ghost n0 = pages.count();
    let ghost all = kids_or_none(kids);
    let start_addr: u64 = pages.start.start_address();
    let end_addr: u64 = pages.end.start_address();
    proof {
        lemma_span_values();
        lemma_need_bound_values();
        lemma_slot_parts(number0, lvl);
    }
    if level > 1 {
        let below_pages: u64 = crate::layout::span_of(level - 1);
        let start_index: usize = page_table_index(start_addr, level);
        let mut index: usize = start_index;
        let mut total: u64 = 0;
        let mut need: u64 = 0;
        let mut rest_pages: PageRange = pages;
        let mut more: bool = true;
        proof {
            lemma_needed_bound(all, lvl, start_index as int, number0, n0, fresh);
            assert((512 - start_index) * (1 + need_bound((lvl - 1) as nat)) <= 512 * (1
                + need_bound((lvl - 1) as nat))) by (nonlinear_arith)
                requires
                    0 <= start_index,
            ;
        }
        while more
            invariant
                1 < level <= 5,
                lvl == level as nat,
                below_pages == span((level - 1) as nat),
                all == kids_or_none(kids),
                kids is Some ==> kids_wf(kids->0@, lvl),
                number0 == pages.start.number(),
                n0 == pages.count(),
                number0 >= 0,
                n0 >= 0,
                pages.start.addr() % 4096 == 0,
                pages.end.addr() % 4096 == 0,
                0 <= total <= n0,
                index <= 512,
                rest_pages.end == pages.end,
                rest_pages.start.addr() == pages.start.addr() + 4096 * total,
                more ==> index < 512 && slot(number0 + total, lvl) == slot(number0, lvl) + total
                    && table_index(number0 + total, lvl) == index && (n0 > 0 ==> total < n0),
                need + (if more {
                    needed_from(all, lvl, index as int, number0 + total, n0 - total, fresh)
                } else {
                    0
                }) == needed_from(all, lvl, start_index as int, number0, n0, fresh),
                needed_from(all, lvl, start_index as int, number0, n0, fresh) <= need_bound(lvl),
                need_bound(lvl) <= 35253226045952,
            decreases 512 - index,
        {
            let ghost number = number0 + total;
            let ghost n = n0 - total;
            proof {
                lemma_walk_advance(number0, n0, lvl, index as int, total as int);
                lemma_needed_step(all, lvl, index as int, number, n, fresh);
                assert(rest_pages.start.number() == number);
                assert(rest_pages.count() == n);
            }
            let child: Option<&Vec<Option<Box<Node>>>> = match kids {
                Some(v) => match &v[index] {
                    Some(node) => Some(&node.children),
                    None => None,
                },
                None => None,
            };
            proof {
                assert(kids_or_none(child) =~= children_of(all[index as int]));
                assert(child is Some == all[index as int] is Some);
            }
            if child.is_none() {
                need = need + 1;
            }
            let under: u64 = needed_in_table(child, rest_pages, fresh, level - 1);
            need = need + under;
            let left: u64 = rest_pages.len();
            let inner_pages: u64 = (rest_pages.start.start_address() / 4096) % below_pages;
            let room: u64 = below_pages - inner_pages;
            let k: u64 = if left < room {
                left
            } else {
                room
            };
            rest_pages = PageRange { start: rest_pages.start.plus(k), end: rest_pages.end };
            total = total + k;
            index = index + 1;
            more = index < 512 && !rest_pages.is_empty();
        }
        need
    } else {
        if fresh {
            let start_index: usize = page_table_index(start_addr, 1);
            let left: u64 = pages.len();
            let room: u64 = (512 - start_index) as u64;
            if left < room {
                left
            } else {
                room
            }
        } else {
            0
        }
    }
}

} // verus!
