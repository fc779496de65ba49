//! How the entries that point to tables change when a tree grows, is copied
//! or shrinks.

use vstd::prelude::*;
use crate::entry::{entry_bits, entry_frame, lemma_entry_frame_is_frame};
use crate::layout::{span, lemma_span_positive};
use crate::shape::lemma_slot_entry;
use crate::tree::Node;

verus! {

/// Every entry that points to a table in `after` is the entry of `before`
/// or, where `before` had none, a new entry with a frame from among `taken`
/// and the flag bits `bits`.
#[verifier::opaque]
pub(crate) open spec fn grown(
    before: Node,
    after: Node,
    level: nat,
    bits: u64,
    taken: Seq<u64>,
) -> bool {
    forall|target: nat, t: int|
        2 <= target <= level && 0 <= t < span(level) ==> {
            let b = before.entry_at(level, target, t);
            let a = #[trigger] after.entry_at(level, target, t);
            a == b || (b == 0 && entry_bits(a) == bits && entry_frame(a) != 0 && taken.contains(
                entry_frame(a),
            ))
        }
}

/// Every entry that points to a table in `copy` has the flag bits of the
/// entry of `source`, and a frame where that one has a frame.
#[verifier::opaque]
pub(crate) open spec fn alike(source: Node, copy: Node, level: nat) -> bool {
    forall|target: nat, t: int|
        2 <= target <= level && 0 <= t < span(level) ==> {
            let b = source.entry_at(level, target, t);
            let a = #[trigger] copy.entry_at(level, target, t);
            entry_bits(a) == entry_bits(b) && (entry_frame(a) != 0) == (entry_frame(b) != 0) && (a
                != 0) == (b != 0)
        }
}

/// Every entry that points to a table in `after` is the entry of `before`,
/// or it is gone and its frame is among `pushed`.
#[verifier::opaque]
pub(crate) open spec fn shrunk(before: Node, after: Node, level: nat, pushed: Seq<u64>) -> bool {
    forall|target: nat, t: int|
        2 <= target <= level && 0 <= t < span(level) ==> {
            let b = before.entry_at(level, target, t);
            let a = #[trigger] after.entry_at(level, target, t);
            a == b || (a == 0 && pushed.contains(entry_frame(b)))
        }
}

/// Whatever is among `some` is among `all`.
pub open spec fn within(some: Seq<u64>, all: Seq<u64>) -> bool {
    forall|x: u64| some.contains(x) ==> #[trigger] all.contains(x)
}

/// The frames that stand on `stack` at the places `tabs`.
pub open spec fn picked(stack: Seq<u64>, tabs: Seq<int>) -> Seq<u64> {
    Seq::new(tabs.len(), |i: int| stack[tabs[i]])
}

/// No place of `tabs` is a place of `pos`.
pub open spec fn apart(tabs: Seq<int>, pos: Seq<int>) -> bool {
    forall|i: int, d: int|
        0 <= i < tabs.len() && 0 <= d < pos.len() ==> #[trigger] tabs[i] != #[trigger] pos[d]
}

/// The frames at some places are among the frames at these and more places.
pub proof fn lemma_picked_grows(stack: Seq<u64>, a: Seq<int>, b: Seq<int>)
    ensures
        within(picked(stack, a), picked(stack, a + b)),
        within(picked(stack, b), picked(stack, a + b)),
{
    let all = picked(stack, a + b);
    assert forall|x: u64| picked(stack, a).contains(x) implies #[trigger] all.contains(x) by {
        let i = choose|i: int| 0 <= i < picked(stack, a).len() && picked(stack, a)[i] == x;
        assert((a + b)[i] == a[i]);
        assert(all[i] == x);
    }
    assert forall|x: u64| picked(stack, b).contains(x) implies #[trigger] all.contains(x) by {
        let i = choose|i: int| 0 <= i < picked(stack, b).len() && picked(stack, b)[i] == x;
        assert((a + b)[a.len() + i] == b[i]);
        assert(all[a.len() + i] == x);
    }
}

/// The frames at places of the lower part of a stack are the same on the
/// whole stack.
pub proof fn lemma_picked_below(part: Seq<u64>, stack: Seq<u64>, tabs: Seq<int>)
    requires
        part.len() <= stack.len(),
        stack.take(part.len() as int) == part,
        forall|i: int| 0 <= i < tabs.len() ==> 0 <= #[trigger] tabs[i] < part.len(),
    ensures
        picked(part, tabs) == picked(stack, tabs),
{
    assert forall|i: int| 0 <= i < tabs.len() implies picked(part, tabs)[i] == picked(
        stack,
        tabs,
    )[i] by {
        assert(stack.take(part.len() as int)[tabs[i]] == stack[tabs[i]]);
    }
    assert(picked(part, tabs) =~= picked(stack, tabs));
}

/// The frames at places from `low` on are among the frames of the stack
/// from `low` on.
pub proof fn lemma_picked_in_skip(stack: Seq<u64>, tabs: Seq<int>, low: int)
    requires
        0 <= low,
        forall|i: int| 0 <= i < tabs.len() ==> low <= #[trigger] tabs[i] < stack.len(),
    ensures
        within(picked(stack, tabs), stack.skip(low)),
{
    assert forall|x: u64| picked(stack, tabs).contains(x) implies #[trigger] stack.skip(
        low,
    ).contains(x) by {
        let i = choose|i: int| 0 <= i < picked(stack, tabs).len() && picked(stack, tabs)[i] == x;
        assert(stack.skip(low)[tabs[i] - low] == x);
    }
}

/// A stack that grew from a stack that grew still starts with the first.
pub proof fn lemma_prefix_stays(first: Seq<u64>, mid: Seq<u64>, late: Seq<u64>)
    requires
        first.len() <= mid.len() <= late.len(),
        mid.take(first.len() as int) == first,
        late.take(mid.len() as int) == mid,
    ensures
        late.take(first.len() as int) == first,
{
    assert(late.take(mid.len() as int).take(first.len() as int) =~= late.take(
        first.len() as int,
    ));
}

/// What was pushed on a stack stays there while the stack grows: seen from
/// the same depth the later stack holds what the earlier held, and what it
/// holds from higher up.
pub proof fn lemma_pushed_stays(early: Seq<u64>, late: Seq<u64>, base: int, from: int)
    requires
        0 <= base <= from <= late.len(),
        base <= early.len() <= late.len(),
        late.take(early.len() as int) == early,
    ensures
        within(early.skip(base), late.skip(base)),
        within(late.skip(from), late.skip(base)),
{
    assert forall|x: u64| early.skip(base).contains(x) implies #[trigger] late.skip(base).contains(
        x,
    ) by {
        let i = choose|i: int| 0 <= i < early.skip(base).len() && early.skip(base)[i] == x;
        assert(late.take(early.len() as int)[base + i] == late[base + i]);
        assert(late.skip(base)[i] == x);
    }
    assert forall|x: u64| late.skip(from).contains(x) implies #[trigger] late.skip(base).contains(
        x,
    ) by {
        let i = choose|i: int| 0 <= i < late.skip(from).len() && late.skip(from)[i] == x;
        assert(late.skip(base)[from - base + i] == x);
    }
}

/// A table without used entry and without child has no entry on any way.
pub(crate) proof fn lemma_empty_entry(node: Node, level: nat, target: nat, t: int)
    requires
        level >= 1,
        0 <= t < span(level),
        node.entries() == Seq::new(512, |j: int| 0u64),
        node.children@ == Seq::new(512, |j: int| None::<Box<Node>>),
    ensures
        node.entry_at(level, target, t) == 0,
{
    lemma_slot_entry(t, level);
}

/// A tree has grown from itself.
pub(crate) proof fn lemma_grown_same(
    node: Node,
    other: Node,
    level: nat,
    bits: u64,
    taken: Seq<u64>,
)
    requires
        forall|target: nat, t: int|
            2 <= target <= level && 0 <= t < span(level) ==> #[trigger] other.entry_at(
                level,
                target,
                t,
            ) == node.entry_at(level, target, t),
    ensures
        grown(node, other, level, bits, taken),
{
    reveal(grown);
}

/// A tree that has grown with some frames taken has grown with more frames
/// taken.
pub(crate) proof fn lemma_grown_more(
    before: Node,
    after: Node,
    level: nat,
    bits: u64,
    taken: Seq<u64>,
    more: Seq<u64>,
)
    requires
        grown(before, after, level, bits, taken),
        within(taken, more),
    ensures
        grown(before, after, level, bits, more),
{
    reveal(grown);
    assert forall|target: nat, t: int| 2 <= target <= level && 0 <= t < span(level) implies {
        let b = before.entry_at(level, target, t);
        let a = #[trigger] after.entry_at(level, target, t);
        a == b || (b == 0 && entry_bits(a) == bits && entry_frame(a) != 0 && more.contains(
            entry_frame(a),
        ))
    } by {
        let a = after.entry_at(level, target, t);
        if a != before.entry_at(level, target, t) {
            assert(taken.contains(entry_frame(a)));
        }
    }
}

/// Growing twice is growing.
pub(crate) proof fn lemma_grown_twice(
    a: Node,
    b: Node,
    c: Node,
    level: nat,
    bits: u64,
    taken: Seq<u64>,
)
    requires
        grown(a, b, level, bits, taken),
        grown(b, c, level, bits, taken),
    ensures
        grown(a, c, level, bits, taken),
{
    reveal(grown);
    assert forall|target: nat, t: int| 2 <= target <= level && 0 <= t < span(level) implies {
        let x = a.entry_at(level, target, t);
        let z = #[trigger] c.entry_at(level, target, t);
        z == x || (x == 0 && entry_bits(z) == bits && entry_frame(z) != 0 && taken.contains(
            entry_frame(z),
        ))
    } by {
        let y = b.entry_at(level, target, t);
        lemma_entry_frame_is_frame(y);
    }
}

/// One step of a growing walk at a level above 1: the child at `index` has
/// grown from `mid`, which stood there before or is a table made for the
/// walk.
pub(crate) proof fn lemma_grown_step(
    prev: Node,
    cur: Node,
    mid: Node,
    level: nat,
    index: int,
    bits: u64,
    taken: Seq<u64>,
)
    requires
        1 < level <= 5,
        0 <= index < 512,
        forall|q: int|
            0 <= q < 512 && q != index ==> #[trigger] cur.children@[q] == prev.children@[q],
        forall|q: int|
            0 <= q < 512 && q != index ==> #[trigger] cur.entries()[q] == prev.entries()[q],
        cur.children@[index] is Some,
        grown(mid, *cur.children@[index]->0, (level - 1) as nat, bits, taken),
        prev.children@[index] is Some ==> *prev.children@[index]->0 == mid && cur.entries()[index]
            == prev.entries()[index],
        prev.children@[index] is None ==> {
            &&& prev.entries()[index] == 0
            &&& entry_bits(cur.entries()[index]) == bits
            &&& entry_frame(cur.entries()[index]) != 0
            &&& taken.contains(entry_frame(cur.entries()[index]))
            &&& mid.entries() == Seq::new(512, |j: int| 0u64)
            &&& mid.children@ == Seq::new(512, |j: int| None::<Box<Node>>)
        },
    ensures
        grown(prev, cur, level, bits, taken),
{
    reveal(grown);
    let below = span((level - 1) as nat);
    let child = *cur.children@[index]->0;
    assert forall|target: nat, t: int| 2 <= target <= level && 0 <= t < span(level) implies {
        let b = prev.entry_at(level, target, t);
        let a = #[trigger] cur.entry_at(level, target, t);
        a == b || (b == 0 && entry_bits(a) == bits && entry_frame(a) != 0 && taken.contains(
            entry_frame(a),
        ))
    } by {
        lemma_slot_entry(t, level);
        let q = t / below;
        let r = t % below;
        if target < level {
            if q == index {
                assert(cur.entry_at(level, target, t) == child.entry_at(
                    (level - 1) as nat,
                    target,
                    r,
                ));
                let under = mid.entry_at((level - 1) as nat, target, r);
                if prev.children@[index] is None {
                    lemma_empty_entry(mid, (level - 1) as nat, target, r);
                    assert(prev.entry_at(level, target, t) == 0);
                } else {
                    assert(prev.entry_at(level, target, t) == under);
                }
            } else {
                assert(cur.children@[q] == prev.children@[q]);
                assert(cur.entry_at(level, target, t) == prev.entry_at(level, target, t));
            }
        } else {
            assert(cur.entry_at(level, target, t) == cur.entries()[q]);
            assert(prev.entry_at(level, target, t) == prev.entries()[q]);
        }
    }
}

/// One step of a copy at a level above 1: the child at `index` is a copy.
pub(crate) proof fn lemma_alike_step(source: Node, cur: Node, level: nat)
    requires
        1 < level <= 5,
        forall|q: int|
            0 <= q < 512 ==> {
                &&& entry_bits(#[trigger] cur.entries()[q]) == entry_bits(source.entries()[q])
                &&& (entry_frame(cur.entries()[q]) != 0) == (entry_frame(source.entries()[q]) != 0)
                &&& (cur.entries()[q] != 0) == (source.entries()[q] != 0)
                &&& cur.children@[q] is Some == source.children@[q] is Some
                &&& cur.children@[q] is Some ==> alike(
                    *source.children@[q]->0,
                    *cur.children@[q]->0,
                    (level - 1) as nat,
                )
            },
    ensures
        alike(source, cur, level),
{
    reveal(alike);
    let below = span((level - 1) as nat);
    assert forall|target: nat, t: int| 2 <= target <= level && 0 <= t < span(level) implies {
        let b = source.entry_at(level, target, t);
        let a = #[trigger] cur.entry_at(level, target, t);
        entry_bits(a) == entry_bits(b) && (entry_frame(a) != 0) == (entry_frame(b) != 0) && (a
            != 0) == (b != 0)
    } by {
        lemma_slot_entry(t, level);
        let q = t / below;
        let r = t % below;
        assert(entry_bits(cur.entries()[q]) == entry_bits(source.entries()[q]));
        if target < level {
            if cur.children@[q] is Some {
                assert(cur.entry_at(level, target, t) == cur.children@[q]->0.entry_at(
                    (level - 1) as nat,
                    target,
                    r,
                ));
                assert(source.entry_at(level, target, t) == source.children@[q]->0.entry_at(
                    (level - 1) as nat,
                    target,
                    r,
                ));
            } else {
                assert(cur.entry_at(level, target, t) == 0);
                assert(source.entry_at(level, target, t) == 0);
                assert(0u64 & crate::units::FLAG_MASK == 0 && 0u64 & crate::units::ADDR_MASK == 0)
                    by (bit_vector);
            }
        } else {
            assert(cur.entry_at(level, target, t) == cur.entries()[q]);
            assert(source.entry_at(level, target, t) == source.entries()[q]);
        }
    }
}

/// What is within a part is within the whole.
pub proof fn lemma_within_chain(a: Seq<u64>, b: Seq<u64>, c: Seq<u64>)
    requires
        within(a, b),
        within(b, c),
    ensures
        within(a, c),
{
    assert forall|x: u64| a.contains(x) implies #[trigger] c.contains(x) by {
        assert(b.contains(x));
    }
}

/// A tree that has shrunk with some frames pushed has shrunk with more
/// frames pushed.
pub(crate) proof fn lemma_shrunk_more(
    before: Node,
    after: Node,
    level: nat,
    pushed: Seq<u64>,
    more: Seq<u64>,
)
    requires
        shrunk(before, after, level, pushed),
        within(pushed, more),
    ensures
        shrunk(before, after, level, more),
{
    reveal(shrunk);
    assert forall|target: nat, t: int| 2 <= target <= level && 0 <= t < span(level) implies {
        let b = before.entry_at(level, target, t);
        let a = #[trigger] after.entry_at(level, target, t);
        a == b || (a == 0 && more.contains(entry_frame(b)))
    } by {
        let b = before.entry_at(level, target, t);
        if after.entry_at(level, target, t) != b {
            assert(pushed.contains(entry_frame(b)));
        }
    }
}

/// A well-formed table without a used entry has no entry on any way.
pub(crate) proof fn lemma_unused_entry(node: Node, level: nat, target: nat, t: int)
    requires
        node.wf(level),
        !node.used(),
        0 <= t < span(level),
    ensures
        node.entry_at(level, target, t) == 0,
{
    lemma_slot_entry(t, level);
    let q = t / span((level - 1) as nat);
    assert(node.entries()[q] == 0);
    if level > 1 {
        assert(node.children@[q] is None);
    }
}

/// A tree has shrunk from itself.
pub(crate) proof fn lemma_shrunk_same(node: Node, other: Node, level: nat, pushed: Seq<u64>)
    requires
        forall|target: nat, t: int|
            2 <= target <= level && 0 <= t < span(level) ==> #[trigger] other.entry_at(
                level,
                target,
                t,
            ) == node.entry_at(level, target, t),
    ensures
        shrunk(node, other, level, pushed),
{
    reveal(shrunk);
}

/// Shrinking twice is shrinking.
pub(crate) proof fn lemma_shrunk_twice(
    a: Node,
    b: Node,
    c: Node,
    level: nat,
    first: Seq<u64>,
    second: Seq<u64>,
    pushed: Seq<u64>,
)
    requires
        shrunk(a, b, level, first),
        shrunk(b, c, level, second),
        within(first, pushed),
        within(second, pushed),
    ensures
        shrunk(a, c, level, pushed),
{
    reveal(shrunk);
    assert forall|target: nat, t: int| 2 <= target <= level && 0 <= t < span(level) implies {
        let x = a.entry_at(level, target, t);
        let z = #[trigger] c.entry_at(level, target, t);
        z == x || (z == 0 && pushed.contains(entry_frame(x)))
    } by {
        let x = a.entry_at(level, target, t);
        let y = b.entry_at(level, target, t);
        let z = c.entry_at(level, target, t);
        if y != x {
            assert(first.contains(entry_frame(x)));
        }
        if z != y {
            assert(second.contains(entry_frame(y)));
        }
    }
}

/// One step of a shrinking walk at a level above 1: the child at `index`
/// has shrunk to `now`, and either still stands or is gone with its entry,
/// its frame pushed.
pub(crate) proof fn lemma_shrunk_step(
    prev: Node,
    cur: Node,
    now: Node,
    level: nat,
    index: int,
    pushed: Seq<u64>,
)
    requires
        1 < level <= 5,
        0 <= index < 512,
        forall|q: int|
            0 <= q < 512 && q != index ==> #[trigger] cur.children@[q] == prev.children@[q],
        forall|q: int|
            0 <= q < 512 && q != index ==> #[trigger] cur.entries()[q] == prev.entries()[q],
        prev.children@[index] is None ==> cur.children@[index] is None && cur.entries()[index]
            == prev.entries()[index],
        prev.children@[index] is Some ==> shrunk(
            *prev.children@[index]->0,
            now,
            (level - 1) as nat,
            pushed,
        ),
        prev.children@[index] is Some && cur.children@[index] is Some ==> *cur.children@[index]->0
            == now && cur.entries()[index] == prev.entries()[index],
        prev.children@[index] is Some && cur.children@[index] is None ==> {
            &&& now.wf((level - 1) as nat)
            &&& !now.used()
            &&& cur.entries()[index] == 0
            &&& pushed.contains(entry_frame(prev.entries()[index]))
        },
    ensures
        shrunk(prev, cur, level, pushed),
{
    reveal(shrunk);
    let below = span((level - 1) as nat);
    assert forall|target: nat, t: int| 2 <= target <= level && 0 <= t < span(level) implies {
        let b = prev.entry_at(level, target, t);
        let a = #[trigger] cur.entry_at(level, target, t);
        a == b || (a == 0 && pushed.contains(entry_frame(b)))
    } by {
        lemma_slot_entry(t, level);
        let q = t / below;
        let r = t % below;
        if target < level {
            if q == index {
                if prev.children@[index] is Some {
                    let under = prev.children@[index]->0.entry_at((level - 1) as nat, target, r);
                    assert(prev.entry_at(level, target, t) == under);
                    let left = now.entry_at((level - 1) as nat, target, r);
                    assert(left == under || (left == 0 && pushed.contains(entry_frame(under))));
                    if cur.children@[index] is Some {
                        assert(cur.entry_at(level, target, t) == left);
                    } else {
                        lemma_unused_entry(now, (level - 1) as nat, target, r);
                        assert(cur.entry_at(level, target, t) == 0);
                    }
                } else {
                    assert(cur.entry_at(level, target, t) == 0);
                    assert(prev.entry_at(level, target, t) == 0);
                }
            } else {
                assert(cur.children@[q] == prev.children@[q]);
                assert(cur.entry_at(level, target, t) == prev.entry_at(level, target, t));
            }
        } else {
            assert(cur.entry_at(level, target, t) == cur.entries()[q]);
            assert(prev.entry_at(level, target, t) == prev.entries()[q]);
        }
    }
}

/// The frame of every entry that points to a table below the entries
/// before `done` is among `frames`.
#[verifier::opaque]
pub(crate) open spec fn among(node: Node, level: nat, done: int, frames: Seq<u64>) -> bool {
    forall|target: nat, t: int|
        2 <= target <= level && 0 <= t < span(level) && t < span((level - 1) as nat) * done ==> {
            let e = #[trigger] node.entry_at(level, target, t);
            e != 0 ==> frames.contains(entry_frame(e))
        }
}

/// One step of a walk over all entries at a level above 1: the frames of
/// the tables below the entry `index`, and of the table that the entry
/// points to, are among `frames`.
pub(crate) proof fn lemma_among_step(
    prev: Node,
    cur: Node,
    level: nat,
    index: int,
    earlier: Seq<u64>,
    below_frames: Seq<u64>,
    frames: Seq<u64>,
)
    requires
        1 < level <= 5,
        0 <= index < 512,
        among(prev, level, index, earlier),
        forall|q: int|
            0 <= q < 512 && q != index ==> #[trigger] cur.children@[q] == prev.children@[q],
        forall|q: int|
            0 <= q < 512 && q != index ==> #[trigger] cur.entries()[q] == prev.entries()[q],
        within(earlier, frames),
        within(below_frames, frames),
        cur.children@[index] is Some ==> {
            &&& among(*cur.children@[index]->0, (level - 1) as nat, 512, below_frames)
            &&& frames.contains(entry_frame(cur.entries()[index]))
        },
        cur.children@[index] is None ==> cur.entries()[index] == 0,
    ensures
        among(cur, level, index + 1, frames),
{
    reveal(among);
    let below = span((level - 1) as nat);
    lemma_span_positive((level - 1) as nat);
    assert(below * (index + 1) == below * index + below) by (nonlinear_arith);
    assert forall|target: nat, t: int|
        2 <= target <= level && 0 <= t < span(level) && t < below * (index + 1) implies {
        let e = #[trigger] cur.entry_at(level, target, t);
        e != 0 ==> frames.contains(entry_frame(e))
    } by {
        let e = cur.entry_at(level, target, t);
        lemma_slot_entry(t, level);
        let q = t / below;
        let r = t % below;
        crate::layout::lemma_div_range(t, below, index);
        if t < below * index {
            assert(q != index);
            if target < level {
                assert(cur.children@[q] == prev.children@[q]);
            } else {
                assert(cur.entries()[q] == prev.entries()[q]);
            }
            assert(e == prev.entry_at(level, target, t));
            if e != 0 {
                assert(earlier.contains(entry_frame(e)));
            }
        } else {
            assert(q == index);
            if target < level {
                if cur.children@[index] is Some {
                    let child = *cur.children@[index]->0;
                    assert(e == child.entry_at((level - 1) as nat, target, r));
                    assert(span((level - 1) as nat) == span((level - 2) as nat) * 512);
                    if e != 0 {
                        assert(below_frames.contains(entry_frame(e)));
                    }
                }
            } else {
                assert(e == cur.entries()[index]);
            }
        }
    }
}

} // verus!
