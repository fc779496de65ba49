//! What the leaves of a tree say about its tables.

use vstd::prelude::*;
use crate::layout::{lemma_div_range, lemma_span_positive, lemma_span_values, span};
use crate::tree::{count_from, Node};

verus! {

/// Whether a table of level `target` stands on the way from a table of level
/// `level` down to its slot `t`.
pub(crate) open spec fn reaches(node: Node, level: nat, target: nat, t: int) -> bool
    decreases level,
{
    if level <= target || level <= 1 {
        level == target
    } else {
        match node.children@[t / span((level - 1) as nat)] {
            Some(c) => reaches(*c, (level - 1) as nat, target, t % span((level - 1) as nat)),
            None => false,
        }
    }
}

/// A slot of a table of level `level` lies below one of its 512 entries.
pub(crate) proof fn lemma_slot_entry(t: int, level: nat)
    requires
        level >= 1,
        0 <= t < span(level),
    ensures
        0 <= t / span((level - 1) as nat) < 512,
        0 <= t % span((level - 1) as nat) < span((level - 1) as nat),
        t == span((level - 1) as nat) * (t / span((level - 1) as nat)) + t % span(
            (level - 1) as nat,
        ),
{
    let below = span((level - 1) as nat);
    lemma_span_positive((level - 1) as nat);
    let q = t / below;
    lemma_div_range(t, below, q);
    assert(0 <= q < 512) by (nonlinear_arith)
        requires
            below > 0,
            0 <= t < 512 * below,
            below * q <= t < below * q + below,
    ;
}

/// The slot `r` below the entry `j` of a table of level `level`.
pub(crate) proof fn lemma_entry_slot(j: int, r: int, level: nat)
    requires
        level >= 1,
        0 <= j < 512,
        0 <= r < span((level - 1) as nat),
    ensures
        0 <= span((level - 1) as nat) * j + r < span(level),
        (span((level - 1) as nat) * j + r) / span((level - 1) as nat) == j,
        (span((level - 1) as nat) * j + r) % span((level - 1) as nat) == r,
{
    let below = span((level - 1) as nat);
    lemma_span_positive((level - 1) as nat);
    lemma_div_range(below * j + r, below, j);
    assert(0 <= below * j && below * j + below <= 512 * below) by (nonlinear_arith)
        requires
            below > 0,
            0 <= j < 512,
    ;
}

/// In a tree without empty tables, a table with a used entry has a used
/// leaf. Returns the slot of one.
pub(crate) proof fn lemma_used_has_leaf(node: Node, level: nat) -> (r: int)
    requires
        node.wf(level),
        node.tight(level),
        node.used(),
    ensures
        0 <= r < span(level),
        node.leaf(level, r) != 0,
    decreases level,
{
    let k = choose|k: int| 0 <= k < 512 && #[trigger] node.entries()[k] != 0;
    if level <= 1 {
        assert(span(1) == 512) by {
            lemma_span_values();
        }
        k
    } else {
        assert(node.children@[k] is Some);
        let child = *node.children@[k]->0;
        let below = lemma_used_has_leaf(child, (level - 1) as nat);
        lemma_entry_slot(k, below, level);
        span((level - 1) as nat) * k + below
    }
}

/// Two trees without empty tables that have the same leaves have the same
/// number of tables.
pub(crate) proof fn lemma_same_leaves_same_count(a: Node, b: Node, level: nat)
    requires
        a.wf(level),
        b.wf(level),
        a.tight(level),
        b.tight(level),
        forall|t: int| 0 <= t < span(level) ==> #[trigger] a.leaf(level, t) == b.leaf(level, t),
    ensures
        a.count(level) == b.count(level),
    decreases level, 514nat,
{
    if level > 1 {
        lemma_same_kids_same_count(a, b, level, 0);
    }
}

/// The tables below the entries from `j` on are as many in both trees.
pub(crate) proof fn lemma_same_kids_same_count(a: Node, b: Node, level: nat, j: int)
    requires
        level > 1,
        0 <= j <= 512,
        a.wf(level),
        b.wf(level),
        a.tight(level),
        b.tight(level),
        forall|t: int| 0 <= t < span(level) ==> #[trigger] a.leaf(level, t) == b.leaf(level, t),
    ensures
        count_from(a.children@, (level - 1) as nat, j) == count_from(
            b.children@,
            (level - 1) as nat,
            j,
        ),
    decreases level, 513 - j,
{
    if j < 512 {
        lemma_same_kids_same_count(a, b, level, j + 1);
        let below = span((level - 1) as nat);
        if a.children@[j] is Some {
            let child = *a.children@[j]->0;
            let r = lemma_used_has_leaf(child, (level - 1) as nat);
            lemma_entry_slot(j, r, level);
            assert(a.leaf(level, below * j + r) == child.leaf((level - 1) as nat, r));
            assert(b.leaf(level, below * j + r) != 0);
            assert(b.children@[j] is Some);
        }
        if b.children@[j] is Some {
            let child = *b.children@[j]->0;
            let r = lemma_used_has_leaf(child, (level - 1) as nat);
            lemma_entry_slot(j, r, level);
            assert(b.leaf(level, below * j + r) == child.leaf((level - 1) as nat, r));
            assert(a.leaf(level, below * j + r) != 0);
            assert(a.children@[j] is Some);
        }
        if a.children@[j] is Some {
            let x = *a.children@[j]->0;
            let y = *b.children@[j]->0;
            assert forall|r: int| 0 <= r < span((level - 1) as nat) implies #[trigger] x.leaf(
                (level - 1) as nat,
                r,
            ) == y.leaf((level - 1) as nat, r) by {
                lemma_entry_slot(j, r, level);
                assert(a.leaf(level, below * j + r) == x.leaf((level - 1) as nat, r));
                assert(b.leaf(level, below * j + r) == y.leaf((level - 1) as nat, r));
            }
            lemma_same_leaves_same_count(x, y, (level - 1) as nat);
        }
    }
}

/// In a tree without empty tables, below every table that stands on the way
/// to a slot lies a used leaf. Returns the slot of one.
pub(crate) proof fn lemma_table_has_leaf(node: Node, level: nat, target: nat, t: int) -> (u: int)
    requires
        node.wf(level),
        node.tight(level),
        1 <= target < level,
        0 <= t < span(level),
        reaches(node, level, target, t),
    ensures
        0 <= u < span(level),
        u / span(target) == t / span(target),
        node.leaf(level, u) != 0,
    decreases level,
{
    let below = span((level - 1) as nat);
    lemma_slot_entry(t, level);
    let j = t / below;
    let child = *node.children@[j]->0;
    if level - 1 == target {
        let r = lemma_used_has_leaf(child, target);
        lemma_entry_slot(j, r, level);
        below * j + r
    } else {
        let r = lemma_table_has_leaf(child, (level - 1) as nat, target, t % below);
        lemma_entry_slot(j, r, level);
        let u = below * j + r;
        lemma_same_table(u, t, r, t % below, j, (level - 1) as nat, target);
        u
    }
}

/// Two slots below the same entry that lie in the same table one level down
/// lie in the same table seen from above.
pub(crate) proof fn lemma_same_table(
    u: int,
    t: int,
    ur: int,
    tr: int,
    j: int,
    level: nat,
    target: nat,
)
    requires
        1 <= target <= level,
        0 <= j,
        0 <= ur < span(level),
        0 <= tr < span(level),
        u == span(level) * j + ur,
        t == span(level) * j + tr,
        ur / span(target) == tr / span(target),
    ensures
        u / span(target) == t / span(target),
{
    let big = span(level);
    let small = span(target);
    lemma_span_positive(target);
    lemma_span_positive(level);
    lemma_span_multiple(level, target);
    let m = big / small;
    let q = ur / small;
    lemma_div_range(ur, small, q);
    lemma_div_range(tr, small, q);
    assert(big * j == small * (m * j)) by (nonlinear_arith)
        requires
            big == small * m,
    ;
    assert(small * (m * j + q) == small * (m * j) + small * q) by (nonlinear_arith);
    lemma_div_range(u, small, m * j + q);
    lemma_div_range(t, small, m * j + q);
}

/// The span of a level is a multiple of the span of each level below it.
pub(crate) proof fn lemma_span_multiple(level: nat, target: nat)
    requires
        target <= level,
    ensures
        span(level) == span(target) * (span(level) / span(target)),
        span(level) / span(target) >= 1,
    decreases level - target,
{
    lemma_span_positive(target);
    if level == target {
        assert(span(level) / span(target) == 1) by {
            vstd::arithmetic::div_mod::lemma_div_by_self(span(target));
        }
    } else {
        lemma_span_multiple((level - 1) as nat, target);
        let s = span(target);
        let m = span((level - 1) as nat) / s;
        assert(span(level) == s * (512 * m)) by (nonlinear_arith)
            requires
                span(level) == 512 * span((level - 1) as nat),
                span((level - 1) as nat) == s * m,
        ;
        lemma_div_range(span(level), s, 512 * m);
    }
}

/// A table of level `target` stands on the way to a slot exactly where the
/// entry one level up on that way is used.
pub(crate) proof fn lemma_reaches_entry(node: Node, level: nat, target: nat, t: int)
    requires
        node.wf(level),
        1 <= target < level,
        0 <= t < span(level),
    ensures
        reaches(node, level, target, t) <==> node.entry_at(level, (target + 1) as nat, t) != 0,
    decreases level,
{
    let below = span((level - 1) as nat);
    lemma_slot_entry(t, level);
    let j = t / below;
    if level - 1 > target {
        if node.children@[j] is Some {
            lemma_reaches_entry(*node.children@[j]->0, (level - 1) as nat, target, t % below);
        }
    } else {
        if node.children@[j] is Some {
            assert(reaches(*node.children@[j]->0, target, target, t % below));
        }
    }
}

/// On the way to a used leaf stands a table of every level.
pub(crate) proof fn lemma_leaf_reaches(node: Node, level: nat, target: nat, t: int)
    requires
        1 <= target < level,
        0 <= t < span(level),
        node.leaf(level, t) != 0,
    ensures
        reaches(node, level, target, t),
    decreases level,
{
    let below = span((level - 1) as nat);
    lemma_slot_entry(t, level);
    let j = t / below;
    assert(node.children@[j] is Some);
    if level - 1 > target {
        lemma_leaf_reaches(*node.children@[j]->0, (level - 1) as nat, target, t % below);
    } else {
        assert(reaches(*node.children@[j]->0, target, target, t % below));
    }
}

} // verus!
