//! How many frames a mapping takes: in a space without tables, and in a
//! space where all tables stand already.

use vstd::prelude::*;
use crate::layout::{
    lemma_div_range,
    lemma_mod_advance,
    lemma_slot_parts,
    lemma_span_positive,
    lemma_span_values,
    slot,
    span,
    table_index,
};
use crate::mapping::{leaf_cost, leaf_cost_at, lemma_walk_advance, needed_from};
use crate::shape::{lemma_entry_slot, reaches};
use crate::tree::{children_of, Children, Node};
use crate::walk::taken;

verus! {

/// Frames that the walk takes from the entry `j` on of a table of level
/// `level` below which no table stands, for `n` pages from the page `number`
/// on: one for each table on the way, and one for each leaf where the leaves
/// are fresh.
pub open spec fn blank_need_from(level: nat, j: int, number: int, n: int, fresh: bool) -> nat
    decreases level, (512 - j) as nat,
{
    if j < 0 || j >= 512 || level <= 1 {
        0
    } else {
        let c = taken(number, n, (level - 1) as nat);
        let below: nat = if level <= 2 {
            leaf_cost(number, n, fresh)
        } else {
            blank_need_from(
                (level - 1) as nat,
                table_index(number, (level - 1) as nat),
                number,
                n,
                fresh,
            )
        };
        let after: nat = if n - c <= 0 {
            0
        } else {
            blank_need_from(level, j + 1, number + c, n - c, fresh)
        };
        1 + below + after
    }
}

/// Frames that mapping `n` pages from the page `number` on takes in a space
/// of `level` levels that holds no table but its root.
pub open spec fn blank_need(level: nat, number: int, n: int, fresh: bool) -> nat {
    if level <= 1 {
        leaf_cost(number, n, fresh)
    } else {
        blank_need_from(level, table_index(number, level), number, n, fresh)
    }
}

/// A walk takes no more frames than it takes where no table stands, and as
/// many where none stands.
pub(crate) proof fn lemma_needed_blank(
    kids: Children,
    level: nat,
    j: int,
    number: int,
    n: int,
    fresh: bool,
)
    ensures
        needed_from(kids, level, j, number, n, fresh) <= blank_need_from(level, j, number, n, fresh),
        (forall|k: int| 0 <= k < 512 ==> (#[trigger] kids[k]) is None) ==> needed_from(
            kids,
            level,
            j,
            number,
            n,
            fresh,
        ) == blank_need_from(level, j, number, n, fresh),
    decreases level, 512 - j,
{
    if 0 <= j < 512 && level > 1 {
        let c = taken(number, n, (level - 1) as nat);
        if level > 2 {
            lemma_needed_blank(
                children_of(kids[j]),
                (level - 1) as nat,
                table_index(number, (level - 1) as nat),
                number,
                n,
                fresh,
            );
        }
        if n - c > 0 {
            lemma_needed_blank(kids, level, j + 1, number + c, n - c, fresh);
        }
    }
}

/// Where a table of level 1 stands on the way to every page of the walk, the
/// walk takes frames for fresh leaves only.
pub(crate) proof fn lemma_needed_full(
    node: Node,
    level: nat,
    j: int,
    number: int,
    n: int,
    fresh: bool,
)
    requires
        1 < level <= 5,
        number >= 0,
        n >= 0,
        j == table_index(number, level),
        reaches(node, level, 1, slot(number, level)),
        forall|t: int|
            slot(number, level) <= t < slot(number, level) + taken(number, n, level)
                ==> #[trigger] reaches(node, level, 1, t),
    ensures
        needed_from(node.children@, level, j, number, n, fresh) == leaf_cost_at(
            number,
            n,
            level,
            fresh,
        ),
    decreases level, 512 - j,
{
    let below = span((level - 1) as nat);
    let s = slot(number, level);
    let inner = slot(number, (level - 1) as nat);
    let c = taken(number, n, (level - 1) as nat);
    lemma_slot_parts(number, level);
    lemma_walk_advance(number, n, level, j, 0);
    assert(node.children@[j] is Some);
    let child = *node.children@[j]->0;
    assert forall|u: int| inner <= u < inner + c || u == inner implies #[trigger] reaches(
        child,
        (level - 1) as nat,
        1,
        u,
    ) by {
        lemma_slot_parts(number, (level - 1) as nat);
        lemma_entry_slot(j, u, level);
        assert(reaches(node, level, 1, below * j + u));
    }
    if level > 2 {
        lemma_slot_parts(number, (level - 1) as nat);
        lemma_needed_full(
            child,
            (level - 1) as nat,
            table_index(number, (level - 1) as nat),
            number,
            n,
            fresh,
        );
    }
    if n - c > 0 {
        if j + 1 < 512 {
            assert forall|t: int|
                slot(number + c, level) <= t < slot(number + c, level) + taken(
                    number + c,
                    n - c,
                    level,
                ) || t == slot(number + c, level) implies #[trigger] reaches(node, level, 1, t) by {}
            lemma_needed_full(node, level, j + 1, number + c, n - c, fresh);
        } else {
            assert(needed_from(node.children@, level, 512, number + c, n - c, fresh) == 0);
        }
    }
}

/// Children without a table below them are all absent.
pub(crate) proof fn lemma_no_tables_no_kids(kids: Children, level: nat, j: int)
    requires
        0 <= j <= 512,
        crate::tree::count_from(kids, level, j) == 0,
    ensures
        forall|k: int| j <= k < 512 ==> (#[trigger] kids[k]) is None,
    decreases 512 - j,
{
    if j < 512 {
        lemma_no_tables_no_kids(kids, level, j + 1);
    }
}

/// The slot of a page at a level above 1 leaves as much room as the slot
/// one level down, and more.
pub proof fn lemma_room_above(number: int, n: int, level: nat)
    requires
        level >= 1,
        number >= 0,
        slot(number, level) + n <= span(level),
    ensures
        slot(number, level + 1) + n <= span(level + 1),
{
    lemma_slot_parts(number, level + 1);
    let i = table_index(number, level + 1);
    lemma_span_positive(level);
    assert(span(level) * i + span(level) <= span(level) * 512) by (nonlinear_arith)
        requires
            0 <= i < 512,
            span(level) > 0,
    ;
}

/// In a table of level 2 below which no table stands, a walk that ends
/// before the table's end takes one frame for each table of level 1 that it
/// touches, and one for each leaf where the leaves are fresh.
pub proof fn lemma_blank_need_second_level(j: int, number: int, n: int, fresh: bool)
    requires
        number >= 0,
        n > 0,
        j == table_index(number, 2),
        slot(number, 2) + n <= span(2),
    ensures
        blank_need_from(2, j, number, n, fresh) == (slot(number, 1) + n + 511) / 512 + if fresh {
            n
        } else {
            0
        },
    decreases n,
{
    lemma_span_values();
    lemma_slot_parts(number, 2);
    let inner = slot(number, 1);
    let c = taken(number, n, 1);
    if n - c > 0 {
        assert(c == 512 - inner);
        assert(slot(number, 2) + c == 512 * (j + 1));
        lemma_mod_advance(number, span(2), c);
        lemma_slot_parts(number + c, 2);
        lemma_div_range(slot(number + c, 2), 512, j + 1);
        assert(slot(number + c, 1) == 0);
        lemma_blank_need_second_level(j + 1, number + c, n - c, fresh);
    }
}

/// In a space that holds no table but its root, a walk that stays within
/// one table of level 2 takes one frame for each level above 2, one for each
/// table of level 1 that it touches, and one for each leaf where the leaves
/// are fresh.
pub proof fn lemma_blank_need_within_second_level(
    level: nat,
    number: int,
    n: int,
    fresh: bool,
)
    requires
        2 <= level <= 5,
        number >= 0,
        n > 0,
        slot(number, 2) + n <= span(2),
    ensures
        blank_need(level, number, n, fresh) == (level - 2) + (slot(number, 1) + n + 511) / 512
            + if fresh {
            n
        } else {
            0
        },
    decreases level,
{
    lemma_slot_parts(number, level);
    if level == 2 {
        lemma_blank_need_second_level(table_index(number, 2), number, n, fresh);
    } else {
        lemma_room_to_level(number, n, (level - 1) as nat);
        lemma_blank_need_within_second_level((level - 1) as nat, number, n, fresh);
        assert(taken(number, n, (level - 1) as nat) == n);
    }
}

/// A walk that stays within one table of level 2 stays within one table of
/// every level above.
pub proof fn lemma_room_to_level(number: int, n: int, level: nat)
    requires
        level >= 2,
        number >= 0,
        slot(number, 2) + n <= span(2),
    ensures
        slot(number, level) + n <= span(level),
    decreases level,
{
    if level > 2 {
        lemma_room_to_level(number, n, (level - 1) as nat);
        lemma_room_above(number, n, (level - 1) as nat);
    }
}

} // verus!
