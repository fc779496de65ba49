//! The page-table tree: each table owns the tables that its entries point to.

use vstd::prelude::*;
use x86_64::structures::paging::PageTable;
use crate::hw::{table_entries, table_new};
use crate::layout::{lemma_div_range, lemma_span_positive, span};
use crate::units::ADDR_MASK;

verus! {

/// The children of a table, by index: the table below each entry, if any.
pub(crate) type Children = Seq<Option<Box<Node>>>;

/// One page table and the tables below it.
///
/// `table` is the table as the hardware reads it. In a table above level 1,
/// `children` holds the table that each used entry points to; the entry
/// holds that table's frame.
pub(crate) struct Node {
    pub(crate) table: Box<PageTable>,
    pub(crate) children: Vec<Option<Box<Node>>>,
}

/// The children of a table that may be absent: none where it is absent.
pub(crate) open spec fn children_of(node: Option<Box<Node>>) -> Children {
    match node {
        Some(n) => n.children@,
        None => Seq::new(512, |j: int| None),
    }
}

/// Number of tables in the subtrees of `kids[j..]`; the tables are of level
/// `level`.
pub(crate) open spec fn count_from(kids: Children, level: nat, j: int) -> nat
    decreases level, (512 - j) as nat,
{
    if j < 0 || j >= 512 {
        0
    } else {
        (match kids[j] {
            Some(c) => 1 + if level <= 1 {
                0
            } else {
                count_from(c.children@, (level - 1) as nat, 0)
            },
            None => 0,
        }) + count_from(kids, level, j + 1)
    }
}

/// Number of tables in the subtree of `kid`, a table of level `level` that
/// may be absent.
pub(crate) open spec fn subtree_count(kid: Option<Box<Node>>, level: nat) -> nat {
    match kid {
        Some(c) => c.count(level),
        None => 0,
    }
}

impl Node {
    /// The 512 raw entries of the table.
    pub(crate) open spec fn entries(&self) -> Seq<u64> {
        table_entries(*self.table)
    }

    /// The tree below a table of level `level` is well formed: a table of
    /// level 1 has no children; above level 1 an entry is used exactly where
    /// a child stands, and holds a frame other than zero.
    pub(crate) open spec fn wf(&self, level: nat) -> bool
        decreases level,
    {
        &&& level >= 1
        &&& self.entries().len() == 512
        &&& self.children@.len() == 512
        &&& forall|j: int|
            0 <= j < 512 ==> if level == 1 {
                (#[trigger] self.children@[j]) is None
            } else {
                &&& (self.entries()[j] != 0) == (#[trigger] self.children@[j]) is Some
                &&& self.children@[j] is Some ==> {
                    &&& self.entries()[j] & ADDR_MASK != 0
                    &&& self.children@[j]->0.wf((level - 1) as nat)
                }
            }
    }

    /// The leaf entry for slot `t` of a table of level `level`: zero where
    /// no table stands on the way down.
    pub(crate) open spec fn leaf(&self, level: nat, t: int) -> u64
        decreases level,
    {
        if level <= 1 {
            self.entries()[t]
        } else {
            match self.children@[t / span((level - 1) as nat)] {
                Some(c) => c.leaf((level - 1) as nat, t % span((level - 1) as nat)),
                None => 0,
            }
        }
    }

    /// The entry in the table of level `target` at which the walk from a
    /// table of level `level` to its slot `t` arrives; zero where the walk
    /// ends above that table. At target 1 this is the leaf entry.
    pub(crate) open spec fn entry_at(&self, level: nat, target: nat, t: int) -> u64
        decreases level,
    {
        if level <= target || level <= 1 {
            if level == target {
                self.entries()[t / span((level - 1) as nat)]
            } else {
                0
            }
        } else {
            match self.children@[t / span((level - 1) as nat)] {
                Some(c) => c.entry_at((level - 1) as nat, target, t % span((level - 1) as nat)),
                None => 0,
            }
        }
    }

    /// Number of tables in the tree, this one counted.
    pub(crate) open spec fn count(&self, level: nat) -> nat {
        1 + if level <= 1 {
            0
        } else {
            count_from(self.children@, (level - 1) as nat, 0)
        }
    }

    /// Some entry of the table is used.
    pub(crate) open spec fn used(&self) -> bool {
        exists|k: int| 0 <= k < 512 && #[trigger] self.entries()[k] != 0
    }

    /// No table below this one is empty.
    pub(crate) open spec fn tight(&self, level: nat) -> bool
        decreases level,
    {
        level > 1 ==> forall|j: int|
            0 <= j < 512 && (#[trigger] self.children@[j]) is Some ==> {
                &&& self.children@[j]->0.used()
                &&& self.children@[j]->0.tight((level - 1) as nat)
            }
    }

    /// A table with no used entry and no child.
    pub(crate) fn empty(level: Ghost<nat>) -> (node: Node)
        requires
            level@ >= 1,
        ensures
            node.wf(level@),
            node.entries() == Seq::new(512, |j: int| 0u64),
            node.children@ == Seq::new(512, |j: int| None::<Box<Node>>),
            node.tight(level@),
            !node.used(),
    {
        let table = table_new();
        let mut children: Vec<Option<Box<Node>>> = Vec::new();
        let mut j: usize = 0;
        while j < 512
            invariant
                j <= 512,
                children@.len() == j,
                forall|k: int| 0 <= k < j ==> (#[trigger] children@[k]) is None,
            decreases 512 - j,
        {
            children.push(None);
            j = j + 1;
        }
        assert(children@ =~= Seq::new(512, |j: int| None::<Box<Node>>));
        let node = Node { table, children };
        assert(0u64 & ADDR_MASK == 0) by (bit_vector);
        node
    }
}

/// A table without used entry and without child has no used leaf.
pub(crate) proof fn lemma_empty_leaf(node: Node, level: nat, r: int)
    requires
        level >= 1,
        0 <= r < span(level),
        node.entries() == Seq::new(512, |j: int| 0u64),
        node.children@ == Seq::new(512, |j: int| None::<Box<Node>>),
    ensures
        node.leaf(level, r) == 0,
{
    if level > 1 {
        let below = span((level - 1) as nat);
        lemma_span_positive((level - 1) as nat);
        let q = r / below;
        lemma_div_range(r, below, q);
        assert(0 <= q < 512) by (nonlinear_arith)
            requires
                below > 0,
                0 <= r < 512 * below,
                below * q <= r < below * q + below,
        ;
    }
}

/// Children that are all absent hold no table.
pub(crate) proof fn lemma_count_none(kids: Children, level: nat, j: int)
    requires
        forall|k: int| j <= k < 512 ==> (#[trigger] kids[k]) is None,
    ensures
        count_from(kids, level, j) == 0,
    decreases 512 - j,
{
    if 0 <= j < 512 {
        lemma_count_none(kids, level, j + 1);
    }
}

/// The count from `j` on does not depend on the children before `j`.
pub(crate) proof fn lemma_count_same(a: Children, b: Children, level: nat, j: int)
    requires
        forall|k: int| j <= k < 512 ==> #[trigger] a[k] == b[k],
    ensures
        count_from(a, level, j) == count_from(b, level, j),
    decreases 512 - j,
{
    if 0 <= j < 512 {
        lemma_count_same(a, b, level, j + 1);
    }
}

/// Replacing the child at `at` changes the count by the difference of the
/// two subtrees.
pub(crate) proof fn lemma_count_update(a: Children, b: Children, level: nat, j: int, at: int)
    requires
        0 <= j <= at < 512,
        forall|k: int| j <= k < 512 && k != at ==> #[trigger] a[k] == b[k],
    ensures
        count_from(a, level, j) + subtree_count(b[at], level) == count_from(b, level, j)
            + subtree_count(a[at], level),
    decreases at - j,
{
    if j < at {
        lemma_count_update(a, b, level, j + 1, at);
    } else {
        lemma_count_same(a, b, level, at + 1);
    }
}

} // verus!
