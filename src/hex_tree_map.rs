//! A map from H3 cells to values that answers for a cell with the value of
//! the cell or of any ancestor of it.

use crate::cell::{
    base_of, cell_of_path, digits_of, is_ancestor_or_self, lemma_base_cell, lemma_cell_of_path,
    lemma_parent, parent_raw, res_of, valid_cell, Cell, CellStack,
};
use crate::compaction::{all_equal, Compactor, EqCompactor, NullCompactor};
use crate::digits::{stack_of, Digits};
use crate::node::{
    digits_in_range, diverges, entries_mut_view, entries_view, last_sibling, lemma_put_found,
    lemma_put_frame, never_compacts, put_slot, slot_lookup, ins_rel, lemma_ins_rel_fresh, leaf_cells, sibling_values, slot_value, valid_path,
    Node,
};
use vstd::prelude::*;
use vstd::std_specs::cmp::PartialEqSpec;

verus! {

/// The node reached from the roots by following a cell's path: the first
/// leaf on the way, or the node at the path's end.
pub open spec fn root_find<V>(roots: Seq<Option<Box<Node<V>>>>, cell: u64) -> Option<(nat, Node<V>)> {
    match roots[base_of(cell) as int] {
        Some(b) => (*b).find(digits_of(cell)),
        None => None,
    }
}

/// The leaf that covers `cell`, as the leaf's cell and its value.
pub open spec fn root_get<V>(roots: Seq<Option<Box<Node<V>>>>, cell: u64) -> Option<(u64, V)> {
    match root_find(roots, cell) {
        Some((k, Node::Leaf(v))) => Some((parent_raw(cell, k as u64), v)),
        _ => None,
    }
}

/// Whether a leaf covers `cell`.
pub open spec fn root_contains<V>(roots: Seq<Option<Box<Node<V>>>>, cell: u64) -> bool {
    match roots[base_of(cell) as int] {
        Some(b) => (*b).lookup(digits_of(cell)) is Some,
        None => false,
    }
}

/// The leaves below the base cells `0..b`, in order.
pub open spec fn root_leaves<V>(roots: Seq<Option<Box<Node<V>>>>, b: nat) -> Seq<(Seq<u8>, V)>
    decreases b,
{
    if b == 0 {
        Seq::empty()
    } else {
        let prev = root_leaves(roots, (b - 1) as nat);
        match roots[b - 1] {
            Some(n) => prev + (*n).leaves(seq![(b - 1) as u8]),
            None => prev,
        }
    }
}

/// The leaves below a run of base-cell slots, the first of them for base
/// cell `b`.
pub open spec fn roots_from<V>(slots: Seq<Option<Box<Node<V>>>>, b: nat) -> Seq<(Seq<u8>, V)>
    decreases slots.len(),
{
    if slots.len() == 0 {
        Seq::empty()
    } else {
        let rest = roots_from(slots.drop_first(), b + 1);
        match slots[0] {
            Some(n) => (*n).leaves(seq![b as u8]) + rest,
            None => rest,
        }
    }
}

/// The leaves below base cells `0..b` and those below the slots from `b`
/// on are, together, all the leaves.
proof fn lemma_roots_split<V>(roots: Seq<Option<Box<Node<V>>>>, b: nat)
    requires
        roots.len() == 122,
        b <= 122,
    ensures
        root_leaves(roots, b) + roots_from(roots.subrange(b as int, 122), b) == root_leaves(roots, 122),
    decreases 122 - b,
{
    if b < 122 {
        lemma_roots_split(roots, b + 1);
        let tail = roots.subrange(b as int, 122);
        assert(tail.drop_first() =~= roots.subrange((b + 1) as int, 122));
        assert(tail[0] == roots[b as int]);
        match roots[b as int] {
            Some(n) => {
                assert(root_leaves(roots, b + 1) == root_leaves(roots, b) + (*n).leaves(seq![b as u8]));
                assert(root_leaves(roots, b) + ((*n).leaves(seq![b as u8]) + roots_from(roots.subrange((b + 1) as int, 122), b + 1))
                    =~= (root_leaves(roots, b) + (*n).leaves(seq![b as u8])) + roots_from(roots.subrange((b + 1) as int, 122), b + 1));
            },
            None => {},
        }
    } else {
        assert(roots.subrange(122, 122).len() == 0);
        assert(root_leaves(roots, 122) + Seq::empty() =~= root_leaves(roots, 122));
    }
}

/// Appends mutable references to the leaf values below `slots`, the base
/// cells from `b` on.
fn collect_roots_mut<'a, V>(
    slots: &'a mut [Option<Box<Node<V>>>],
    b: usize,
    out: &mut Vec<(Cell, &'a mut V)>,
)
    requires
        b + old(slots)@.len() == 122,
        forall|i: int|
            0 <= i < old(slots)@.len() ==> match #[trigger] old(slots)@[i] {
                Some(n) => (*n).wf(15),
                None => true,
            },
    ensures
        final(out)@.len() == old(out)@.len() + roots_from(old(slots)@, b as nat).len(),
        final(out)@.subrange(0, old(out)@.len() as int) == old(out)@,
        entries_mut_view(final(out)@.subrange(old(out)@.len() as int, final(out)@.len() as int))
            == leaf_cells(roots_from(old(slots)@, b as nat)),
        final(slots)@.len() == old(slots)@.len(),
        forall|i: int|
            0 <= i < final(slots)@.len() ==> match #[trigger] final(slots)@[i] {
                Some(n) => (*n).wf(15),
                None => true,
            },
    decreases old(slots)@.len(),
{
    let ghost before = out@;
    let ghost all = slots@;
    if slots.len() == 0 {
        assert(out@.subrange(0, before.len() as int) =~= before);
        assert(entries_mut_view(out@.subrange(before.len() as int, out@.len() as int)) =~= leaf_cells(
            roots_from(all, b as nat),
        ));
        return ;
    }
    let (head, tail) = slots.split_at_mut(1);
    assert(all.drop_first() =~= tail@);
    assert(head@[0] == all[0]);
    match &mut head[0] {
        Some(node) => {
            let ghost path = seq![b as u8];
            proof {
                lemma_base_cell(b as u64);
            }
            assert(valid_path(path));
            assert(cell_of_path(path) == crate::cell::base_cell_raw(b as u64));
            let mut stack = CellStack::new();
            stack.push(b as u8);
            node.collect_mut(&mut stack, out, Ghost(path));
        },
        None => {},
    }
    let ghost mid = out@;
    collect_roots_mut(tail, b + 1, out);
    proof {
        assert(out@.subrange(0, before.len() as int) =~= mid.subrange(0, before.len() as int));
        assert(out@.subrange(0, before.len() as int) =~= before);
        assert(entries_mut_view(out@.subrange(before.len() as int, out@.len() as int)) =~= entries_mut_view(
            mid.subrange(before.len() as int, mid.len() as int),
        ) + entries_mut_view(out@.subrange(mid.len() as int, out@.len() as int)));
    }
}

/// `new` is what inserting `value` at `cell` into subtrees `old` gives:
/// other base cells unchanged, and the cell's base subtree related by
/// `ins_rel`.
pub open spec fn insert_step<V, C: Compactor<V>>(
    old: Seq<Option<Box<Node<V>>>>,
    new: Seq<Option<Box<Node<V>>>>,
    cell: u64,
    value: V,
) -> bool {
    &&& new.len() == old.len()
    &&& forall|b: int| 0 <= b < old.len() && b != base_of(cell) ==> #[trigger] new[b] == old[b]
    &&& new[base_of(cell) as int] matches Some(fb) && ins_rel::<V, C>(
        old[base_of(cell) as int],
        *fb,
        digits_of(cell),
        value,
        cell,
        0,
    )
}

/// `new` is what inserting `value` at `cell` into subtrees `old`, then
/// setting the covering leaf's value to `last`, gives.
pub open spec fn entry_filled<V, C: Compactor<V>>(
    old: Seq<Option<Box<Node<V>>>>,
    new: Seq<Option<Box<Node<V>>>>,
    cell: u64,
    value: V,
    last: V,
) -> bool {
    exists|mid: Seq<Option<Box<Node<V>>>>|
        #[trigger] insert_step::<V, C>(old, mid, cell, value) && new.len() == mid.len() && (forall|b: int|
            0 <= b < 122 && b != base_of(cell) ==> #[trigger] new[b] == mid[b]) && (
        mid[base_of(cell) as int] matches Some(n) && new[base_of(cell) as int] matches Some(fnode)
            && (*n).lookup(digits_of(cell)) matches Some((k, _)) && (*n).with_leaf_value(
            *fnode,
            digits_of(cell),
            k,
            last,
        ))
}

/// Cells paired with the unit value a set stores.
pub open spec fn set_items(cells: Seq<Cell>) -> Seq<(Cell, ())> {
    cells.map_values(|c: Cell| (c, ()))
}

/// `states` runs from `old` to `new`, each step inserting the next of
/// `items` in order.
pub open spec fn insert_chain<V, C: Compactor<V>>(
    states: Seq<Seq<Option<Box<Node<V>>>>>,
    items: Seq<(Cell, V)>,
) -> bool {
    &&& states.len() == items.len() + 1
    &&& forall|i: int|
        0 <= i < items.len() ==> insert_step::<V, C>(
            states[i],
            #[trigger] states[i + 1],
            items[i].0@,
            items[i].1,
        )
}

/// A map from H3 cells to values.
///
/// A value stored at a cell covers all its descendants: looking up a finer
/// cell finds it, together with the cell it was stored at.
#[derive(Debug, PartialEq, Eq)]
pub struct HexTreeMap<V, C = NullCompactor> {
    /// One slot per base cell.
    nodes: Vec<Option<Box<Node<V>>>>,
    /// Consulted after every insert.
    compactor: C,
}

impl<V, C> HexTreeMap<V, C> {
    /// One slot per base cell, each holding a well-formed subtree.
    pub closed spec fn wf(&self) -> bool {
        &&& self.nodes.len() == 122
        &&& forall|b: int|
            0 <= b < 122 ==> match #[trigger] self.nodes[b] {
                Some(n) => (*n).wf(15),
                None => true,
            }
    }

    /// What well-formedness says of the subtrees.
    pub proof fn lemma_wf_roots(&self)
        requires
            self.wf(),
        ensures
            self.roots().len() == 122,
            forall|c: int|
                0 <= c < 122 ==> match #[trigger] self.roots()[c] {
                    Some(n) => (*n).wf(15),
                    None => true,
                },
    {
    }

    /// The subtree under each base cell.
    pub closed spec fn roots(&self) -> Seq<Option<Box<Node<V>>>> {
        self.nodes@
    }

    /// The compactor.
    pub closed spec fn compactor_spec(&self) -> C {
        self.compactor
    }

    /// The leaf covering `cell`, if any: its cell and value.
    pub open spec fn get_spec(&self, cell: u64) -> Option<(u64, V)> {
        root_get(self.roots(), cell)
    }

    /// All leaves, base cells ascending and then digits ascending: their
    /// cells and values.
    pub open spec fn entries(&self) -> Seq<(u64, V)> {
        leaf_cells(root_leaves(self.roots(), 122))
    }

    /// The leaves at or below `cell`: the one leaf covering it, or every
    /// leaf under it.
    pub open spec fn descendants_spec(&self, cell: u64) -> Seq<(u64, V)> {
        match root_find(self.roots(), cell) {
            None => Seq::empty(),
            Some((k, Node::Leaf(v))) => seq![(parent_raw(cell, k as u64), v)],
            Some((_, n)) => leaf_cells(n.leaves(seq![base_of(cell) as u8] + digits_of(cell))),
        }
    }

    /// A map with no cells.
    pub open spec fn is_empty_spec(&self) -> bool {
        forall|b: int| 0 <= b < 122 ==> (#[trigger] self.roots()[b]) is None
    }

    fn empty_roots() -> (r: Vec<Option<Box<Node<V>>>>)
        ensures
            r@.len() == 122,
            forall|b: int| 0 <= b < 122 ==> (#[trigger] r@[b]) is None,
    {
        let mut nodes: Vec<Option<Box<Node<V>>>> = Vec::new();
        while nodes.len() < 122
            invariant
                nodes@.len() <= 122,
                forall|b: int| 0 <= b < nodes@.len() ==> (#[trigger] nodes@[b]) is None,
            decreases 122 - nodes@.len(),
        {
            nodes.push(None);
        }
        nodes
    }

    /// The subtree of base cell `b`, if any.
    pub fn root(&self, b: usize) -> (r: Option<&Node<V>>)
        requires
            self.wf(),
            b < 122,
        ensures
            match self.roots()[b as int] {
                Some(n) => r matches Some(m) && *m == *n && m.wf(15),
                None => r is None,
            },
    {
        match &self.nodes[b] {
            Some(node) => Some(node),
            None => None,
        }
    }

    /// An empty map with the given compactor.
    pub fn with_compactor(compactor: C) -> (r: Self)
        ensures
            r.wf(),
            r.is_empty_spec(),
            r.compactor_spec() == compactor,
    {
        HexTreeMap { nodes: Self::empty_roots(), compactor }
    }

    /// The same contents with another compactor for later inserts.
    pub fn replace_compactor<NewC>(self, new_compactor: NewC) -> (r: HexTreeMap<V, NewC>)
        requires
            self.wf(),
        ensures
            r.wf(),
            r.roots() == self.roots(),
            r.compactor_spec() == new_compactor,
    {
        HexTreeMap { nodes: self.nodes, compactor: new_compactor }
    }

    /// The node reached by following `cell`'s path, with the cell at it.
    fn get_raw(&self, cell: Cell) -> (r: Option<(Cell, &Node<V>)>)
        requires
            self.wf(),
        ensures
            match root_find(self.roots(), cell@) {
                Some((k, n)) => r matches Some((c, m)) && c@ == parent_raw(cell@, k as u64) && *m
                    == n,
                None => r is None,
            },
    {
        let base = cell.base();
        match &self.nodes[base as usize] {
            Some(node) => node.get(0, cell, Digits::new(cell)),
            None => None,
        }
    }

    /// The value of the leaf covering `cell`, the cell itself or an
    /// ancestor, together with that leaf's cell.
    pub fn get(&self, cell: Cell) -> (r: Option<(Cell, &V)>)
        requires
            self.wf(),
        ensures
            match self.get_spec(cell@) {
                Some((a, v)) => r matches Some((c, w)) && c@ == a && *w == v,
                None => r is None,
            },
    {
        match self.get_raw(cell) {
            Some((c, Node::Leaf(value))) => Some((c, value)),
            _ => None,
        }
    }

    /// Whether a leaf covers `cell`: `cell` itself, or an ancestor of it.
    pub fn contains(&self, cell: Cell) -> (r: bool)
        requires
            self.wf(),
        ensures
            r == root_contains(self.roots(), cell@),
    {
        let base = cell.base();
        match &self.nodes[base as usize] {
            Some(node) => node.contains(Digits::new(cell)),
            None => false,
        }
    }

    /// The number of leaves (saturating at `usize::MAX` on targets where
    /// it could not be counted).
    pub fn len(&self) -> (r: usize)
        requires
            self.wf(),
        ensures
            r == if self.entries().len() <= usize::MAX {
                self.entries().len()
            } else {
                usize::MAX as nat
            },
    {
        let mut total: u64 = 0;
        let mut b: usize = 0;
        while b < 122
            invariant
                0 <= b <= 122,
                self.nodes.len() == 122,
                forall|i: int|
                    0 <= i < 122 ==> match #[trigger] self.nodes[i] {
                        Some(n) => (*n).wf(15),
                        None => true,
                    },
                total == root_leaves(self.roots(), b as nat).len(),
                total <= b * 4747561509943,
            decreases 122 - b,
        {
            if let Some(node) = &self.nodes[b] {
                let n = node.len(15);
                proof {
                    (**node).lemma_leaves_len(Seq::empty(), seq![b as u8], 15);
                    crate::node::lemma_pow7_value();
                }
                total = total + n;
            }
            b += 1;
        }
        if total <= usize::MAX as u64 {
            total as usize
        } else {
            usize::MAX
        }
    }

    /// A mutable reference to the value of the leaf covering `cell`, the
    /// cell itself or an ancestor, together with that leaf's cell. Whatever
    /// is written through it becomes that leaf's value; nothing else
    /// changes.
    pub fn get_mut(&mut self, cell: Cell) -> (r: Option<(Cell, &mut V)>)
        requires
            old(self).wf(),
        ensures
            final(self).wf(),
            match old(self).get_spec(cell@) {
                None => r is None && *final(self) == *old(self),
                Some((a, v)) => r matches Some((c, m)) && c@ == a && *m == v && final(self).get_spec(
                    cell@,
                ) == Some((a, *final(m))) && final(self).roots().len() == old(self).roots().len() && (forall|b: int|
                    0 <= b < 122 && b != base_of(cell@) ==> #[trigger] final(self).roots()[b] == old(
                        self,
                    ).roots()[b]) && (old(self).roots()[base_of(cell@) as int] matches Some(n)
                    && final(self).roots()[base_of(cell@) as int] matches Some(fnode) && (*n).lookup(
                    digits_of(cell@),
                ) matches Some((k, _)) && (*n).with_leaf_value(
                    *fnode,
                    digits_of(cell@),
                    k,
                    *final(m),
                )),
            },
    {
        if !self.contains(cell) {
            return None;
        }
        proof {
            use_type_invariant(&cell);
            lemma_fields_of(cell@);
            if let Some(n) = self.roots()[base_of(cell@) as int] {
                (*n).lemma_find_wf(digits_of(cell@), 15);
            }
        }
        let base = cell.base();
        match &mut self.nodes[base as usize] {
            Some(node) => {
                proof {
                    broadcast use Node::lemma_with_leaf_value_root;
                }
                node.leaf_mut(0, cell, Digits::new(cell))
            },
            None => None,
        }
    }

    /// The value of the leaf covering `cell`, which must exist.
    pub fn index(&self, cell: Cell) -> (r: &V)
        requires
            self.wf(),
            self.get_spec(cell@) is Some,
        ensures
            self.get_spec(cell@) matches Some((_, v)) && *r == v,
    {
        self.get(cell).unwrap().1
    }

    /// A mutable reference to the value of every leaf, base cells ascending
    /// and then digits ascending, with its cell.
    pub fn iter_mut(&mut self) -> (r: Vec<(Cell, &mut V)>)
        requires
            old(self).wf(),
        ensures
            final(self).wf(),
            entries_mut_view(r@) == old(self).entries(),
    {
        let ghost roots = self.nodes@;
        let mut out: Vec<(Cell, &mut V)> = Vec::new();
        proof {
            lemma_roots_split(roots, 0);
            assert(roots.subrange(0, 122) =~= roots);
            assert(root_leaves(roots, 0) + roots_from(roots, 0) =~= roots_from(roots, 0));
        }
        collect_roots_mut(self.nodes.as_mut_slice(), 0, &mut out);
        assert(out@.subrange(0, out@.len() as int) =~= out@);
        out
    }

    /// Mutable references to the values of the leaf covering `cell` if
    /// there is one, otherwise of every leaf below `cell`, in iteration
    /// order, with their cells.
    pub fn descendants_mut(&mut self, cell: Cell) -> (r: Vec<(Cell, &mut V)>)
        requires
            old(self).wf(),
        ensures
            final(self).wf(),
            entries_mut_view(r@) == old(self).descendants_spec(cell@),
    {
        if self.get_raw(cell).is_none() {
            return Vec::new();
        }
        proof {
            use_type_invariant(&cell);
            lemma_fields_of(cell@);
            if let Some(n) = self.roots()[base_of(cell@) as int] {
                (*n).lemma_find_wf(digits_of(cell@), 15);
                (*n).lemma_find_digits(digits_of(cell@), 15);
            }
            let path = seq![base_of(cell@) as u8] + digits_of(cell@);
            if root_find(self.roots(), cell@) matches Some((_, Node::Parent(_))) {
                assert forall|i: int| 1 <= i < path.len() implies #[trigger] path[i] < 7 by {
                    assert(path[i] == digits_of(cell@)[i - 1]);
                }
            }
            lemma_parent(cell@, res_of(cell@));
        }
        let ghost whole = *self;
        let base = cell.base();
        let mut out: Vec<(Cell, &mut V)> = Vec::new();
        match &mut self.nodes[base as usize] {
            Some(root) => {
                let (c, node) = root.find_mut(0, cell, Digits::new(cell)).unwrap();
                if node.is_parent() {
                    let ghost path = seq![base_of(cell@) as u8] + digits_of(cell@);
                    let mut stack = stack_of(cell);
                    node.collect_mut(&mut stack, &mut out, Ghost(path));
                    assert(out@.subrange(0, out@.len() as int) =~= out@);
                } else {
                    match node {
                        Node::Leaf(value) => {
                            out.push((c, value));
                        },
                        Node::Parent(_) => {},
                    }
                }
            },
            None => {},
        }
        assert(entries_mut_view(out@) =~= whole.descendants_spec(cell@));
        out
    }

    /// Whether the map holds no leaf.
    pub fn is_empty(&self) -> (r: bool)
        requires
            self.wf(),
        ensures
            r == (self.entries().len() == 0),
    {
        self.len() == 0
    }

    /// Every leaf, base cells ascending and then digits ascending, with its
    /// cell.
    pub fn iter(&self) -> (r: Vec<(Cell, &V)>)
        requires
            self.wf(),
        ensures
            entries_view(r@) == self.entries(),
    {
        let mut out: Vec<(Cell, &V)> = Vec::new();
        let mut b: usize = 0;
        while b < 122
            invariant
                0 <= b <= 122,
                self.nodes.len() == 122,
                forall|i: int|
                    0 <= i < 122 ==> match #[trigger] self.nodes[i] {
                        Some(n) => (*n).wf(15),
                        None => true,
                    },
                entries_view(out@) == leaf_cells(root_leaves(self.roots(), b as nat)),
            decreases 122 - b,
        {
            let ghost before = out@;
            if let Some(node) = &self.nodes[b] {
                let ghost path = seq![b as u8];
                assert(valid_path(path));
                assert(cell_of_path(path) == crate::cell::base_cell_raw(b as u64));
                proof {
                    lemma_base_cell(b as u64);
                }
                let mut stack = CellStack::new();
                stack.push(b as u8);
                node.collect(&mut stack, &mut out, Ghost(path));
                assert(leaf_cells(root_leaves(self.roots(), (b + 1) as nat)) =~= leaf_cells(
                    root_leaves(self.roots(), b as nat),
                ) + leaf_cells((**node).leaves(path)));
            }
            b += 1;
        }
        out
    }
}

impl<V, C> HexTreeMap<V, C> {
    /// The leaf covering `cell` if there is one; otherwise every leaf below
    /// `cell`, in iteration order.
    pub fn descendants(&self, cell: Cell) -> (r: Vec<(Cell, &V)>)
        requires
            self.wf(),
        ensures
            entries_view(r@) == self.descendants_spec(cell@),
    {
        proof {
            use_type_invariant(&cell);
            lemma_fields_of(cell@);
            if let Some(n) = self.roots()[base_of(cell@) as int] {
                (*n).lemma_find_wf(digits_of(cell@), 15);
                (*n).lemma_find_digits(digits_of(cell@), 15);
            }
            let path = seq![base_of(cell@) as u8] + digits_of(cell@);
            if root_find(self.roots(), cell@) matches Some((_, Node::Parent(_))) {
                assert forall|i: int| 1 <= i < path.len() implies #[trigger] path[i] < 7 by {
                    assert(path[i] == digits_of(cell@)[i - 1]);
                }
            }
            lemma_parent(cell@, res_of(cell@));
        }
        match self.get_raw(cell) {
            None => Vec::new(),
            Some((c, node)) => {
                let mut out: Vec<(Cell, &V)> = Vec::new();
                match node {
                    Node::Leaf(value) => {
                        out.push((c, value));
                        assert(entries_view(out@) =~= self.descendants_spec(cell@));
                    },
                    Node::Parent(_) => {
                        let ghost path = seq![base_of(cell@) as u8] + digits_of(cell@);
                        let mut stack = stack_of(cell);
                        node.collect(&mut stack, &mut out, Ghost(path));
                        assert(entries_view(out@) =~= self.descendants_spec(cell@));
                    },
                }
                out
            },
        }
    }
}

impl<V, C: Compactor<V>> HexTreeMap<V, C> {
    /// Inserts every pair of `items`, in order; afterwards a leaf covers
    /// each of their cells whose digits are all 0..=6.
    pub fn extend(&mut self, items: Vec<(Cell, V)>)
        requires
            old(self).wf(),
        ensures
            final(self).wf(),
            forall|i: int| 0 <= i < items@.len() && digits_in_range(digits_of(items@[i].0@)) ==> (#[trigger] final(self).get_spec(items@[i].0@)) is Some,
            exists|states: Seq<Seq<Option<Box<Node<V>>>>>|
                #[trigger] insert_chain::<V, C>(states, items@) && states[0] == old(self).roots()
                    && states.last() == final(self).roots(),
    {
        let ghost all = items@;
        let ghost mut states: Seq<Seq<Option<Box<Node<V>>>>> = seq![self.roots()];
        let mut rev: Vec<(Cell, V)> = Vec::new();
        let mut items = items;
        while items.len() > 0
            invariant
                rev@.len() + items@.len() == all.len(),
                forall|i: int| 0 <= i < items@.len() ==> #[trigger] items@[i] == all[i],
                forall|i: int| 0 <= i < rev@.len() ==> #[trigger] rev@[i] == all[all.len() - 1 - i],
            decreases items@.len(),
        {
            let item = items.pop().unwrap();
            rev.push(item);
        }
        let ghost mut done: nat = 0;
        while rev.len() > 0
            invariant
                self.wf(),
                done + rev@.len() == all.len(),
                forall|i: int| 0 <= i < rev@.len() ==> #[trigger] rev@[i] == all[all.len() - 1 - i],
                forall|i: int| 0 <= i < done ==> valid_cell(#[trigger] all[i].0@) && (digits_in_range(digits_of(all[i].0@)) ==> self.get_spec(all[i].0@) is Some),
                insert_chain::<V, C>(states, all.subrange(0, done as int)),
                states[0] == old(self).roots(),
                states.last() == self.roots(),
            decreases rev@.len(),
        {
            let ghost before_rev = rev@;
            let (cell, value) = rev.pop().unwrap();
            assert((cell, value) == all[done as int]);
            proof {
                use_type_invariant(&cell);
            }
            let ghost before = *self;
            self.insert(cell, value);
            proof {
                assert forall|i: int| 0 <= i < done + 1 implies valid_cell(#[trigger] all[i].0@) && (digits_in_range(digits_of(all[i].0@)) ==> self.get_spec(all[i].0@) is Some) by {
                    if i < done && digits_in_range(digits_of(all[i].0@)) {
                        assert(before.get_spec(all[i].0@) is Some);
                    }
                }
                let prev = states;
                states = states.push(self.roots());
                assert(all[done as int] == (cell, value));
                assert forall|i: int| 0 <= i < done + 1 implies insert_step::<V, C>(
                    states[i],
                    #[trigger] states[i + 1],
                    all.subrange(0, (done + 1) as int)[i].0@,
                    all.subrange(0, (done + 1) as int)[i].1,
                ) by {
                    if i < done {
                        assert(states[i] == prev[i]);
                        assert(states[i + 1] == prev[i + 1]);
                        assert(all.subrange(0, (done + 1) as int)[i] == all.subrange(0, done as int)[i]);
                    }
                }
                done = done + 1;
            }
        }
        assert(all.subrange(0, done as int) =~= all);
    }
}

impl<V> HexTreeMap<V, NullCompactor> {
    /// A map, without compaction, holding the pairs of `items` inserted in
    /// order.
    pub fn from_iter(items: Vec<(Cell, V)>) -> (r: Self)
        ensures
            r.wf(),
            forall|i: int| 0 <= i < items@.len() && digits_in_range(digits_of(items@[i].0@)) ==> (#[trigger] r.get_spec(items@[i].0@)) is Some,
            exists|states: Seq<Seq<Option<Box<Node<V>>>>>|
                #[trigger] insert_chain::<V, NullCompactor>(states, items@) && states[0] == Seq::new(
                    122,
                    |b: int| None::<Box<Node<V>>>,
                ) && states.last() == r.roots(),
    {
        let mut map = HexTreeMap::new();
        proof {
            map.lemma_wf_roots();
            assert(map.roots() =~= Seq::new(122, |b: int| None::<Box<Node<V>>>));
        }
        map.extend(items);
        map
    }
}

impl HexTreeMap<(), crate::compaction::SetCompactor> {
    /// A set holding `cells`, seven present siblings coalescing into their
    /// parent.
    pub fn from_cells(cells: Vec<Cell>) -> (r: Self)
        ensures
            r.wf(),
            forall|i: int| 0 <= i < cells@.len() && digits_in_range(digits_of(cells@[i]@)) ==> (#[trigger] r.get_spec(cells@[i]@)) is Some,
            exists|states: Seq<Seq<Option<Box<Node<()>>>>>|
                #[trigger] insert_chain::<(), crate::compaction::SetCompactor>(
                    states,
                    set_items(cells@),
                ) && states[0] == Seq::new(122, |b: int| None::<Box<Node<()>>>) && states.last()
                    == r.roots(),
    {
        let mut set = HexTreeMap::with_compactor(crate::compaction::SetCompactor);
        let ghost items = set_items(cells@);
        let ghost mut states: Seq<Seq<Option<Box<Node<()>>>>> = seq![set.roots()];
        proof {
            set.lemma_wf_roots();
            assert(set.roots() =~= Seq::new(122, |b: int| None::<Box<Node<()>>>));
        }
        let mut i: usize = 0;
        while i < cells.len()
            invariant
                0 <= i <= cells@.len(),
                set.wf(),
                forall|j: int| 0 <= j < i ==> valid_cell(#[trigger] cells@[j]@) && (digits_in_range(digits_of(cells@[j]@)) ==> set.get_spec(cells@[j]@) is Some),
                items == set_items(cells@),
                insert_chain::<(), crate::compaction::SetCompactor>(states, items.subrange(0, i as int)),
                states[0] == Seq::new(122, |b: int| None::<Box<Node<()>>>),
                states.last() == set.roots(),
            decreases cells@.len() - i,
        {
            let cell = cells[i];
            proof {
                use_type_invariant(&cell);
            }
            let ghost before = set;
            set.insert(cell, ());
            proof {
                assert forall|j: int| 0 <= j < i + 1 implies valid_cell(#[trigger] cells@[j]@) && (digits_in_range(digits_of(cells@[j]@)) ==> set.get_spec(cells@[j]@) is Some) by {
                    if j < i && digits_in_range(digits_of(cells@[j]@)) {
                        assert(before.get_spec(cells@[j]@) is Some);
                    }
                }
                let prev = states;
                states = states.push(set.roots());
                assert(items[i as int] == (cell, ()));
                assert forall|k: int| 0 <= k < i + 1 implies insert_step::<(), crate::compaction::SetCompactor>(
                    states[k],
                    #[trigger] states[k + 1],
                    items.subrange(0, (i + 1) as int)[k].0@,
                    items.subrange(0, (i + 1) as int)[k].1,
                ) by {
                    if k < i {
                        assert(states[k] == prev[k]);
                        assert(states[k + 1] == prev[k + 1]);
                        assert(items.subrange(0, (i + 1) as int)[k] == items.subrange(0, i as int)[k]);
                    }
                }
            }
            i += 1;
        }
        assert(items.subrange(0, i as int) =~= items);
        set
    }
}

impl<V> HexTreeMap<V, NullCompactor> {
    /// An empty map that never compacts.
    pub fn new() -> (r: Self)
        ensures
            r.wf(),
            r.is_empty_spec(),
    {
        HexTreeMap { nodes: Self::empty_roots(), compactor: NullCompactor }
    }
}

impl<V, C: Compactor<V>> HexTreeMap<V, C> {
    /// Stores `value` at `cell`, unless a leaf at an ancestor of `cell`
    /// already covers it; then offers each parent on the cell's path,
    /// deepest first, to the compactor.
    pub fn insert(&mut self, cell: Cell, value: V)
        requires
            old(self).wf(),
        ensures
            final(self).wf(),
            digits_in_range(digits_of(cell@)) ==> (final(self).get_spec(cell@) matches Some((a, w))
                && is_ancestor_or_self(a, cell@) && (a == cell@ ==> w == value)),
            forall|b: int|
                0 <= b < 122 && b != base_of(cell@) ==> #[trigger] final(self).roots()[b] == old(
                    self,
                ).roots()[b],
            res_of(cell@) == 0 ==> (final(self).roots()[base_of(cell@) as int] matches Some(n) && *n
                == Node::Leaf(value)),
            forall|c: u64|
                valid_cell(c) && old(self).get_spec(c) is Some ==> (#[trigger] final(self).get_spec(
                    c,
                )) is Some,
            (forall|c: C, pc: Cell, vals: Seq<Option<V>>, r: Option<V>|
                #[trigger] c.compacts(pc, vals, r) ==> r is None) && (old(self).get_spec(cell@) matches Some(
                (a, _),
            ) && a != cell@) ==> final(self).get_spec(cell@) == old(self).get_spec(cell@),
            ({
                let p = parent_raw(cell@, (res_of(cell@) - 1) as u64);
                old(self).roots()[base_of(cell@) as int] matches Some(n) && last_sibling(*n, digits_of(cell@))
                    && (forall|pc: Cell| pc@ == p ==> !old(self).compactor_spec().compacts(
                    pc,
                    sibling_values(*n, digits_of(cell@), value),
                    None,
                )) ==> final(self).get_spec(p) is Some
            }),
            insert_step::<V, C>(old(self).roots(), final(self).roots(), cell@, value),
            final(self).roots()[base_of(cell@) as int] matches Some(fb) && ins_rel::<V, C>(
                old(self).roots()[base_of(cell@) as int],
                *fb,
                digits_of(cell@),
                value,
                cell@,
                0,
            ),
            never_compacts::<V, C>() ==> (final(self).roots()[base_of(cell@) as int] matches Some(fb)
                && put_slot(old(self).roots()[base_of(cell@) as int], *fb, digits_of(cell@), value)),
            never_compacts::<V, C>() && digits_in_range(digits_of(cell@)) && !(old(self).get_spec(
                cell@,
            ) matches Some((a, _)) && a != cell@) ==> final(self).get_spec(cell@) == Some((cell@, value)),
            never_compacts::<V, C>() ==> forall|o: u64|
                valid_cell(o) && (base_of(o) != base_of(cell@) || diverges(digits_of(o), digits_of(cell@)))
                    ==> #[trigger] final(self).get_spec(o) == old(self).get_spec(o),
    {
        proof {
            use_type_invariant(&cell);
            lemma_fields_of(cell@);
        }
        let base = cell.base();
        let digits = Digits::new(cell);
        let mut slot: Option<Box<Node<V>>> = None;
        self.nodes.set_and_swap(base as usize, &mut slot);
        let mut node = match slot {
            Some(b) => *b,
            None => Node::new(),
        };
        let ghost old_node = node;
        node.insert(cell, 0, digits, value, &mut self.compactor);
        self.nodes.set(base as usize, Some(Box::new(node)));
        proof {
            old_node.lemma_find_len(digits_of(cell@));
            if let Some((k, _)) = old_node.lookup(digits_of(cell@)) {
                if k == res_of(cell@) {
                    assert(parent_raw(cell@, k as u64) == cell@);
                }
            }
            if res_of(cell@) >= 1 {
                let p = parent_raw(cell@, (res_of(cell@) - 1) as u64);
                lemma_parent(cell@, (res_of(cell@) - 1) as u64);
                Cell::lemma_cell_exists(p);
                let w = choose|c: Cell| c@ == p;
                assert(w@ == p);
            }
            assert forall|c: u64| valid_cell(c) && old(self).get_spec(c) is Some implies (#[trigger] self.get_spec(c)) is Some by {
                lemma_fields_of(c);
                if base_of(c) == base_of(cell@) {
                    assert(old_node.lookup(digits_of(c)) is Some);
                }
            }
            node.lemma_find_len(digits_of(cell@));
            if let Some((k, _)) = root_find(self.roots(), cell@) {
                lemma_parent(cell@, k as u64);
            }
            let old_slot = old(self).roots()[base_of(cell@) as int];
            if old_slot is None {
                if let Node::Parent(fresh) = old_node {
                    assert(fresh@ =~= Seq::new(7, |i: int| None::<Box<Node<V>>>));
                }
                lemma_ins_rel_fresh::<V, C>(old_node, node, digits_of(cell@), value, cell@, 0);
            } else {
                assert(Some(Box::new(old_node)) == old_slot);
            }
            if never_compacts::<V, C>() {
                if old_slot is None && digits_of(cell@).len() > 0 {
                    if let Node::Parent(fresh) = old_node {
                        assert(fresh@ =~= Seq::new(7, |i: int| None::<Box<Node<V>>>));
                    }
                    assert(put_slot(old_slot, node, digits_of(cell@), value));
                }
                if let Some(b) = old_slot {
                    (*b).lemma_wf_seven(15);
                }
                if digits_in_range(digits_of(cell@)) && !(old(self).get_spec(cell@) matches Some((a, _)) && a != cell@) {
                    if let Some((k, _)) = slot_lookup(old_slot, digits_of(cell@)) {
                        lemma_parent(cell@, k as u64);
                    }
                    lemma_put_found(old_slot, node, digits_of(cell@), value);
                }
                assert forall|o: u64| valid_cell(o) && (base_of(o) != base_of(cell@) || diverges(digits_of(o), digits_of(cell@)))
                    implies #[trigger] self.get_spec(o) == old(self).get_spec(o) by {
                    lemma_fields_of(o);
                    if base_of(o) == base_of(cell@) {
                        lemma_put_frame(old_slot, node, digits_of(cell@), value, digits_of(o));
                    }
                }
            }
        }
    }
}

/// Each leaf listed under the base cells `0..b` has a valid path starting
/// at its base cell, and following the rest of the path from that base
/// cell's subtree stops exactly at that leaf.
proof fn lemma_root_leaves_found<V>(roots: Seq<Option<Box<Node<V>>>>, b: nat, j: int)
    requires
        roots.len() == 122,
        forall|i: int|
            0 <= i < 122 ==> match #[trigger] roots[i] {
                Some(n) => (*n).wf(15),
                None => true,
            },
        b <= 122,
        0 <= j < root_leaves(roots, b).len(),
    ensures
        ({
            let (p, v) = root_leaves(roots, b)[j];
            &&& valid_path(p)
            &&& p[0] < b
            &&& roots[p[0] as int] matches Some(n) && (*n).find(p.drop_first()) == Some(
                ((p.len() - 1) as nat, Node::Leaf(v)),
            )
        }),
    decreases b,
{
    if b > 0 {
        let prev = root_leaves(roots, (b - 1) as nat);
        if j < prev.len() {
            lemma_root_leaves_found(roots, (b - 1) as nat, j);
            assert(root_leaves(roots, b)[j] == prev[j]);
        } else {
            let n = roots[b - 1]->0;
            let prefix = seq![(b - 1) as u8];
            assert(root_leaves(roots, b)[j] == (*n).leaves(prefix)[j - prev.len()]);
            (*n).lemma_leaves_found(prefix, 15, j - prev.len());
            let (p, v) = root_leaves(roots, b)[j];
            assert(p[0] == p.subrange(0, 1)[0]);
            assert(p.subrange(1, p.len() as int) =~= p.drop_first());
        }
    }
}

/// No two leaves under the base cells `0..b` have the same path.
proof fn lemma_root_leaves_distinct<V>(roots: Seq<Option<Box<Node<V>>>>, b: nat, i: int, j: int)
    requires
        roots.len() == 122,
        forall|c: int|
            0 <= c < 122 ==> match #[trigger] roots[c] {
                Some(n) => (*n).wf(15),
                None => true,
            },
        b <= 122,
        0 <= i < j < root_leaves(roots, b).len(),
    ensures
        root_leaves(roots, b)[i].0 != root_leaves(roots, b)[j].0,
    decreases b,
{
    if b > 0 {
        let prev = root_leaves(roots, (b - 1) as nat);
        if j < prev.len() {
            lemma_root_leaves_distinct(roots, (b - 1) as nat, i, j);
            assert(root_leaves(roots, b)[i] == prev[i]);
            assert(root_leaves(roots, b)[j] == prev[j]);
        } else {
            let n = roots[b - 1]->0;
            let prefix = seq![(b - 1) as u8];
            let here = (*n).leaves(prefix);
            assert(root_leaves(roots, b) == prev + here);
            if i >= prev.len() {
                (*n).lemma_leaves_distinct(prefix, 15, i - prev.len(), j - prev.len());
            } else {
                lemma_root_leaves_found(roots, (b - 1) as nat, i);
                (*n).lemma_leaves_found(prefix, 15, j - prev.len());
                let pj = here[j - prev.len()].0;
                assert(pj[0] == pj.subrange(0, 1)[0]);
            }
        }
    }
}

/// Every entry that iteration hands out is what a lookup of its own cell
/// finds, value included; no two entries have the same cell; and no
/// entry's cell is a strict ancestor of another entry's cell.
pub proof fn law_iter_entries_found<V, C>(m: &HexTreeMap<V, C>, i: int, j: int)
    requires
        m.wf(),
        0 <= i < m.entries().len(),
        0 <= j < m.entries().len(),
    ensures
        m.get_spec(m.entries()[i].0) == Some(m.entries()[i]),
        m.entries()[i].0 != m.entries()[j].0 ==> !is_ancestor_or_self(
            m.entries()[i].0,
            m.entries()[j].0,
        ),
        i != j ==> m.entries()[i].0 != m.entries()[j].0,
{
    let roots = m.roots();
    let leaves = root_leaves(roots, 122);
    lemma_entry_found(m, i);
    lemma_entry_found(m, j);
    let a = m.entries()[i].0;
    let b = m.entries()[j].0;
    if i != j && a == b {
        let (pa, va) = leaves[i];
        let (pb, vb) = leaves[j];
        lemma_cell_of_path(pa);
        lemma_cell_of_path(pb);
        assert(pa =~= seq![pa[0]] + pa.drop_first());
        assert(pb =~= seq![pb[0]] + pb.drop_first());
        if i < j {
            lemma_root_leaves_distinct(roots, 122, i, j);
        } else {
            lemma_root_leaves_distinct(roots, 122, j, i);
        }
    }
    if a != b && is_ancestor_or_self(a, b) {
        let (pa, va) = leaves[i];
        let (pb, vb) = leaves[j];
        lemma_cell_of_path(pa);
        lemma_cell_of_path(pb);
        lemma_parent(b, res_of(a));
        let n = roots[base_of(b) as int]->0;
        let rest = digits_of(b).subrange(res_of(a) as int, res_of(b) as int);
        assert(digits_of(a) + rest =~= digits_of(b));
        (*n).lemma_find_extends(digits_of(a), rest);
    }
}

/// The entry at `i` is what a lookup of its cell finds.
proof fn lemma_entry_found<V, C>(m: &HexTreeMap<V, C>, i: int)
    requires
        m.wf(),
        0 <= i < m.entries().len(),
    ensures
        m.get_spec(m.entries()[i].0) == Some(m.entries()[i]),
        ({
            let (p, v) = root_leaves(m.roots(), 122)[i];
            &&& valid_path(p)
            &&& m.entries()[i] == (cell_of_path(p), v)
            &&& m.roots()[p[0] as int] matches Some(n) && (*n).find(p.drop_first()) == Some(
                ((p.len() - 1) as nat, Node::Leaf(v)),
            )
        }),
{
    let roots = m.roots();
    lemma_root_leaves_found(roots, 122, i);
    let (p, v) = root_leaves(roots, 122)[i];
    lemma_cell_of_path(p);
    let a = cell_of_path(p);
    assert(m.entries()[i] == (a, v));
}

/// A cell is contained exactly when a lookup finds a leaf for it.
pub proof fn law_contains_iff_get<V, C>(m: &HexTreeMap<V, C>, cell: u64)
    ensures
        root_contains(m.roots(), cell) <==> m.get_spec(cell) is Some,
{
}

/// A map with no subtrees has no entries, and a lookup of any cell finds
/// nothing.
pub proof fn law_empty_map<V, C>(m: &HexTreeMap<V, C>, cell: u64)
    requires
        m.is_empty_spec(),
        valid_cell(cell),
    ensures
        m.entries().len() == 0,
        m.get_spec(cell) is None,
        m.descendants_spec(cell).len() == 0,
{
    lemma_root_leaves_empty(m.roots(), 122);
    lemma_fields_of(cell);
}

proof fn lemma_root_leaves_empty<V>(roots: Seq<Option<Box<Node<V>>>>, b: nat)
    requires
        b <= 122,
        forall|i: int| 0 <= i < 122 ==> (#[trigger] roots[i]) is None,
    ensures
        root_leaves(roots, b).len() == 0,
    decreases b,
{
    if b > 0 {
        lemma_root_leaves_empty(roots, (b - 1) as nat);
    }
}

/// A leaf covering a cell covers every descendant of it: a lookup of the
/// descendant finds the same leaf.
pub proof fn law_leaf_covers_descendants<V, C>(m: &HexTreeMap<V, C>, p: u64, c: u64)
    requires
        m.wf(),
        valid_cell(p),
        valid_cell(c),
        is_ancestor_or_self(p, c),
        m.get_spec(p) is Some,
    ensures
        m.get_spec(c) == m.get_spec(p),
{
    lemma_fields_of(c);
    lemma_parent(c, res_of(p));
    let n = m.roots()[base_of(c) as int]->0;
    let dp = digits_of(p);
    let dc = digits_of(c);
    (*n).lemma_find_wf(dp, 15);
    if let Some((k, _)) = (*n).find(dp) {
        let q = dp.subrange(0, k as int);
        let rest = dp.subrange(k as int, dp.len() as int);
        assert(q + rest =~= dp);
        lemma_find_prefix(*n, q, rest);
        (*n).lemma_find_extends(q, dc.subrange(k as int, dc.len() as int));
        assert(q + dc.subrange(k as int, dc.len() as int) =~= dc);
        lemma_parent(p, k as u64);
        lemma_parent(c, k as u64);
        crate::cell::lemma_parent_of_parent(c, res_of(p), k as u64);
    }
}

/// The null compactor never compacts, so under it an insert below an
/// existing leaf leaves what a lookup finds unchanged.
pub proof fn law_null_compactor_never_compacts<V>()
    ensures
        forall|c: NullCompactor, pc: Cell, vals: Seq<Option<V>>, r: Option<V>|
            #[trigger] c.compacts(pc, vals, r) ==> r is None,
{
}

/// Seven equal siblings coalesce. Under the Eq compactor, for values whose
/// `==` is equality: when the other six children of `cell`'s parent are
/// leaves holding `value`, the compactor cannot leave that parent alone
/// after `value` is inserted at `cell`; so, by `insert`'s contract, a leaf
/// at the parent or above it then covers the parent and, by
/// `law_leaf_covers_descendants`, all seven children.
pub proof fn law_seven_equal_siblings<V: PartialEq + Clone>(
    m: &HexTreeMap<V, EqCompactor>,
    cell: u64,
    value: V,
)
    requires
        m.wf(),
        valid_cell(cell),
        V::obeys_eq_spec(),
        forall|a: V, b: V| #[trigger] a.eq_spec(&b) <==> (a == b),
        m.roots()[base_of(cell) as int] matches Some(n) && last_sibling(*n, digits_of(cell)) && ((*n).find(
            digits_of(cell).drop_last(),
        ) matches Some((_, Node::Parent(children))) && forall|i: int|
            0 <= i < 7 && i != digits_of(cell).last() ==> slot_value(#[trigger] children[i]) == Some(
                value,
            )),
    ensures
        m.roots()[base_of(cell) as int] matches Some(n) && forall|pc: Cell|
            !m.compactor_spec().compacts(pc, sibling_values(*n, digits_of(cell), value), None),
{
    if let Some(n) = m.roots()[base_of(cell) as int] {
        let path = digits_of(cell);
        if let Some((_, Node::Parent(children))) = (*n).find(path.drop_last()) {
            let d = path.last() as int;
            let vals = sibling_values(*n, path, value);
            assert forall|i: int| 0 <= i < 7 implies (#[trigger] vals[i]) == Some(value) by {
                if i != d {
                    assert(children@.update(d, Some(Box::new(Node::Leaf(value))))[i] == children[i]);
                }
            }
            assert(value.eq_spec(&value));
            assert(all_equal(vals));
        }
    }
}

/// Where a lookup along a path stops at a leaf before the path's end, it
/// stops there along the leaf's own path too.
proof fn lemma_find_prefix<V>(n: Node<V>, q: Seq<u8>, rest: Seq<u8>)
    requires
        n.find(q + rest) matches Some((k, Node::Leaf(_))) && k == q.len(),
    ensures
        n.find(q) == n.find(q + rest),
    decreases q.len(),
{
    if q.len() > 0 {
        if let Node::Parent(children) = n {
            let b = children[q[0] as int]->0;
            assert((q + rest).drop_first() =~= q.drop_first() + rest);
            lemma_find_prefix(*b, q.drop_first(), rest);
        }
    } else {
        assert(q + rest =~= rest);
    }
}

/// Facts about a valid cell's fields.
proof fn lemma_fields_of(raw: u64)
    requires
        valid_cell(raw),
    ensures
        res_of(raw) <= 15,
        base_of(raw) < 122,
{
    crate::cell::lemma_fields(raw);
}

} // verus!
